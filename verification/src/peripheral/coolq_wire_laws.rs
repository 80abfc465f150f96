//! What holds of wire texts: one that is written as the codec writes is
//! written again as it is, once it is read.
use crate::error::Error;
use crate::msg::{ordered, with_entry, Entries, MsgView};
use crate::peripheral::coolq::{
    as_prefix, code_at, composed, decomposed, escape_char, escaped, fields_params, file_key,
    in_tag, in_text, joined, leaf_wire, lemma_wire_single, marker, params_wire, parse_wire,
    relative_to, tag_of, unescaped, wire_of, wire_value,
};
use crate::peripheral::coolq_laws::{
    lemma_escaped_concat, lemma_escaped_front, lemma_occurs_at, lemma_parse_wire_merged, set_of,
    tight,
};
use crate::template_laws::lemma_leaves_of_leaves;
use crate::text::{
    find_from, index_of, lemma_find_from, lemma_index_of, lemma_precedes_irreflexive, occurs_at,
    precedes, split,
};
use vstd::prelude::*;

verus! {

/// Whether a stretch of wire text stands as the escaping writes it: none
/// of the characters that the escaping replaces stands in it but `&`, and
/// every `&` begins one of the codes that are read.
pub open spec fn encoded(x: Seq<char>, tag: bool) -> bool {
    forall|i: int|
        0 <= i < x.len() ==> {
            &&& #[trigger] x[i] != '['
            &&& x[i] != ']'
            &&& (tag ==> x[i] != ',')
            &&& (x[i] == '&' ==> code_at(x.skip(i), tag) is Some)
        }
}

/// What is left of an encoded stretch behind its first `k` characters is
/// encoded.
pub proof fn lemma_encoded_skip(x: Seq<char>, tag: bool, k: int)
    requires
        encoded(x, tag),
        0 <= k <= x.len(),
    ensures
        encoded(x.skip(k), tag),
{
    let rest = x.skip(k);
    assert forall|i: int| 0 <= i < rest.len() implies {
        &&& #[trigger] rest[i] != '['
        &&& rest[i] != ']'
        &&& (tag ==> rest[i] != ',')
        &&& (rest[i] == '&' ==> code_at(rest.skip(i), tag) is Some)
    } by {
        assert(rest[i] == x[k + i]);
        assert(rest.skip(i) =~= x.skip(k + i));
    }
}

/// An encoded stretch, read and written, is the stretch again.
pub proof fn lemma_escape_unescape(x: Seq<char>, tag: bool)
    requires
        encoded(x, tag),
    ensures
        escaped(unescaped(x, tag), set_of(tag)) == x,
    decreases x.len(),
{
    let set = set_of(tag);
    if x.len() > 0 {
        assert(x.skip(0) =~= x);
        assert(x[0] != '[' && x[0] != ']');
        match code_at(x, tag) {
            Some(c) => {
                let rest = x.skip(5);
                let code = escape_char(c, set);
                lemma_occurs_at(x, code, 0);
                assert(occurs_at(x, code, 0));
                lemma_encoded_skip(x, tag, 5);
                lemma_escape_unescape(rest, tag);
                let plain = seq![c] + unescaped(rest, tag);
                lemma_escaped_front(plain, set);
                assert(plain.skip(1) =~= unescaped(rest, tag));
                assert(x.subrange(0, 5) + rest =~= x);
            },
            None => {
                let rest = x.skip(1);
                assert(x[0] != '&');
                lemma_encoded_skip(x, tag, 1);
                lemma_escape_unescape(rest, tag);
                let plain = seq![x[0]] + unescaped(rest, tag);
                lemma_escaped_front(plain, set);
                assert(plain.skip(1) =~= unescaped(rest, tag));
                assert(escape_char(x[0], set) =~= seq![x[0]]);
                assert(seq![x[0]] + rest =~= x);
            },
        }
    } else {
        assert(x =~= Seq::<char>::empty());
    }
}

/// Whether a name, a key or a value stands in a tag as the codec writes
/// it: encoded, and without white space around it.
pub open spec fn valid_field(f: Seq<char>) -> bool {
    encoded(f, true) && tight(f)
}

/// What stands before the first `=` of a field.
pub open spec fn key_part(f: Seq<char>) -> Seq<char> {
    f.take(index_of(f, '='))
}

/// What stands behind the first `=` of a field.
pub open spec fn value_part(f: Seq<char>) -> Seq<char> {
    f.skip(index_of(f, '=') + 1)
}

/// The key that a field gives.
pub open spec fn key_of(f: Seq<char>) -> Seq<char> {
    unescaped(key_part(f), true)
}

/// Whether a field stands as the codec writes a parameter: a key and a
/// value around `=`, each as the codec writes it, and the value of a `file`
/// not beginning with `/`.
pub open spec fn valid_param(f: Seq<char>) -> bool {
    &&& index_of(f, '=') < f.len()
    &&& valid_field(key_part(f))
    &&& valid_field(value_part(f))
    &&& key_of(f) == file_key() ==> !(unescaped(value_part(f), true).len() > 0 && unescaped(
        value_part(f),
        true,
    )[0] == '/')
}

/// Whether the body of a tag stands as the codec writes it: the name and
/// the parameters each as the codec writes them, the keys in the order of
/// strings, each key once.
pub open spec fn valid_tag(body: Seq<char>) -> bool {
    let fields = split(body, ',');
    &&& valid_field(fields[0])
    &&& forall|i: int| 1 <= i < fields.len() ==> valid_param(#[trigger] fields[i])
    &&& forall|i: int, j: int|
        #![trigger fields[i], fields[j]]
        1 <= i < j < fields.len() ==> precedes(key_of(fields[i]), key_of(fields[j]))
}

/// Whether a wire text stands from `pos` on as the codec writes: encoded
/// text between tags `[CQ:...]`, whose bodies are as the codec writes them.
pub open spec fn valid_wire(w: Seq<char>, pos: int) -> bool
    decreases w.len() - pos,
{
    if pos < 0 || pos >= w.len() {
        true
    } else {
        match find_from(w, marker(), pos) {
            None => encoded(w.subrange(pos, w.len() as int), false),
            Some(at) => {
                let open = at + 4;
                let close = open + index_of(w.skip(open), ']');
                proof {
                    lemma_find_from(w, marker(), pos);
                    lemma_index_of(w.skip(open), ']');
                }
                &&& encoded(w.subrange(pos, at), false)
                &&& close < w.len()
                &&& valid_tag(w.subrange(open, close))
                &&& valid_wire(w, close + 1)
            },
        }
    }
}

/// The first `n` fields behind the name, each with the comma before it.
pub open spec fn glued(fields: Seq<Seq<char>>, n: nat) -> Seq<char>
    decreases n,
{
    if n == 0 || n >= fields.len() {
        Seq::empty()
    } else {
        glued(fields, (n - 1) as nat) + seq![','] + fields[n as int]
    }
}

/// Fields glued behind one more field at the front.
pub proof fn lemma_glued_front(head: Seq<char>, tail: Seq<Seq<char>>, n: nat)
    requires
        1 <= n <= tail.len(),
    ensures
        glued(seq![head] + tail, n) == seq![','] + tail[0] + glued(tail, (n - 1) as nat),
    decreases n,
{
    let all = seq![head] + tail;
    assert(all[n as int] == tail[n - 1]);
    if n == 1 {
        assert(glued(all, 0) =~= Seq::<char>::empty());
        assert(glued(tail, 0) =~= Seq::<char>::empty());
        assert(glued(all, 1) =~= seq![','] + tail[0] + glued(tail, 0));
    } else {
        lemma_glued_front(head, tail, (n - 1) as nat);
        let m = (n - 1) as nat;
        assert(glued(tail, m) == glued(tail, (m - 1) as nat) + seq![','] + tail[m as int]);
        assert(glued(all, n) =~= seq![','] + tail[0] + glued(tail, m));
    }
}

/// A text is its pieces, glued by the separator.
pub proof fn lemma_glued_split(s: Seq<char>)
    ensures
        split(s, ',').len() >= 1,
        split(s, ',')[0] + glued(split(s, ','), (split(s, ',').len() - 1) as nat) == s,
    decreases s.len(),
{
    lemma_index_of(s, ',');
    let i = index_of(s, ',');
    if i >= s.len() {
        assert(glued(seq![s], 0) =~= Seq::<char>::empty());
        assert(s + Seq::<char>::empty() =~= s);
    } else {
        let rest = s.skip(i + 1);
        let tail = split(rest, ',');
        lemma_glued_split(rest);
        lemma_glued_front(s.take(i), tail, tail.len());
        let all = seq![s.take(i)] + tail;
        assert(all.len() - 1 == tail.len());
        assert(s.take(i) + (seq![','] + tail[0] + glued(tail, (tail.len() - 1) as nat)) =~= s.take(
            i,
        ) + seq![','] + (tail[0] + glued(tail, (tail.len() - 1) as nat)));
        assert(s.take(i) + seq![','] + rest =~= s);
    }
}

/// The parameter that a field gives for the extension `name`.
pub open spec fn param_of(data_dir: Seq<char>, name: Seq<char>, f: Seq<char>) -> (
    Seq<char>,
    Seq<char>,
) {
    let value = unescaped(value_part(f), true);
    if key_of(f) == file_key() {
        (key_of(f), joined(joined(data_dir, name), value))
    } else {
        (key_of(f), value)
    }
}

/// The parameters that the first `n` fields behind the name give.
pub open spec fn params_from(
    data_dir: Seq<char>,
    name: Seq<char>,
    fields: Seq<Seq<char>>,
    n: nat,
) -> Entries {
    Seq::new(n, |i: int| param_of(data_dir, name, fields[i + 1]))
}

/// A path joined to a directory lies under it and is, relative to it, the
/// path again, unless it begins with `/`.
pub proof fn lemma_relative_joined(dir: Seq<char>, rel: Seq<char>)
    requires
        !(rel.len() > 0 && rel[0] == '/'),
    ensures
        relative_to(joined(dir, rel), dir) == Some(rel),
{
    let prefix = as_prefix(dir);
    let path = joined(dir, rel);
    assert(path =~= prefix + rel);
    assert(path.subrange(0, prefix.len() as int) =~= prefix);
    assert(path.skip(prefix.len() as int) =~= rel);
}

/// The fields of a valid tag give their parameters, in their order.
pub proof fn lemma_valid_fields_parse(
    data_dir: Seq<char>,
    name: Seq<char>,
    body: Seq<char>,
    n: nat,
)
    requires
        valid_tag(body),
        n < split(body, ',').len(),
    ensures
        fields_params(data_dir, name, split(body, ','), n + 1) == Ok::<Entries, Error>(
            params_from(data_dir, name, split(body, ','), n),
        ),
        ordered(params_from(data_dir, name, split(body, ','), n)),
    decreases n,
{
    let fields = split(body, ',');
    let now = params_from(data_dir, name, fields, n);
    if n == 0 {
        assert(now =~= Entries::empty());
    } else {
        let m = (n - 1) as nat;
        lemma_valid_fields_parse(data_dir, name, body, m);
        let prior = params_from(data_dir, name, fields, m);
        let f = fields[n as int];
        assert(valid_param(fields[n as int]));
        let (key, stored) = param_of(data_dir, name, f);
        assert(with_entry(prior, key, stored) =~= now) by {
            if prior.len() > 0 {
                assert(prior.last() == param_of(data_dir, name, fields[m as int]));
                assert(precedes(key_of(fields[m as int]), key_of(fields[n as int])));
                lemma_precedes_irreflexive(key);
            }
            assert(prior.push((key, stored)) =~= now);
        }
        assert forall|i: int, j: int| 0 <= i < j < now.len() implies precedes(
            #[trigger] now[i].0,
            #[trigger] now[j].0,
        ) by {
            assert(precedes(key_of(fields[i + 1]), key_of(fields[j + 1])));
        }
    }
}

/// The parameters of a valid tag are written as its fields stand.
pub proof fn lemma_valid_params_wire(
    data_dir: Seq<char>,
    name: Seq<char>,
    body: Seq<char>,
    n: nat,
)
    requires
        valid_tag(body),
        n < split(body, ',').len(),
    ensures
        params_wire(
            data_dir,
            name,
            params_from(data_dir, name, split(body, ','), (split(body, ',').len() - 1) as nat),
            n,
        ) == Some(glued(split(body, ','), n)),
    decreases n,
{
    let fields = split(body, ',');
    let params = params_from(data_dir, name, fields, (fields.len() - 1) as nat);
    if n > 0 {
        let m = (n - 1) as nat;
        lemma_valid_params_wire(data_dir, name, body, m);
        let f = fields[n as int];
        assert(valid_param(fields[n as int]));
        assert(params[m as int] == param_of(data_dir, name, f));
        let (key, stored) = params[m as int];
        let value = unescaped(value_part(f), true);
        if key == file_key() {
            lemma_relative_joined(joined(data_dir, name), value);
        }
        assert(wire_value(data_dir, name, key, stored) == Some(value));
        lemma_escape_unescape(key_part(f), true);
        lemma_escape_unescape(value_part(f), true);
        lemma_index_of(f, '=');
        assert(key_part(f) + seq!['='] + value_part(f) =~= f);
        let before = glued(fields, m);
        assert(before + seq![','] + escaped(key, in_tag()) + seq!['='] + escaped(value, in_tag())
            =~= before + seq![','] + f);
    }
}

/// The body of a valid tag is read as an extension that is written as the
/// tag.
pub proof fn lemma_valid_tag(data_dir: Seq<char>, body: Seq<char>)
    requires
        valid_tag(body),
    ensures
        tag_of(data_dir, body) matches Ok(ext) && leaf_wire(data_dir, ext) == Some(
            marker() + body + seq![']'],
        ) && ext is Ext,
{
    let fields = split(body, ',');
    lemma_glued_split(body);
    let n = (fields.len() - 1) as nat;
    let name = unescaped(fields[0], true);
    lemma_valid_fields_parse(data_dir, name, body, n);
    lemma_valid_params_wire(data_dir, name, body, n);
    lemma_escape_unescape(fields[0], true);
    let params = params_from(data_dir, name, fields, n);
    assert(params.len() == n);
    assert(marker() + escaped(name, in_tag()) + glued(fields, n) + seq![']'] =~= marker() + (
    fields[0] + glued(fields, n)) + seq![']']);
}

/// What is written of parts with one more leaf appended is what is written
/// of the parts and of the leaf.
pub proof fn lemma_wire_appended(data_dir: Seq<char>, buf: Seq<MsgView>, leaf: MsgView)
    requires
        leaf.is_leaf(),
        wire_of(data_dir, buf) is Some,
        leaf_wire(data_dir, leaf) is Some,
    ensures
        wire_of(data_dir, MsgView::appended(buf, leaf)) == Some(
            wire_of(data_dir, buf)->Some_0 + leaf_wire(data_dir, leaf)->Some_0,
        ),
{
    let next = MsgView::appended(buf, leaf);
    match leaf {
        MsgView::Text(content) => {
            if buf.len() > 0 && buf.last() is Text {
                let front = buf.drop_last();
                let a = buf.last()->Text_0;
                assert(next.drop_last() =~= front);
                assert(next.last() == MsgView::Text(a + content));
                lemma_escaped_concat(a, content, in_text());
                let fw = wire_of(data_dir, front)->Some_0;
                assert(fw + (escaped(a, in_text()) + escaped(
                    content,
                    in_text(),
                )) =~= (fw + escaped(a, in_text())) + escaped(
                    content,
                    in_text(),
                ));
            } else {
                assert(next.drop_last() =~= buf);
            }
        },
        _ => {
            assert(next.drop_last() =~= buf);
        },
    }
}

/// An encoded text, read and appended to parts, is written behind what is
/// written of the parts.
pub proof fn lemma_valid_text_piece(
    data_dir: Seq<char>,
    buf: Seq<MsgView>,
    x: Seq<char>,
    before: Seq<char>,
)
    requires
        encoded(x, false),
        wire_of(data_dir, buf) == Some(before),
    ensures
        wire_of(data_dir, MsgView::appended(buf, MsgView::Text(unescaped(x, false)))) == Some(
            before + x,
        ),
{
    lemma_escape_unescape(x, false);
    lemma_wire_appended(data_dir, buf, MsgView::Text(unescaped(x, false)));
}

/// A valid tag at `at`, read and appended to parts that are written as the
/// wire text before it, gives parts that are written as the wire text up
/// to the end of the tag.
pub proof fn lemma_valid_tag_piece(data_dir: Seq<char>, w: Seq<char>, at: int, buf: Seq<MsgView>)
    requires
        occurs_at(w, marker(), at),
        at + 4 + index_of(w.skip(at + 4), ']') < w.len(),
        valid_tag(w.subrange(at + 4, at + 4 + index_of(w.skip(at + 4), ']'))),
        wire_of(data_dir, buf) == Some(w.take(at)),
    ensures
        tag_of(data_dir, w.subrange(at + 4, at + 4 + index_of(w.skip(at + 4), ']'))) is Ok,
        wire_of(
            data_dir,
            MsgView::appended(
                buf,
                tag_of(data_dir, w.subrange(at + 4, at + 4 + index_of(w.skip(at + 4), ']')))->Ok_0,
            ),
        ) == Some(w.take(at + 4 + index_of(w.skip(at + 4), ']') + 1)),
{
    let open = at + 4;
    lemma_index_of(w.skip(open), ']');
    let close = open + index_of(w.skip(open), ']');
    let body = w.subrange(open, close);
    lemma_valid_tag(data_dir, body);
    let ext = tag_of(data_dir, body)->Ok_0;
    lemma_wire_appended(data_dir, buf, ext);
    assert(w.skip(open)[close - open] == w[close]);
    assert(w.subrange(at, at + 4) =~= marker());
    let tag = marker() + body + seq![']'];
    assert(tag.len() == close + 1 - at);
    assert forall|k: int| 0 <= k < tag.len() implies tag[k] == w[at + k] by {
        if k < 4 {
            assert(w.subrange(at, at + 4)[k] == w[at + k]);
        } else if k < 4 + body.len() {
            assert(body[k - 4] == w[open + (k - 4)]);
        }
    }
    assert(w.take(at) + tag =~= w.take(close + 1));
}

/// Reading a valid wire text from `pos` on, after parts that are written
/// as the text before `pos`, gives parts that are written as the text.
pub proof fn lemma_valid_parse(data_dir: Seq<char>, w: Seq<char>, pos: int, buf: Seq<MsgView>)
    requires
        valid_wire(w, pos),
        0 <= pos <= w.len(),
        wire_of(data_dir, buf) == Some(w.take(pos)),
    ensures
        parse_wire(data_dir, w, pos, buf) matches Ok(parts) && wire_of(data_dir, parts) == Some(w),
    decreases w.len() - pos,
{
    if pos >= w.len() {
        assert(w.take(pos) =~= w);
    } else {
        lemma_find_from(w, marker(), pos);
        match find_from(w, marker(), pos) {
            None => {
                let x = w.subrange(pos, w.len() as int);
                lemma_valid_text_piece(data_dir, buf, x, w.take(pos));
                assert(w.take(pos) + x =~= w);
            },
            Some(at) => {
                let x = w.subrange(pos, at);
                let before = if at > pos {
                    MsgView::appended(buf, MsgView::Text(unescaped(x, false)))
                } else {
                    buf
                };
                if at > pos {
                    lemma_valid_text_piece(data_dir, buf, x, w.take(pos));
                    assert(w.take(pos) + x =~= w.take(at));
                }
                let open = at + 4;
                lemma_index_of(w.skip(open), ']');
                let close = open + index_of(w.skip(open), ']');
                lemma_valid_tag_piece(data_dir, w, at, before);
                let ext = tag_of(data_dir, w.subrange(open, close))->Ok_0;
                lemma_valid_parse(data_dir, w, close + 1, MsgView::appended(before, ext));
            },
        }
    }
}

/// A valid wire text, read and written, is the wire text again.
pub proof fn lemma_compose_decompose_valid(data_dir: Seq<char>, w: Seq<char>)
    requires
        valid_wire(w, 0),
    ensures
        decomposed(data_dir, w) matches Ok(m) && composed(data_dir, m) == Ok::<Seq<char>, Error>(
            w,
        ),
{
    let none = Seq::<MsgView>::empty();
    assert(w.take(0) =~= Seq::<char>::empty());
    lemma_valid_parse(data_dir, w, 0, none);
    lemma_parse_wire_merged(data_dir, w, 0, none);
    let parts = parse_wire(data_dir, w, 0, none)->Ok_0;
    let m = MsgView::built(parts);
    if parts.len() == 0 {
        lemma_wire_single(data_dir, m);
        assert(escaped(Seq::<char>::empty(), in_text())
            =~= Seq::<char>::empty());
    } else if parts.len() == 1 {
        assert(parts[0].is_leaf());
        assert(m.leaves() =~= parts);
    } else {
        lemma_leaves_of_leaves(parts, parts.len());
        assert(parts.take(parts.len() as int) =~= parts);
    }
}

} // verus!
