//! What holds of the bracketed-tag codec: what it writes, it reads back.
use crate::error::Error;
use crate::msg::{ordered, with_entry, Entries, MsgView};
use crate::peripheral::coolq::{
    amp_code, as_prefix, close_code, code_at, comma_code, composed, decomposed, escape_char,
    escaped, fields_params, file_key, in_tag, in_text, joined, leaf_wire, lemma_wire_single,
    marker, open_code, params_wire, parse_wire, relative_to, tag_of, unescaped, wire_of,
    wire_value, EscapeSet,
};
use crate::msg::lemma_builder_normal;
use crate::template_laws::lemma_leaves_of_leaves;
use crate::text::{
    find_from, index_of, lemma_find_from, lemma_index_of, lemma_precedes_irreflexive, occurs_at,
    precedes, split, white_space,
};
use vstd::prelude::*;

verus! {

/// Whether the escaping replaces `c`.
pub open spec fn escapes(set: EscapeSet, c: char) -> bool {
    (c == '&' && set.amp) || (c == '[' && set.open) || (c == ']' && set.close) || (c == ','
        && set.comma)
}

/// The escaping of free text or that of a tag.
pub open spec fn set_of(tag: bool) -> EscapeSet {
    if tag {
        in_tag()
    } else {
        in_text()
    }
}

/// A text escaped is its parts escaped, one after the other.
pub proof fn lemma_escaped_concat(a: Seq<char>, b: Seq<char>, set: EscapeSet)
    ensures
        escaped(a + b, set) == escaped(a, set) + escaped(b, set),
    decreases b.len(),
{
    if b.len() == 0 {
        assert(a + b =~= a);
        assert(escaped(a, set) + escaped(b, set) =~= escaped(a, set));
    } else {
        lemma_escaped_concat(a, b.drop_last(), set);
        assert((a + b).drop_last() =~= a + b.drop_last());
        assert((a + b).last() == b.last());
        assert(escaped(a + b, set) =~= escaped(a, set) + escaped(b, set));
    }
}

/// A text escaped begins with its first character escaped.
pub proof fn lemma_escaped_front(s: Seq<char>, set: EscapeSet)
    requires
        s.len() > 0,
    ensures
        escaped(s, set) == escape_char(s[0], set) + escaped(s.skip(1), set),
{
    let head = seq![s[0]];
    assert(head + s.skip(1) =~= s);
    lemma_escaped_concat(head, s.skip(1), set);
    assert(head.drop_last() =~= Seq::<char>::empty());
    assert(escaped(head.drop_last(), set) =~= Seq::<char>::empty());
    assert(head.last() == s[0]);
    assert(escaped(head, set) =~= escape_char(s[0], set));
}

/// Where `pat` stands in `s` at `i`, the characters of `s` from `i` on are
/// those of `pat`, and the other way round.
pub proof fn lemma_occurs_at(s: Seq<char>, pat: Seq<char>, i: int)
    ensures
        occurs_at(s, pat, i) <==> (0 <= i && i + pat.len() <= s.len() && forall|k: int|
            0 <= k < pat.len() ==> s[i + k] == #[trigger] pat[k]),
{
    if 0 <= i && i + pat.len() <= s.len() {
        let part = s.subrange(i, i + pat.len());
        if part == pat {
            assert forall|k: int| 0 <= k < pat.len() implies s[i + k] == #[trigger] pat[k] by {
                assert(part[k] == s[i + k]);
            }
        }
        if forall|k: int| 0 <= k < pat.len() ==> s[i + k] == #[trigger] pat[k] {
            assert(part =~= pat);
        }
    }
}

/// What stands at the start of an escaped text that is not empty: the code
/// of its first character where the escaping replaces it, and no code
/// otherwise.
pub proof fn lemma_code_at_escaped(s: Seq<char>, tag: bool)
    requires
        s.len() > 0,
    ensures
        escapes(set_of(tag), s[0]) ==> code_at(escaped(s, set_of(tag)), tag) == Some(s[0]),
        !escapes(set_of(tag), s[0]) ==> code_at(escaped(s, set_of(tag)), tag) is None,
{
    let set = set_of(tag);
    let e = escaped(s, set);
    let first = escape_char(s[0], set);
    lemma_escaped_front(s, set);
    assert forall|k: int| 0 <= k < first.len() implies e[k] == #[trigger] first[k] by {}
    lemma_occurs_at(e, amp_code(), 0);
    lemma_occurs_at(e, open_code(), 0);
    lemma_occurs_at(e, close_code(), 0);
    lemma_occurs_at(e, comma_code(), 0);
    assert(amp_code()[0] == '&' && amp_code()[1] == 'a');
    assert(open_code()[0] == '&' && open_code()[1] == '#' && open_code()[2] == '9' && open_code()[3]
        == '1');
    assert(close_code()[0] == '&' && close_code()[1] == '#' && close_code()[2] == '9'
        && close_code()[3] == '3');
    assert(comma_code()[0] == '&' && comma_code()[1] == '#' && comma_code()[2] == '4');
    if escapes(set, s[0]) {
        assert(first.len() == 5);
        assert(e.subrange(0, 5) =~= first);
        assert(e[0int + 1] == first[1] && e[0int + 2] == first[2] && e[0int + 3] == first[3]);
    } else {
        assert(first =~= seq![s[0]]);
        assert(e[0int + 0] == s[0]);
        assert(s[0] != '&');
    }
}

/// Reading back what was written of a text gives the text, whatever it
/// holds: the escaping of free text and that of a tag are undone exactly.
pub proof fn lemma_unescape_escape(s: Seq<char>, tag: bool)
    ensures
        unescaped(escaped(s, set_of(tag)), tag) == s,
    decreases s.len(),
{
    let set = set_of(tag);
    let e = escaped(s, set);
    if s.len() == 0 {
        assert(s =~= Seq::<char>::empty());
    } else {
        let rest = s.skip(1);
        let first = escape_char(s[0], set);
        lemma_escaped_front(s, set);
        lemma_code_at_escaped(s, tag);
        lemma_unescape_escape(rest, tag);
        assert(e.skip(first.len() as int) =~= escaped(rest, set));
        assert(seq![s[0]] + rest =~= s);
        if !escapes(set, s[0]) {
            assert(first =~= seq![s[0]]);
            assert(e[0] == s[0]);
        }
    }
}

/// Whether `c` stands nowhere in `s`.
pub open spec fn lacks(s: Seq<char>, c: char) -> bool {
    forall|i: int| 0 <= i < s.len() ==> s[i] != c
}

/// Whether a text neither begins nor ends with white space, so that
/// trimming leaves it as it is.
pub open spec fn tight(s: Seq<char>) -> bool {
    s.len() == 0 || (!white_space(s[0]) && !white_space(s.last()))
}

/// An escaped text holds a bracket, a comma or an equals sign only where
/// the text holds it and the escaping leaves it.
pub proof fn lemma_escaped_lacks(s: Seq<char>, set: EscapeSet, d: char)
    requires
        d == '[' || d == ']' || d == ',' || d == '=',
        escapes(set, d) || lacks(s, d),
    ensures
        lacks(escaped(s, set), d),
    decreases s.len(),
{
    if s.len() > 0 {
        let front = s.drop_last();
        assert(lacks(front, d) || escapes(set, d)) by {
            if !escapes(set, d) {
                assert forall|i: int| 0 <= i < front.len() implies front[i] != d by {
                    assert(front[i] == s[i]);
                }
            }
        }
        lemma_escaped_lacks(front, set, d);
        let last = escape_char(s.last(), set);
        assert(lacks(last, d)) by {
            if !escapes(set, d) {
                assert(s[s.len() - 1] != d);
            }
        }
        let e = escaped(s, set);
        assert forall|i: int| 0 <= i < e.len() implies e[i] != d by {
            if i < escaped(front, set).len() {
                assert(e[i] == escaped(front, set)[i]);
            } else {
                assert(e[i] == last[i - escaped(front, set).len()]);
            }
        }
    }
}

/// A tight text is tight when it is escaped: no code begins or ends with
/// white space.
pub proof fn lemma_escaped_tight(s: Seq<char>, set: EscapeSet)
    requires
        tight(s),
    ensures
        tight(escaped(s, set)),
        s.len() > 0 ==> escaped(s, set).len() > 0,
{
    if s.len() > 0 {
        lemma_escaped_front(s, set);
        let first = escape_char(s[0], set);
        assert(first[0] == '&' || first[0] == s[0]);
        let last = escape_char(s.last(), set);
        assert(last.last() == ';' || last.last() == s.last());
        assert(escaped(s, set).last() == last.last());
        assert(!white_space('&'));
        assert(!white_space(';'));
    }
}

/// Where `c` stands nowhere in `s`, `index_of` gives the length of `s`.
pub proof fn lemma_index_of_absent(s: Seq<char>, c: char)
    requires
        lacks(s, c),
    ensures
        index_of(s, c) == s.len(),
{
    lemma_index_of(s, c);
}

/// Where `c` stands at `i` in `s` and nowhere before, `index_of` gives `i`.
pub proof fn lemma_index_of_first(s: Seq<char>, c: char, i: int)
    requires
        0 <= i < s.len(),
        s[i] == c,
        forall|j: int| 0 <= j < i ==> s[j] != c,
    ensures
        index_of(s, c) == i,
{
    lemma_index_of(s, c);
}

/// Where `pat` stands at `i` in `s` and nowhere from `from` up to `i`,
/// `find_from` gives `i`.
pub proof fn lemma_find_first(s: Seq<char>, pat: Seq<char>, from: int, i: int)
    requires
        0 <= from <= i,
        occurs_at(s, pat, i),
        forall|j: int| from <= j < i ==> !occurs_at(s, pat, j),
    ensures
        find_from(s, pat, from) == Some(i),
{
    lemma_find_from(s, pat, from);
}

/// Where `pat` stands nowhere in `s` from `from` on, `find_from` finds
/// nothing.
pub proof fn lemma_find_nothing(s: Seq<char>, pat: Seq<char>, from: int)
    requires
        0 <= from,
        forall|j: int| from <= j ==> !occurs_at(s, pat, j),
    ensures
        find_from(s, pat, from) is None,
{
    lemma_find_from(s, pat, from);
}

/// A text without the separator is one piece.
pub proof fn lemma_split_one(s: Seq<char>, sep: char)
    requires
        lacks(s, sep),
    ensures
        split(s, sep) == seq![s],
{
    lemma_index_of_absent(s, sep);
}

/// A piece without the separator, put behind a text and a separator, is
/// one more piece.
pub proof fn lemma_split_append(s: Seq<char>, piece: Seq<char>, sep: char)
    requires
        lacks(piece, sep),
    ensures
        split(s + seq![sep] + piece, sep) == split(s, sep).push(piece),
    decreases s.len(),
{
    let whole = s + seq![sep] + piece;
    lemma_index_of(s, sep);
    let i = index_of(s, sep);
    assert forall|j: int| 0 <= j < i implies whole[j] != sep by {
        assert(whole[j] == s[j]);
    }
    assert(whole[i] == sep);
    lemma_index_of_first(whole, sep, i);
    if i >= s.len() {
        assert(whole.take(i) =~= s);
        assert(whole.skip(i + 1) =~= piece);
        lemma_split_one(piece, sep);
        assert(seq![s] + seq![piece] =~= seq![s].push(piece));
    } else {
        let rest = s.skip(i + 1);
        lemma_split_append(rest, piece, sep);
        assert(whole.skip(i + 1) =~= rest + seq![sep] + piece);
        assert(whole.take(i) =~= s.take(i));
        assert(seq![s.take(i)] + split(rest, sep).push(piece) =~= (seq![s.take(i)] + split(
            rest,
            sep,
        )).push(piece));
    }
}


/// Whether a name, a key or a value can stand in a tag and be read back:
/// it is tight.
pub open spec fn field_ok(s: Seq<char>) -> bool {
    tight(s)
}

/// Whether a parameter can stand in a tag of the extension `name` and be
/// read back: its key holds no `=`, and the key and what is written for the
/// value are fit for a tag; what is written for a `file` does not begin
/// with `/`.
pub open spec fn param_ok(
    data_dir: Seq<char>,
    name: Seq<char>,
    key: Seq<char>,
    value: Seq<char>,
) -> bool {
    &&& field_ok(key)
    &&& lacks(key, '=')
    &&& wire_value(data_dir, name, key, value) matches Some(v) && field_ok(v) && (key
        == file_key() ==> !(v.len() > 0 && v[0] == '/'))
}

/// Whether an extension can be written as a tag and read back.
pub open spec fn ext_ok(data_dir: Seq<char>, name: Seq<char>, params: Entries) -> bool {
    &&& field_ok(name)
    &&& ordered(params)
    &&& forall|i: int|
        0 <= i < params.len() ==> param_ok(
            data_dir,
            name,
            (#[trigger] params[i]).0,
            params[i].1,
        )
}

/// A path that lies under a directory is what it is relative to the
/// directory, joined to the directory, unless that begins with `/`.
pub proof fn lemma_join_relative(path: Seq<char>, dir: Seq<char>)
    requires
        relative_to(path, dir) matches Some(rel) && !(rel.len() > 0 && rel[0] == '/'),
    ensures
        joined(dir, relative_to(path, dir)->Some_0) == path,
{
    let rel = relative_to(path, dir)->Some_0;
    let prefix = as_prefix(dir);
    assert(prefix + rel =~= path);
    assert(joined(dir, rel) =~= prefix + rel);
}

/// A parameter as it stands in a tag, behind the comma.
pub open spec fn field_text(
    data_dir: Seq<char>,
    name: Seq<char>,
    key: Seq<char>,
    value: Seq<char>,
) -> Seq<char> {
    escaped(key, in_tag()) + seq!['='] + escaped(
        wire_value(data_dir, name, key, value)->Some_0,
        in_tag(),
    )
}

/// The fields of a tag with the first `n` parameters.
pub open spec fn fields_of(data_dir: Seq<char>, name: Seq<char>, params: Entries, n: nat) -> Seq<
    Seq<char>,
> {
    seq![escaped(name, in_tag())] + Seq::new(
        n,
        |i: int| field_text(data_dir, name, params[i].0, params[i].1),
    )
}

/// The body of a tag splits into the name and the parameters as they were
/// written, and holds no `]`.
pub proof fn lemma_tag_fields(data_dir: Seq<char>, name: Seq<char>, params: Entries, n: nat)
    requires
        ext_ok(data_dir, name, params),
        n <= params.len(),
    ensures
        params_wire(data_dir, name, params, n) is Some,
        split(escaped(name, in_tag()) + params_wire(data_dir, name, params, n)->Some_0, ',')
            == fields_of(data_dir, name, params, n),
        lacks(escaped(name, in_tag()) + params_wire(data_dir, name, params, n)->Some_0, ']'),
    decreases n,
{
    let head = escaped(name, in_tag());
    lemma_escaped_lacks(name, in_tag(), ',');
    lemma_escaped_lacks(name, in_tag(), ']');
    if n == 0 {
        assert(head + Seq::<char>::empty() =~= head);
        lemma_split_one(head, ',');
        assert(fields_of(data_dir, name, params, 0) =~= seq![head]);
    } else {
        let m = (n - 1) as nat;
        lemma_tag_fields(data_dir, name, params, m);
        let (key, value) = params[m as int];
        assert(param_ok(data_dir, name, params[m as int].0, params[m as int].1));
        let v = wire_value(data_dir, name, key, value)->Some_0;
        let before = params_wire(data_dir, name, params, m)->Some_0;
        let field = field_text(data_dir, name, key, value);
        let now = params_wire(data_dir, name, params, n)->Some_0;
        assert(now == before + seq![','] + escaped(key, in_tag()) + seq!['='] + escaped(
            v,
            in_tag(),
        ));
        assert(head + now =~= (head + before) + seq![','] + field);
        lemma_escaped_lacks(key, in_tag(), ',');
        lemma_escaped_lacks(v, in_tag(), ',');
        lemma_escaped_lacks(key, in_tag(), ']');
        lemma_escaped_lacks(v, in_tag(), ']');
        let ek = escaped(key, in_tag());
        let ev = escaped(v, in_tag());
        assert forall|i: int| 0 <= i < field.len() implies field[i] != ',' && field[i]
            != ']' by {
            if i < ek.len() {
                assert(field[i] == ek[i]);
            } else if i == ek.len() {
                assert(field[i] == '=');
            } else {
                assert(field[i] == ev[i - ek.len() - 1]);
            }
        }
        lemma_split_append(head + before, field, ',');
        assert(fields_of(data_dir, name, params, m).push(field) =~= fields_of(
            data_dir,
            name,
            params,
            n,
        ));
        let body = head + now;
        assert forall|i: int| 0 <= i < body.len() implies body[i] != ']' by {
            if i < (head + before).len() {
                assert(body[i] == (head + before)[i]);
            } else if i == (head + before).len() {
                assert(body[i] == ',');
            } else {
                assert(body[i] == field[i - (head + before).len() - 1]);
            }
        }
    }
}

/// The fields of a tag, read, give the parameters that were written.
pub proof fn lemma_fields_parse(data_dir: Seq<char>, name: Seq<char>, params: Entries, n: nat)
    requires
        ext_ok(data_dir, name, params),
        n <= params.len(),
    ensures
        fields_params(
            data_dir,
            name,
            fields_of(data_dir, name, params, params.len()),
            n + 1,
        ) == Ok::<Entries, Error>(params.take(n as int)),
    decreases n,
{
    let fields = fields_of(data_dir, name, params, params.len());
    if n == 0 {
        assert(params.take(0) =~= Entries::empty());
    } else {
        let m = (n - 1) as nat;
        lemma_fields_parse(data_dir, name, params, m);
        let (key, value) = params[m as int];
        assert(param_ok(data_dir, name, params[m as int].0, params[m as int].1));
        let v = wire_value(data_dir, name, key, value)->Some_0;
        let field = fields[n as int];
        let ek = escaped(key, in_tag());
        let ev = escaped(v, in_tag());
        assert(field == ek + seq!['='] + ev);
        lemma_escaped_lacks(key, in_tag(), '=');
        assert forall|j: int| 0 <= j < ek.len() implies field[j] != '=' by {
            assert(field[j] == ek[j]);
        }
        assert(field[ek.len() as int] == '=');
        lemma_index_of_first(field, '=', ek.len() as int);
        let eq = index_of(field, '=');
        assert(field.take(eq) =~= ek);
        assert(field.skip(eq + 1) =~= ev);
        lemma_escaped_tight(key, in_tag());
        lemma_escaped_tight(v, in_tag());
        lemma_unescape_escape(key, true);
        lemma_unescape_escape(v, true);
        let stored = if key == file_key() {
            joined(joined(data_dir, name), v)
        } else {
            v
        };
        if key == file_key() {
            lemma_join_relative(value, joined(data_dir, name));
        }
        assert(stored == value);
        let prior = params.take(m as int);
        assert(with_entry(prior, key, value) =~= params.take(n as int)) by {
            if prior.len() > 0 {
                assert(prior.last() == params[m - 1]);
                assert(precedes(params[m - 1].0, params[m as int].0));
                lemma_precedes_irreflexive(key);
            }
            assert(prior.push((key, value)) =~= params.take(n as int));
        }
    }
}

/// The body of the tag that is written for an extension is read as the
/// extension, and holds no `]`.
pub proof fn lemma_tag_round_trip(data_dir: Seq<char>, name: Seq<char>, params: Entries)
    requires
        ext_ok(data_dir, name, params),
    ensures
        params_wire(data_dir, name, params, params.len()) is Some,
        tag_of(
            data_dir,
            escaped(name, in_tag()) + params_wire(data_dir, name, params, params.len())->Some_0,
        ) == Ok::<MsgView, Error>(MsgView::Ext { name, params }),
        lacks(
            escaped(name, in_tag()) + params_wire(data_dir, name, params, params.len())->Some_0,
            ']',
        ),
{
    lemma_tag_fields(data_dir, name, params, params.len());
    lemma_fields_parse(data_dir, name, params, params.len());
    lemma_escaped_tight(name, in_tag());
    lemma_unescape_escape(name, true);
    assert(params.take(params.len() as int) =~= params);
    let fields = fields_of(data_dir, name, params, params.len());
    assert(fields[0] == escaped(name, in_tag()));
    assert(fields.len() == params.len() + 1);
}


/// Whether a text or an extension can be written and read back; a compound
/// is no leaf.
pub open spec fn leaf_ok(data_dir: Seq<char>, leaf: MsgView) -> bool {
    match leaf {
        MsgView::Text(_) => true,
        MsgView::Ext { name, params } => ext_ok(data_dir, name, params),
        MsgView::Compound(_) => false,
    }
}

/// Whether each of the leaves can be written and read back.
pub open spec fn leaves_ok(data_dir: Seq<char>, leaves: Seq<MsgView>) -> bool {
    forall|i: int| 0 <= i < leaves.len() ==> leaf_ok(data_dir, #[trigger] leaves[i])
}

/// Whether a message can be written in the tag format and read back: it is
/// in minimal form, and each of its texts and extensions can be.
pub open spec fn expressible(data_dir: Seq<char>, m: MsgView) -> bool {
    m.normal() && leaves_ok(data_dir, m.leaves())
}

/// The tag that is written for an extension.
pub open spec fn tag_text(data_dir: Seq<char>, name: Seq<char>, params: Entries) -> Seq<char> {
    leaf_wire(data_dir, MsgView::Ext { name, params })->Some_0
}

/// Where the wire text holds the tag of an extension at `at`, the tag ends
/// with the first `]` behind its marker, and its body is read as the
/// extension.
pub proof fn lemma_tag_at(
    data_dir: Seq<char>,
    w: Seq<char>,
    at: int,
    name: Seq<char>,
    params: Entries,
)
    requires
        ext_ok(data_dir, name, params),
        0 <= at,
        at + tag_text(data_dir, name, params).len() <= w.len(),
        w.subrange(at, at + tag_text(data_dir, name, params).len()) == tag_text(
            data_dir,
            name,
            params,
        ),
    ensures
        occurs_at(w, marker(), at),
        at + 4 + index_of(w.skip(at + 4), ']') + 1 == at + tag_text(data_dir, name, params).len(),
        tag_of(data_dir, w.subrange(at + 4, at + 4 + index_of(w.skip(at + 4), ']')))
            == Ok::<MsgView, Error>(MsgView::Ext { name, params }),
{
    lemma_tag_round_trip(data_dir, name, params);
    let body = escaped(name, in_tag()) + params_wire(data_dir, name, params, params.len())->Some_0;
    let tw = tag_text(data_dir, name, params);
    assert(tw =~= marker() + body + seq![']']);
    assert forall|k: int| 0 <= k < tw.len() implies w[at + k] == #[trigger] tw[k] by {
        assert(w.subrange(at, at + tw.len())[k] == w[at + k]);
    }
    assert(w.subrange(at, at + 4) =~= marker()) by {
        assert forall|k: int| 0 <= k < 4 implies w[at + k] == marker()[k] by {
            assert(tw[k] == marker()[k]);
        }
    }
    let rest = w.skip(at + 4);
    assert forall|j: int| 0 <= j < body.len() implies rest[j] != ']' by {
        assert(rest[j] == w[at + (4 + j)]);
        assert(tw[4 + j] == body[j]);
    }
    assert(rest[body.len() as int] == ']') by {
        assert(rest[body.len() as int] == w[at + (4 + body.len())]);
        assert(tw[4 + body.len() as int] == ']');
    }
    lemma_index_of_first(rest, ']', body.len() as int);
    assert(w.subrange(at + 4, at + 4 + body.len()) =~= body) by {
        assert forall|j: int| 0 <= j < body.len() implies w[at + 4 + j] == body[j] by {
            assert(w[at + (4 + j)] == tw[4 + j]);
        }
    }
}

/// Reading at the tag of an extension appends the extension and goes on
/// behind the tag.
pub proof fn lemma_step_ext(
    data_dir: Seq<char>,
    w: Seq<char>,
    at: int,
    buf: Seq<MsgView>,
    name: Seq<char>,
    params: Entries,
)
    requires
        ext_ok(data_dir, name, params),
        0 <= at,
        at + tag_text(data_dir, name, params).len() <= w.len(),
        w.subrange(at, at + tag_text(data_dir, name, params).len()) == tag_text(
            data_dir,
            name,
            params,
        ),
    ensures
        parse_wire(data_dir, w, at, buf) == parse_wire(
            data_dir,
            w,
            at + tag_text(data_dir, name, params).len(),
            MsgView::appended(buf, MsgView::Ext { name, params }),
        ),
{
    lemma_tag_at(data_dir, w, at, name, params);
    lemma_find_first(w, marker(), at, at);
}

/// Reading at an escaped text that a tag follows appends the text and the
/// extension and goes on behind the tag.
pub proof fn lemma_step_text_ext(
    data_dir: Seq<char>,
    w: Seq<char>,
    pos: int,
    buf: Seq<MsgView>,
    content: Seq<char>,
    name: Seq<char>,
    params: Entries,
)
    requires
        content.len() > 0,
        ext_ok(data_dir, name, params),
        0 <= pos,
        pos + escaped(content, in_text()).len() + tag_text(data_dir, name, params).len()
            <= w.len(),
        w.subrange(pos, pos + escaped(content, in_text()).len()) == escaped(content, in_text()),
        w.subrange(
            pos + escaped(content, in_text()).len(),
            pos + escaped(content, in_text()).len() + tag_text(data_dir, name, params).len(),
        ) == tag_text(data_dir, name, params),
    ensures
        parse_wire(data_dir, w, pos, buf) == parse_wire(
            data_dir,
            w,
            pos + escaped(content, in_text()).len() + tag_text(data_dir, name, params).len(),
            MsgView::appended(
                MsgView::appended(buf, MsgView::Text(content)),
                MsgView::Ext { name, params },
            ),
        ),
{
    let tx = escaped(content, in_text());
    let at = pos + tx.len();
    lemma_escaped_front(content, in_text());
    assert(tx.len() > 0);
    lemma_tag_at(data_dir, w, at, name, params);
    lemma_escaped_lacks(content, in_text(), '[');
    assert forall|j: int| pos <= j < at implies !occurs_at(w, marker(), j) by {
        lemma_occurs_at(w, marker(), j);
        assert(w.subrange(pos, pos + tx.len())[j - pos] == w[j]);
        assert(marker()[0] == '[');
        if occurs_at(w, marker(), j) {
            assert(w[j + 0int] == marker()[0]);
        }
    }
    lemma_find_first(w, marker(), pos, at);
    lemma_unescape_escape(content, false);
}

/// Reading at an escaped text that ends the wire text appends the text.
pub proof fn lemma_step_text_end(
    data_dir: Seq<char>,
    w: Seq<char>,
    pos: int,
    buf: Seq<MsgView>,
    content: Seq<char>,
)
    requires
        content.len() > 0,
        0 <= pos,
        pos + escaped(content, in_text()).len() == w.len(),
        w.subrange(pos, w.len() as int) == escaped(content, in_text()),
    ensures
        parse_wire(data_dir, w, pos, buf) == Ok::<Seq<MsgView>, Error>(
            MsgView::appended(buf, MsgView::Text(content)),
        ),
{
    let tx = escaped(content, in_text());
    lemma_escaped_front(content, in_text());
    assert(tx.len() > 0);
    lemma_escaped_lacks(content, in_text(), '[');
    assert forall|j: int| pos <= j implies !occurs_at(w, marker(), j) by {
        lemma_occurs_at(w, marker(), j);
        if occurs_at(w, marker(), j) {
            assert(w.subrange(pos, w.len() as int)[j - pos] == w[j]);
            assert(marker()[0] == '[');
            assert(w[j + 0int] == marker()[0]);
        }
    }
    lemma_find_nothing(w, marker(), pos);
    lemma_unescape_escape(content, false);
}

/// Leaves that can be written have a wire text, and that of the first `n`
/// leaves and of the leaf behind them is where the wire text of all begins.
pub proof fn lemma_wire_prefix(data_dir: Seq<char>, leaves: Seq<MsgView>, n: int)
    requires
        leaves_ok(data_dir, leaves),
        0 <= n <= leaves.len(),
    ensures
        wire_of(data_dir, leaves) is Some,
        wire_of(data_dir, leaves.take(n)) is Some,
        wire_of(data_dir, leaves.take(n))->Some_0.len() <= wire_of(data_dir, leaves)->Some_0.len(),
        n == leaves.len() ==> wire_of(data_dir, leaves.take(n)) == wire_of(data_dir, leaves),
        n < leaves.len() ==> {
            &&& leaf_wire(data_dir, leaves[n]) is Some
            &&& wire_of(data_dir, leaves.take(n + 1)) == Some(
                wire_of(data_dir, leaves.take(n))->Some_0 + leaf_wire(data_dir, leaves[n])->Some_0,
            )
            &&& wire_of(data_dir, leaves)->Some_0.subrange(
                wire_of(data_dir, leaves.take(n))->Some_0.len() as int,
                (wire_of(data_dir, leaves.take(n))->Some_0.len() + leaf_wire(
                    data_dir,
                    leaves[n],
                )->Some_0.len()) as int,
            ) == leaf_wire(data_dir, leaves[n])->Some_0
            &&& wire_of(data_dir, leaves.take(n))->Some_0.len() + leaf_wire(
                data_dir,
                leaves[n],
            )->Some_0.len() <= wire_of(data_dir, leaves)->Some_0.len()
        },
    decreases leaves.len(),
{
    if leaves.len() == 0 {
        assert(leaves.take(n) =~= leaves);
    } else {
        let front = leaves.drop_last();
        let last = leaves.last();
        assert(leaves_ok(data_dir, front)) by {
            assert forall|i: int| 0 <= i < front.len() implies leaf_ok(
                data_dir,
                #[trigger] front[i],
            ) by {
                assert(front[i] == leaves[i]);
            }
        }
        assert(leaf_ok(data_dir, leaves[leaves.len() - 1]));
        match last {
            MsgView::Ext { name, params } => {
                lemma_tag_round_trip(data_dir, name, params);
            },
            _ => {},
        }
        assert(leaf_wire(data_dir, last) is Some);
        let lw = leaf_wire(data_dir, last)->Some_0;
        if n == leaves.len() {
            lemma_wire_prefix(data_dir, front, front.len() as int);
            assert(leaves.take(n) =~= leaves);
        } else {
            lemma_wire_prefix(data_dir, front, n);
            assert(front.take(n) =~= leaves.take(n));
            let w = wire_of(data_dir, leaves)->Some_0;
            let fw = wire_of(data_dir, front)->Some_0;
            assert(w == fw + lw);
            let p = wire_of(data_dir, leaves.take(n))->Some_0.len() as int;
            if n == front.len() {
                assert(front.take(n) =~= front);
                assert(leaves.take(n + 1) =~= leaves);
                assert(w.subrange(p, p + lw.len()) =~= lw);
            } else {
                assert(front[n] == leaves[n]);
                assert(front.take(n + 1) =~= leaves.take(n + 1));
                let piece = leaf_wire(data_dir, leaves[n])->Some_0;
                assert(w.subrange(p, p + piece.len()) =~= fw.subrange(p, p + piece.len()));
            }
        }
    }
}

/// Reading the wire text of leaves from where the first `n` of them end,
/// with those as the parts so far, gives the leaves.
pub proof fn lemma_parse_from(data_dir: Seq<char>, leaves: Seq<MsgView>, n: int)
    requires
        MsgView::merged(leaves),
        leaves_ok(data_dir, leaves),
        0 <= n <= leaves.len(),
    ensures
        wire_of(data_dir, leaves) is Some,
        wire_of(data_dir, leaves.take(n)) is Some,
        parse_wire(
            data_dir,
            wire_of(data_dir, leaves)->Some_0,
            wire_of(data_dir, leaves.take(n))->Some_0.len() as int,
            leaves.take(n),
        ) == Ok::<Seq<MsgView>, Error>(leaves),
    decreases leaves.len() - n,
{
    lemma_wire_prefix(data_dir, leaves, n);
    let w = wire_of(data_dir, leaves)->Some_0;
    let pos = wire_of(data_dir, leaves.take(n))->Some_0.len() as int;
    let buf = leaves.take(n);
    if n == leaves.len() {
        assert(buf =~= leaves);
    } else {
        let leaf = leaves[n];
        assert(leaf_ok(data_dir, leaves[n]));
        assert(leaf.is_leaf());
        if n > 0 {
            assert(buf.last() == leaves[n - 1]);
            assert(!(leaves[n - 1] is Text && leaves[n - 1 + 1] is Text));
        }
        match leaf {
            MsgView::Ext { name, params } => {
                lemma_step_ext(data_dir, w, pos, buf, name, params);
                assert(MsgView::appended(buf, leaf) =~= leaves.take(n + 1));
                lemma_parse_from(data_dir, leaves, n + 1);
            },
            MsgView::Text(content) => {
                assert(!(leaves[n] matches MsgView::Text(c) && c.len() == 0));
                assert(MsgView::appended(buf, leaf) =~= leaves.take(n + 1));
                if n + 1 == leaves.len() {
                    lemma_wire_prefix(data_dir, leaves, n + 1);
                    assert(leaves.take(n + 1) =~= leaves);
                    let tx = escaped(content, in_text());
                    assert(w.subrange(pos, pos + tx.len()) =~= w.subrange(pos, w.len() as int));
                    lemma_step_text_end(data_dir, w, pos, buf, content);
                } else {
                    lemma_wire_prefix(data_dir, leaves, n + 1);
                    let next = leaves[n + 1];
                    assert(leaf_ok(data_dir, leaves[n + 1]));
                    assert(!(leaves[n] is Text && leaves[n + 1] is Text));
                    assert(next.is_leaf());
                    match next {
                        MsgView::Ext { name, params } => {
                            lemma_step_text_ext(data_dir, w, pos, buf, content, name, params);
                            assert(MsgView::appended(leaves.take(n + 1), next) =~= leaves.take(
                                n + 2,
                            ));
                            lemma_parse_from(data_dir, leaves, n + 2);
                        },
                        _ => {},
                    }
                }
            },
            MsgView::Compound(_) => {},
        }
    }
}

/// What the codec writes of a message, it reads back as the message: for
/// every message in minimal form whose names, keys and values are tight,
/// no key holding `=`, each `file` lying under the directory of its
/// extension. Its texts may hold anything.
pub proof fn lemma_decompose_compose(data_dir: Seq<char>, m: MsgView)
    requires
        expressible(data_dir, m),
    ensures
        composed(data_dir, m) is Ok,
        decomposed(data_dir, composed(data_dir, m)->Ok_0) == Ok::<MsgView, Error>(m),
{
    let leaves = m.leaves();
    match m {
        MsgView::Text(content) => {
            lemma_wire_single(data_dir, m);
            if content.len() == 0 {
                assert(content =~= Seq::<char>::empty());
                assert(escaped(content, in_text()) =~= Seq::<char>::empty());
            } else {
                assert(MsgView::merged(leaves));
                lemma_parse_from(data_dir, leaves, 0);
                assert(leaves.take(0) =~= Seq::<MsgView>::empty());
            }
        },
        MsgView::Ext { .. } => {
            assert(MsgView::merged(leaves));
            lemma_parse_from(data_dir, leaves, 0);
            assert(leaves.take(0) =~= Seq::<MsgView>::empty());
        },
        MsgView::Compound(parts) => {
            lemma_leaves_of_leaves(parts, parts.len());
            assert(parts.take(parts.len() as int) =~= parts);
            lemma_parse_from(data_dir, leaves, 0);
            assert(leaves.take(0) =~= Seq::<MsgView>::empty());
        },
    }
}

/// A wire text that the codec wrote of such a message is written again as
/// it is when it is read and written.
pub proof fn lemma_compose_decompose(data_dir: Seq<char>, m: MsgView, w: Seq<char>)
    requires
        expressible(data_dir, m),
        composed(data_dir, m) == Ok::<Seq<char>, Error>(w),
    ensures
        decomposed(data_dir, w) is Ok,
        composed(data_dir, decomposed(data_dir, w)->Ok_0) == Ok::<Seq<char>, Error>(w),
{
    lemma_decompose_compose(data_dir, m);
}

/// Undoing the escapes of a text that is not empty leaves a text that is
/// not empty.
pub proof fn lemma_unescaped_nonempty(s: Seq<char>, tag: bool)
    requires
        s.len() > 0,
    ensures
        unescaped(s, tag).len() > 0,
{
}

/// What is read from a wire text, after merged parts, are merged parts.
pub proof fn lemma_parse_wire_merged(
    data_dir: Seq<char>,
    w: Seq<char>,
    pos: int,
    buf: Seq<MsgView>,
)
    requires
        MsgView::merged(buf),
    ensures
        parse_wire(data_dir, w, pos, buf) matches Ok(parts) ==> MsgView::merged(parts),
    decreases w.len() - pos,
{
    if 0 <= pos < w.len() {
        lemma_find_from(w, marker(), pos);
        match find_from(w, marker(), pos) {
            None => {
                let rest = w.subrange(pos, w.len() as int);
                lemma_unescaped_nonempty(rest, false);
                lemma_builder_normal(buf, MsgView::Text(unescaped(rest, false)));
            },
            Some(at) => {
                let before = if at > pos {
                    MsgView::appended(buf, MsgView::Text(unescaped(w.subrange(pos, at), false)))
                } else {
                    buf
                };
                if at > pos {
                    lemma_unescaped_nonempty(w.subrange(pos, at), false);
                    lemma_builder_normal(
                        buf,
                        MsgView::Text(unescaped(w.subrange(pos, at), false)),
                    );
                }
                let open = at + 4;
                lemma_index_of(w.skip(open), ']');
                let close = open + index_of(w.skip(open), ']');
                if close < w.len() {
                    match tag_of(data_dir, w.subrange(open, close)) {
                        Ok(ext) => {
                            lemma_builder_normal(before, ext);
                            lemma_parse_wire_merged(
                                data_dir,
                                w,
                                close + 1,
                                MsgView::appended(before, ext),
                            );
                        },
                        Err(_) => {},
                    }
                }
            },
        }
    }
}

/// Every message that is read from a wire text is in minimal form.
pub proof fn lemma_decomposed_normal(data_dir: Seq<char>, w: Seq<char>)
    ensures
        decomposed(data_dir, w) matches Ok(m) ==> m.normal(),
{
    let none = Seq::<MsgView>::empty();
    lemma_parse_wire_merged(data_dir, w, 0, none);
    if let Ok(parts) = parse_wire(data_dir, w, 0, none) {
        if parts.len() == 1 {
            assert(parts[0].is_leaf());
        }
    }
}


/// A text is written with its escapes, whatever it holds, and a wire text
/// without the marker of a tag is read as one text.
pub proof fn lemma_plain_text(data_dir: Seq<char>, s: Seq<char>)
    ensures
        composed(data_dir, MsgView::Text(s)) == Ok::<Seq<char>, Error>(escaped(s, in_text())),
        find_from(s, marker(), 0) is None ==> decomposed(data_dir, s) == Ok::<MsgView, Error>(
            MsgView::Text(unescaped(s, false)),
        ),
{
    lemma_wire_single(data_dir, MsgView::Text(s));
    if find_from(s, marker(), 0) is None {
        if s.len() == 0 {
            assert(unescaped(s, false) =~= Seq::<char>::empty());
        } else {
            assert(s.subrange(0, s.len() as int) =~= s);
            let one = MsgView::appended(Seq::empty(), MsgView::Text(unescaped(s, false)));
            assert(one.len() == 1);
        }
    }
}

} // verus!
