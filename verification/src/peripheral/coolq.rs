//! The bracketed-tag wire format: text with `&`, `[` and `]` escaped, and an
//! extension as `[CQ:name,key=value,...]`.
use crate::composer::Composer;
use crate::error::{Error, FormatError};
use crate::msg::{
    lemma_compound_view, msg_views, with_entry, Entries, ExtBuilder, Msg, MsgBuilder, MsgView,
};
use crate::text::{
    find, find_from, index_of, index_of_from, lemma_find_from, lemma_index_of, occurs_at,
    occurs_at_index, push_char, push_chars, same_chars, same_text, slice, split, split_at_each,
    string_of, to_chars, trim, trimmed, views,
};
use vstd::prelude::*;

verus! {

/// Which characters an escaping replaces.
pub struct EscapeSet {
    pub amp: bool,
    pub open: bool,
    pub close: bool,
    pub comma: bool,
}

/// The characters escaped in free text: `&`, `[` and `]`.
pub open spec fn in_text() -> EscapeSet {
    EscapeSet { amp: true, open: true, close: true, comma: false }
}

/// The characters escaped inside a tag: those of free text and `,`.
pub open spec fn in_tag() -> EscapeSet {
    EscapeSet { amp: true, open: true, close: true, comma: true }
}

/// `&amp;`, which stands for `&`.
pub open spec fn amp_code() -> Seq<char> {
    seq!['&', 'a', 'm', 'p', ';']
}

/// `&#91;`, which stands for `[`.
pub open spec fn open_code() -> Seq<char> {
    seq!['&', '#', '9', '1', ';']
}

/// `&#93;`, which stands for `]`.
pub open spec fn close_code() -> Seq<char> {
    seq!['&', '#', '9', '3', ';']
}

/// `&#44;`, which stands for `,`.
pub open spec fn comma_code() -> Seq<char> {
    seq!['&', '#', '4', '4', ';']
}

/// `[CQ:`, with which a tag begins.
pub open spec fn marker() -> Seq<char> {
    seq!['[', 'C', 'Q', ':']
}

/// `file`, the key of the parameter that holds a path.
pub open spec fn file_key() -> Seq<char> {
    seq!['f', 'i', 'l', 'e']
}

/// A character as the escaping writes it.
pub open spec fn escape_char(c: char, set: EscapeSet) -> Seq<char> {
    if c == '&' && set.amp {
        amp_code()
    } else if c == '[' && set.open {
        open_code()
    } else if c == ']' && set.close {
        close_code()
    } else if c == ',' && set.comma {
        comma_code()
    } else {
        seq![c]
    }
}

/// A text as the escaping writes it.
pub open spec fn escaped(s: Seq<char>, set: EscapeSet) -> Seq<char>
    decreases s.len(),
{
    if s.len() == 0 {
        Seq::empty()
    } else {
        escaped(s.drop_last(), set) + escape_char(s.last(), set)
    }
}

/// The character whose code stands at the start of `s`, where one of the
/// codes that are read stands there: `&amp;`, `&#91;`, `&#93;` and, inside a
/// tag, `&#44;`.
pub open spec fn code_at(s: Seq<char>, tag: bool) -> Option<char> {
    if occurs_at(s, amp_code(), 0) {
        Some('&')
    } else if occurs_at(s, open_code(), 0) {
        Some('[')
    } else if occurs_at(s, close_code(), 0) {
        Some(']')
    } else if tag && occurs_at(s, comma_code(), 0) {
        Some(',')
    } else {
        None
    }
}

/// A wire text with its escapes undone, in one pass from left to right:
/// where a code stands, its character is given and the reading goes on
/// behind the code; any other character is given as it is.
pub open spec fn unescaped(s: Seq<char>, tag: bool) -> Seq<char>
    decreases s.len(),
{
    if s.len() == 0 {
        Seq::empty()
    } else {
        match code_at(s, tag) {
            Some(c) => seq![c] + unescaped(s.skip(5), tag),
            None => seq![s[0]] + unescaped(s.skip(1), tag),
        }
    }
}

/// `rel` below `base`: the two joined by `/`, unless `base` is empty or ends
/// in `/` already; a `rel` that begins with `/` stands alone.
pub open spec fn joined(base: Seq<char>, rel: Seq<char>) -> Seq<char> {
    if rel.len() > 0 && rel[0] == '/' {
        rel
    } else if base.len() == 0 || base.last() == '/' {
        base + rel
    } else {
        base + seq!['/'] + rel
    }
}

/// A directory as the beginning of the paths below it: with `/` at its end.
pub open spec fn as_prefix(dir: Seq<char>) -> Seq<char> {
    if dir.len() == 0 || dir.last() == '/' {
        dir
    } else {
        dir.push('/')
    }
}

/// What `path` is relative to `dir`, where it begins with `dir` and `/`.
pub open spec fn relative_to(path: Seq<char>, dir: Seq<char>) -> Option<Seq<char>> {
    if as_prefix(dir).is_prefix_of(path) {
        Some(path.skip(as_prefix(dir).len() as int))
    } else {
        None
    }
}

/// The value of a parameter as it goes on the wire: a `file` relative to
/// the directory of its extension, any other as it is.
pub open spec fn wire_value(
    data_dir: Seq<char>,
    name: Seq<char>,
    key: Seq<char>,
    value: Seq<char>,
) -> Option<Seq<char>> {
    if key == file_key() {
        relative_to(value, joined(data_dir, name))
    } else {
        Some(value)
    }
}

/// The first `n` parameters as they stand in a tag, each as `,key=value`.
pub open spec fn params_wire(data_dir: Seq<char>, name: Seq<char>, params: Entries, n: nat) -> Option<
    Seq<char>,
>
    decreases n,
{
    if n == 0 || n > params.len() {
        Some(Seq::empty())
    } else {
        let (key, value) = params[n - 1];
        match (
            params_wire(data_dir, name, params, (n - 1) as nat),
            wire_value(data_dir, name, key, value),
        ) {
            (Some(before), Some(v)) => Some(
                before + seq![','] + escaped(key, in_tag()) + seq!['='] + escaped(v, in_tag()),
            ),
            _ => None,
        }
    }
}

/// A text or an extension on the wire.
pub open spec fn leaf_wire(data_dir: Seq<char>, leaf: MsgView) -> Option<Seq<char>> {
    match leaf {
        MsgView::Text(content) => Some(escaped(content, in_text())),
        MsgView::Ext { name, params } => match params_wire(data_dir, name, params, params.len()) {
            Some(p) => Some(marker() + escaped(name, in_tag()) + p + seq![']']),
            None => None,
        },
        MsgView::Compound(_) => Some(Seq::empty()),
    }
}

/// Leaves on the wire, one after the other; none where a `file` of one of
/// them does not lie under its directory.
pub open spec fn wire_of(data_dir: Seq<char>, leaves: Seq<MsgView>) -> Option<Seq<char>>
    decreases leaves.len(),
{
    if leaves.len() == 0 {
        Some(Seq::empty())
    } else {
        match (wire_of(data_dir, leaves.drop_last()), leaf_wire(data_dir, leaves.last())) {
            (Some(before), Some(last)) => Some(before + last),
            _ => None,
        }
    }
}

/// A message on the wire.
pub open spec fn composed(data_dir: Seq<char>, m: MsgView) -> Result<Seq<char>, Error> {
    match wire_of(data_dir, m.leaves()) {
        Some(w) => Ok(w),
        None => Err(Error::Path),
    }
}

/// Leaves that follow one another on the wire.
pub proof fn lemma_wire_concat(data_dir: Seq<char>, a: Seq<MsgView>, b: Seq<MsgView>)
    ensures
        wire_of(data_dir, a + b) == match (wire_of(data_dir, a), wire_of(data_dir, b)) {
            (Some(x), Some(y)) => Some(x + y),
            _ => None,
        },
    decreases b.len(),
{
    if b.len() == 0 {
        assert(a + b =~= a);
        if let Some(x) = wire_of(data_dir, a) {
            assert(x + Seq::<char>::empty() =~= x);
        }
    } else {
        lemma_wire_concat(data_dir, a, b.drop_last());
        assert((a + b).drop_last() =~= a + b.drop_last());
        assert((a + b).last() == b.last());
        match (wire_of(data_dir, a), wire_of(data_dir, b.drop_last()), leaf_wire(data_dir, b.last())) {
            (Some(x), Some(y), Some(z)) => {
                assert((x + y) + z =~= x + (y + z));
            },
            _ => {},
        }
    }
}

/// The wire text of a single leaf.
pub proof fn lemma_wire_single(data_dir: Seq<char>, leaf: MsgView)
    ensures
        wire_of(data_dir, seq![leaf]) == leaf_wire(data_dir, leaf),
{
    let l = seq![leaf];
    assert(l.drop_last() =~= Seq::<MsgView>::empty());
    assert(wire_of(data_dir, l.drop_last()) == Some(Seq::<char>::empty()));
    if let Some(x) = leaf_wire(data_dir, leaf) {
        assert(Seq::<char>::empty() + x =~= x);
    }
}

fn escape_into(chars: &Vec<char>, tag: bool, out: &mut String)
    ensures
        final(out)@ == old(out)@ + escaped(
            chars@,
            if tag {
                in_tag()
            } else {
                in_text()
            },
        ),
{
    let ghost set = if tag {
        in_tag()
    } else {
        in_text()
    };
    let mut i: usize = 0;
    assert(chars@.take(0) =~= Seq::<char>::empty());
    while i < chars.len()
        invariant
            i <= chars.len(),
            set == if tag {
                in_tag()
            } else {
                in_text()
            },
            out@ == old(out)@ + escaped(chars@.take(i as int), set),
        decreases chars.len() - i,
    {
        let c = chars[i];
        let ghost before = out@;
        assert(chars@.take(i + 1).drop_last() =~= chars@.take(i as int));
        if c == '&' {
            push_char(out, '&');
            push_char(out, 'a');
            push_char(out, 'm');
            push_char(out, 'p');
            push_char(out, ';');
        } else if c == '[' {
            push_char(out, '&');
            push_char(out, '#');
            push_char(out, '9');
            push_char(out, '1');
            push_char(out, ';');
        } else if c == ']' {
            push_char(out, '&');
            push_char(out, '#');
            push_char(out, '9');
            push_char(out, '3');
            push_char(out, ';');
        } else if tag && c == ',' {
            push_char(out, '&');
            push_char(out, '#');
            push_char(out, '4');
            push_char(out, '4');
            push_char(out, ';');
        } else {
            push_char(out, c);
        }
        assert(out@ =~= before + escape_char(c, set));
        assert(out@ =~= old(out)@ + escaped(chars@.take(i + 1), set));
        i += 1;
    }
    assert(chars@.take(i as int) =~= chars@);
}

/// Appends `string` to `out` as free text goes on the wire.
pub fn extend_esc(string: &str, out: &mut String)
    ensures
        final(out)@ == old(out)@ + escaped(string@, in_text()),
{
    let chars = to_chars(string);
    escape_into(&chars, false, out);
}

/// Appends `string` to `out` as a name, a key or a value goes into a tag.
pub fn extend_esc_cq(string: &str, out: &mut String)
    ensures
        final(out)@ == old(out)@ + escaped(string@, in_tag()),
{
    let chars = to_chars(string);
    escape_into(&chars, true, out);
}

fn unescape(v: &Vec<char>, tag: bool) -> (r: Vec<char>)
    ensures
        r@ == unescaped(v@, tag),
{
    let amp = vec!['&', 'a', 'm', 'p', ';'];
    let open = vec!['&', '#', '9', '1', ';'];
    let close = vec!['&', '#', '9', '3', ';'];
    let comma = vec!['&', '#', '4', '4', ';'];
    assert(amp@ =~= amp_code() && open@ =~= open_code() && close@ =~= close_code() && comma@
        =~= comma_code());
    let mut out: Vec<char> = Vec::new();
    let mut i: usize = 0;
    assert(v@.skip(0) =~= v@);
    assert(out@ + unescaped(v@, tag) =~= unescaped(v@, tag));
    while i < v.len()
        invariant
            i <= v.len(),
            amp@ == amp_code(),
            open@ == open_code(),
            close@ == close_code(),
            comma@ == comma_code(),
            unescaped(v@, tag) == out@ + unescaped(v@.skip(i as int), tag),
        decreases v.len() - i,
    {
        let ghost rest = v@.skip(i as int);
        let ghost before = out@;
        let fits = v.len() - i >= 5;
        assert(fits ==> rest.subrange(0, 5) =~= v@.subrange(i as int, i + 5));
        let c = if fits && occurs_at_index(v, &amp, i) {
            Some('&')
        } else if fits && occurs_at_index(v, &open, i) {
            Some('[')
        } else if fits && occurs_at_index(v, &close, i) {
            Some(']')
        } else if tag && fits && occurs_at_index(v, &comma, i) {
            Some(',')
        } else {
            None
        };
        assert(c == code_at(rest, tag));
        match c {
            Some(c) => {
                out.push(c);
                assert(rest.skip(5) =~= v@.skip(i + 5));
                i += 5;
                assert(before + (seq![c] + unescaped(v@.skip(i as int), tag)) =~= out@ + unescaped(
                    v@.skip(i as int),
                    tag,
                ));
            },
            None => {
                out.push(v[i]);
                assert(rest.skip(1) =~= v@.skip(i + 1));
                i += 1;
                assert(before + (seq![rest[0]] + unescaped(v@.skip(i as int), tag)) =~= out@
                    + unescaped(v@.skip(i as int), tag));
            },
        }
    }
    assert(v@.skip(v.len() as int) =~= Seq::<char>::empty());
    assert(out@ + Seq::<char>::empty() =~= out@);
    out
}

/// Free text from the wire with its escapes undone.
pub fn inverse(text: &str) -> (r: String)
    ensures
        r@ == unescaped(text@, false),
{
    let chars = to_chars(text);
    let plain = unescape(&chars, false);
    string_of(&plain)
}

/// A name, a key or a value from a tag with its escapes undone.
pub fn inverse_cq(text: &str) -> (r: String)
    ensures
        r@ == unescaped(text@, true),
{
    let chars = to_chars(text);
    let plain = unescape(&chars, true);
    string_of(&plain)
}

/// `rel` below `base`.
pub fn join_path(base: &str, rel: &str) -> (r: String)
    ensures
        r@ == joined(base@, rel@),
{
    let b = to_chars(base);
    let p = to_chars(rel);
    let mut r = String::new();
    if p.len() > 0 && p[0] == '/' {
        push_chars(&mut r, &p);
        assert(r@ =~= rel@);
    } else if b.len() == 0 || b[b.len() - 1] == '/' {
        push_chars(&mut r, &b);
        push_chars(&mut r, &p);
        assert(r@ =~= base@ + rel@);
    } else {
        push_chars(&mut r, &b);
        push_char(&mut r, '/');
        push_chars(&mut r, &p);
        assert(r@ =~= base@ + seq!['/'] + rel@);
    }
    r
}

/// What `path` is relative to `dir`, where it lies under it.
pub fn strip_dir(path: &str, dir: &str) -> (r: Option<String>)
    ensures
        match relative_to(path@, dir@) {
            Some(rel) => r matches Some(got) && got@ == rel,
            None => r is None,
        },
{
    let p = to_chars(path);
    let mut d = to_chars(dir);
    if d.len() > 0 && d[d.len() - 1] != '/' {
        d.push('/');
    }
    assert(d@ =~= as_prefix(dir@));
    if d.len() <= p.len() && occurs_at_index(&p, &d, 0) {
        let rest = slice(&p, d.len(), p.len());
        assert(rest@ =~= p@.skip(d.len() as int));
        Some(string_of(&rest))
    } else {
        None
    }
}


/// The parameters that the fields after the name give, up to field `n`.
/// Each field is a key and a value around its first `=`, both trimmed and
/// unescaped; a `file` is stored below the directory of the extension; a key
/// that came before keeps its value.
pub open spec fn fields_params(
    data_dir: Seq<char>,
    name: Seq<char>,
    fields: Seq<Seq<char>>,
    n: nat,
) -> Result<Entries, Error>
    decreases n,
{
    if n <= 1 || n > fields.len() {
        Ok(Seq::empty())
    } else {
        match fields_params(data_dir, name, fields, (n - 1) as nat) {
            Err(e) => Err(e),
            Ok(params) => {
                let field = fields[n - 1];
                let eq = index_of(field, '=');
                if eq >= field.len() {
                    Err(Error::Format(FormatError::MissingValue))
                } else {
                    let key = unescaped(trim(field.take(eq)), true);
                    let value = unescaped(trim(field.skip(eq + 1)), true);
                    let stored = if key == file_key() {
                        joined(joined(data_dir, name), value)
                    } else {
                        value
                    };
                    Ok(with_entry(params, key, stored))
                }
            },
        }
    }
}

/// The extension that the body of a tag stands for: fields between commas,
/// the first of them the name, trimmed and unescaped.
pub open spec fn tag_of(data_dir: Seq<char>, body: Seq<char>) -> Result<MsgView, Error> {
    let fields = split(body, ',');
    let name = unescaped(trim(fields[0]), true);
    match fields_params(data_dir, name, fields, fields.len()) {
        Ok(params) => Ok(MsgView::Ext { name, params }),
        Err(e) => Err(e),
    }
}

/// The parts that the wire text gives from `pos` on, after the parts `buf`.
/// What stands before the next `[CQ:` is a text, unescaped; what stands
/// between `[CQ:` and the next `]` is the body of a tag; each part is
/// appended as a builder appends it.
pub open spec fn parse_wire(data_dir: Seq<char>, w: Seq<char>, pos: int, buf: Seq<MsgView>) -> Result<
    Seq<MsgView>,
    Error,
>
    decreases w.len() - pos,
{
    if pos < 0 || pos >= w.len() {
        Ok(buf)
    } else {
        match find_from(w, marker(), pos) {
            None => Ok(
                MsgView::appended(
                    buf,
                    MsgView::Text(unescaped(w.subrange(pos, w.len() as int), false)),
                ),
            ),
            Some(at) => {
                let before = if at > pos {
                    MsgView::appended(buf, MsgView::Text(unescaped(w.subrange(pos, at), false)))
                } else {
                    buf
                };
                let open = at + 4;
                let close = open + index_of(w.skip(open), ']');
                proof {
                    lemma_find_from(w, marker(), pos);
                    lemma_index_of(w.skip(open), ']');
                }
                if close >= w.len() {
                    Err(Error::Format(FormatError::UnclosedTag))
                } else {
                    match tag_of(data_dir, w.subrange(open, close)) {
                        Err(e) => Err(e),
                        Ok(ext) => parse_wire(
                            data_dir,
                            w,
                            close + 1,
                            MsgView::appended(before, ext),
                        ),
                    }
                }
            },
        }
    }
}

/// The message that a wire text stands for.
pub open spec fn decomposed(data_dir: Seq<char>, w: Seq<char>) -> Result<MsgView, Error> {
    match parse_wire(data_dir, w, 0, Seq::empty()) {
        Ok(parts) => Ok(MsgView::built(parts)),
        Err(e) => Err(e),
    }
}

/// Once a parameter has no wire value, no longer list of them has a wire
/// text.
pub proof fn lemma_params_wire_none(
    data_dir: Seq<char>,
    name: Seq<char>,
    params: Entries,
    n: nat,
    m: nat,
)
    requires
        n <= m <= params.len(),
        params_wire(data_dir, name, params, n) is None,
    ensures
        params_wire(data_dir, name, params, m) is None,
    decreases m,
{
    if n < m {
        lemma_params_wire_none(data_dir, name, params, n, (m - 1) as nat);
    }
}

/// Once the leaves of some parts have no wire text, those of more parts
/// have none.
pub proof fn lemma_wire_none(data_dir: Seq<char>, parts: Seq<MsgView>, n: nat, m: nat)
    requires
        n <= m <= parts.len(),
        wire_of(data_dir, MsgView::leaves_of(parts, n)) is None,
    ensures
        wire_of(data_dir, MsgView::leaves_of(parts, m)) is None,
    decreases m,
{
    if n < m {
        lemma_wire_none(data_dir, parts, n, (m - 1) as nat);
        lemma_wire_concat(
            data_dir,
            MsgView::leaves_of(parts, (m - 1) as nat),
            parts[m - 1].leaves(),
        );
    }
}

/// Once a field has no value, the fields give no parameters.
pub proof fn lemma_fields_params_err(
    data_dir: Seq<char>,
    name: Seq<char>,
    fields: Seq<Seq<char>>,
    n: nat,
    m: nat,
)
    requires
        n <= m <= fields.len(),
        fields_params(data_dir, name, fields, n) is Err,
    ensures
        fields_params(data_dir, name, fields, m) == fields_params(data_dir, name, fields, n),
    decreases m,
{
    if n < m {
        lemma_fields_params_err(data_dir, name, fields, n, (m - 1) as nat);
    }
}

/// The codec of the bracketed-tag format. The paths of `file` parameters
/// are written relative to the directory of their extension below the
/// data directory.
pub struct CoolQComposer {
    data_dir: String,
}

impl CoolQComposer {
    /// The data directory.
    pub closed spec fn data_dir(&self) -> Seq<char> {
        self.data_dir@
    }

    /// `data`, the name of the data directory below the base directory.
    pub open spec fn data_name() -> Seq<char> {
        seq!['d', 'a', 't', 'a']
    }

    /// The codec for the client whose base directory is `base`.
    pub fn new(base: &str) -> (c: CoolQComposer)
        ensures
            c.data_dir() == joined(base@, Self::data_name()),
    {
        proof {
            reveal_strlit("data");
            assert("data"@ =~= Self::data_name());
        }
        CoolQComposer { data_dir: join_path(base, "data") }
    }

    fn compose_impl(&self, msg: &Msg, out: &mut String) -> (r: Result<(), Error>)
        ensures
            match wire_of(self.data_dir(), msg@.leaves()) {
                Some(w) => r is Ok && final(out)@ == old(out)@ + w,
                None => r == Err::<(), Error>(Error::Path) && old(out)@.is_prefix_of(
                    final(out)@,
                ),
            },
        decreases msg,
    {
        let ghost dd = self.data_dir();
        match msg {
            Msg::Text(content) => {
                extend_esc(content.as_str(), out);
                proof {
                    lemma_wire_single(dd, msg@);
                }
            },
            Msg::Ext { name, params } => {
                proof {
                    lemma_wire_single(dd, msg@);
                }
                let tag = vec!['[', 'C', 'Q', ':'];
                assert(tag@ =~= marker());
                push_chars(out, &tag);
                extend_esc_cq(name.as_str(), out);
                let ghost head = old(out)@ + marker() + escaped(name@, in_tag());
                let mut i: usize = 0;
                assert(head + Seq::<char>::empty() =~= head);
                let n = params.len();
                while i < n
                    invariant
                        i <= n,
                        n == params@.len(),
                        dd == self.data_dir(),
                        head == old(out)@ + marker() + escaped(name@, in_tag()),
                        msg@ == (MsgView::Ext { name: name@, params: params@ }),
                        wire_of(dd, msg@.leaves()) == leaf_wire(dd, msg@),
                        params_wire(dd, name@, params@, i as nat) is Some,
                        out@ == head + params_wire(dd, name@, params@, i as nat)->Some_0,
                    decreases n - i,
                {
                    let key = params.key(i);
                    let value = params.value(i);
                    let ghost sofar = params_wire(dd, name@, params@, i as nat)->Some_0;
                    push_char(out, ',');
                    extend_esc_cq(key.as_str(), out);
                    push_char(out, '=');
                    proof {
                        reveal_strlit("file");
                        assert("file"@ =~= file_key());
                    }
                    if same_text(key.as_str(), "file") {
                        let dir = join_path(self.data_dir.as_str(), name.as_str());
                        match strip_dir(value.as_str(), dir.as_str()) {
                            Some(rel) => {
                                extend_esc_cq(rel.as_str(), out);
                            },
                            None => {
                                proof {
                                    lemma_params_wire_none(
                                        dd,
                                        name@,
                                        params@,
                                        (i + 1) as nat,
                                        params@.len(),
                                    );
                                }
                                return Err(Error::Path);
                            },
                        }
                    } else {
                        extend_esc_cq(value.as_str(), out);
                    }
                    proof {
                        let v = wire_value(dd, name@, key@, value@)->Some_0;
                        assert(out@ =~= head + (sofar + seq![','] + escaped(key@, in_tag())
                            + seq!['='] + escaped(v, in_tag())));
                    }
                    i += 1;
                }
                push_char(out, ']');
                proof {
                    let p = params_wire(dd, name@, params@, params@.len())->Some_0;
                    assert(out@ =~= old(out)@ + (marker() + escaped(name@, in_tag()) + p + seq![']']));
                }
            },
            Msg::Compound(parts) => {
                proof {
                    lemma_compound_view(*parts);
                }
                let ghost views = msg_views(parts@);
                let mut i: usize = 0;
                assert(old(out)@ + Seq::<char>::empty() =~= old(out)@);
                while i < parts.len()
                    invariant
                        i <= parts.len(),
                        dd == self.data_dir(),
                        msg is Compound,
                        msg->Compound_0 == *parts,
                        views == msg_views(parts@),
                        msg@ == MsgView::Compound(views),
                        wire_of(dd, MsgView::leaves_of(views, i as nat)) is Some,
                        out@ == old(out)@ + wire_of(dd, MsgView::leaves_of(views, i as nat))->Some_0,
                    decreases parts.len() - i,
                {
                    let ghost done = MsgView::leaves_of(views, i as nat);
                    let r = self.compose_impl(&parts[i], out);
                    proof {
                        lemma_wire_concat(dd, done, views[i as int].leaves());
                    }
                    match r {
                        Ok(_) => {
                            proof {
                                let x = wire_of(dd, done)->Some_0;
                                let y = wire_of(dd, views[i as int].leaves())->Some_0;
                                assert(out@ =~= old(out)@ + (x + y));
                            }
                        },
                        Err(_) => {
                            proof {
                                lemma_wire_none(dd, views, (i + 1) as nat, views.len());
                            }
                            return Err(Error::Path);
                        },
                    }
                    i += 1;
                }
            },
        }
        Ok(())
    }

    fn parse_cq(&self, body: &Vec<char>) -> (r: Result<Msg, Error>)
        ensures
            match tag_of(self.data_dir(), body@) {
                Ok(m) => r matches Ok(got) && got@ == m,
                Err(e) => r matches Err(got) && got == e,
            },
    {
        let ghost dd = self.data_dir();
        let fields = split_at_each(body, ',');
        let ghost fs = views(fields@);
        assert(fs.len() >= 1);
        assert(fs[0] == fields@[0]@);
        let name = string_of(&unescape(&trimmed(&fields[0]), true));
        let mut builder = ExtBuilder::new(name.as_str());
        let file = vec!['f', 'i', 'l', 'e'];
        assert(file@ =~= file_key());
        let mut i: usize = 1;
        while i < fields.len()
            invariant
                1 <= i <= fields.len(),
                dd == self.data_dir(),
                fs == views(fields@),
                fs == split(body@, ','),
                file@ == file_key(),
                name@ == unescaped(trim(fs[0]), true),
                fields_params(dd, name@, fs, i as nat) is Ok,
                builder@ == (MsgView::Ext {
                    name: name@,
                    params: fields_params(dd, name@, fs, i as nat)->Ok_0,
                }),
            decreases fields.len() - i,
        {
            let field = &fields[i];
            assert(fs[i as int] == field@);
            let eq = index_of_from(field, '=', 0);
            assert(field@.skip(0) =~= field@);
            if eq >= field.len() {
                proof {
                    lemma_fields_params_err(dd, name@, fs, (i + 1) as nat, fs.len());
                }
                return Err(Error::Format(FormatError::MissingValue));
            }
            let key = unescape(&trimmed(&slice(field, 0, eq)), true);
            let value = unescape(&trimmed(&slice(field, eq + 1, field.len())), true);
            assert(field@.subrange(0, eq as int) =~= field@.take(eq as int));
            assert(field@.subrange(eq + 1, field.len() as int) =~= field@.skip(eq + 1));
            let key_text = string_of(&key);
            let value_text = string_of(&value);
            if same_chars(&key, &file) {
                let dir = join_path(self.data_dir.as_str(), name.as_str());
                let path = join_path(dir.as_str(), value_text.as_str());
                builder.add_param(key_text.as_str(), path.as_str());
            } else {
                builder.add_param(key_text.as_str(), value_text.as_str());
            }
            i += 1;
        }
        Ok(builder.build())
    }
}

impl Composer for CoolQComposer {
    open spec fn label(&self) -> Seq<char> {
        "composer.coolq"@
    }

    open spec fn composed(&self, msg: MsgView) -> Result<Seq<char>, Error> {
        composed(self.data_dir(), msg)
    }

    open spec fn decomposed(&self, raw: Seq<char>) -> Result<MsgView, Error> {
        decomposed(self.data_dir(), raw)
    }

    fn name(&self) -> (r: &'static str) {
        "composer.coolq"
    }

    fn compose(&self, msg: &Msg) -> (r: Result<String, Error>) {
        let mut out = String::new();
        match self.compose_impl(msg, &mut out) {
            Ok(_) => {
                assert(out@ =~= wire_of(self.data_dir(), msg@.leaves())->Some_0);
                Ok(out)
            },
            Err(e) => Err(e),
        }
    }

    fn decompose(&self, raw: &str) -> (r: Result<Msg, Error>) {
        let ghost dd = self.data_dir();
        let w = to_chars(raw);
        let tag = vec!['[', 'C', 'Q', ':'];
        assert(tag@ =~= marker());
        let mut beg: usize = 0;
        let mut rv = MsgBuilder::new();
        while beg < w.len()
            invariant
                beg <= w.len(),
                dd == self.data_dir(),
                w@ == raw@,
                tag@ == marker(),
                parse_wire(dd, w@, 0, Seq::empty()) == parse_wire(dd, w@, beg as int, rv@),
            decreases w.len() - beg,
        {
            proof {
                lemma_find_from(w@, marker(), beg as int);
            }
            match find(&w, &tag, beg) {
                None => {
                    let rest = inverse(string_of(&slice(&w, beg, w.len())).as_str());
                    rv.add_msg(Msg::Text(rest));
                    return Ok(rv.build());
                },
                Some(at) => {
                    if at > beg {
                        let before = inverse(string_of(&slice(&w, beg, at)).as_str());
                        rv.add_msg(Msg::Text(before));
                    }
                    let open = at + 4;
                    let close = index_of_from(&w, ']', open);
                    proof {
                        lemma_index_of(w@.skip(open as int), ']');
                    }
                    if close >= w.len() {
                        return Err(Error::Format(FormatError::UnclosedTag));
                    }
                    let body = slice(&w, open, close);
                    match self.parse_cq(&body) {
                        Err(e) => {
                            return Err(e);
                        },
                        Ok(ext) => {
                            rv.add_msg(ext);
                        },
                    }
                    beg = close + 1;
                },
            }
        }
        Ok(rv.build())
    }
}

} // verus!
