//! The template codec: a message taken apart into a template with numbered
//! placeholders and the extensions that fill them, and put together again.
use crate::error::{Error, FormatError};
use crate::msg::{empty, lemma_compound_view, msg_views, Msg, MsgView};
use crate::text::{
    all_digits, char_digit_value, char_is_digit, decimal_digits, decimal_value, is_digit,
    push_char, push_decimal, to_chars,
};
use vstd::prelude::*;

verus! {

/// One unit of a template: a character of text, or a reference to a segment.
pub enum Token {
    Lit(char),
    Ref(nat),
}

/// The first index at or after `pos` at which `t` holds no digit.
pub open spec fn digits_end(t: Seq<char>, pos: int) -> int
    decreases t.len() - pos,
{
    if 0 <= pos < t.len() && is_digit(t[pos]) {
        digits_end(t, pos + 1)
    } else {
        pos
    }
}

/// `digits_end` passes over digits only and stops at the first other
/// character or at the end.
pub proof fn lemma_digits_end(t: Seq<char>, pos: int)
    requires
        0 <= pos <= t.len(),
    ensures
        pos <= digits_end(t, pos) <= t.len(),
        all_digits(t.subrange(pos, digits_end(t, pos))),
        digits_end(t, pos) < t.len() ==> !is_digit(t[digits_end(t, pos)]),
    decreases t.len() - pos,
{
    if pos < t.len() && is_digit(t[pos]) {
        lemma_digits_end(t, pos + 1);
        let e = digits_end(t, pos);
        assert forall|i: int| 0 <= i < e - pos implies is_digit(
            #[trigger] t.subrange(pos, e)[i],
        ) by {
            if i > 0 {
                assert(t.subrange(pos, e)[i] == t.subrange(pos + 1, e)[i - 1]);
            }
        }
    }
}

/// The token that begins at `pos` and the index after it. `{{` and `}}`
/// stand for a brace; `{`, digits and `}` refer to the segment of that
/// number, which is 0 where there are no digits; any other character stands
/// for itself.
pub open spec fn token_at(t: Seq<char>, pos: int) -> Result<(Token, int), FormatError> {
    if t[pos] == '{' {
        if pos + 1 < t.len() && t[pos + 1] == '{' {
            Ok((Token::Lit('{'), pos + 2))
        } else {
            let end = digits_end(t, pos + 1);
            if end >= t.len() {
                Err(FormatError::UnclosedBrace)
            } else if t[end] == '}' {
                Ok((Token::Ref(decimal_value(t.subrange(pos + 1, end))), end + 1))
            } else {
                Err(FormatError::NonDigitIndex)
            }
        }
    } else if t[pos] == '}' {
        if pos + 1 < t.len() && t[pos + 1] == '}' {
            Ok((Token::Lit('}'), pos + 2))
        } else {
            Err(FormatError::DanglingEscape)
        }
    } else {
        Ok((Token::Lit(t[pos]), pos + 1))
    }
}

/// A token ends after it begins.
pub proof fn lemma_token_at(t: Seq<char>, pos: int)
    requires
        0 <= pos < t.len(),
    ensures
        token_at(t, pos) matches Ok((_, next)) ==> pos < next <= t.len(),
{
    lemma_digits_end(t, pos + 1);
}

/// The parts with the pending text, if there is any, as one more part.
pub open spec fn flushed(out: Seq<MsgView>, buf: Seq<char>) -> Seq<MsgView> {
    if buf.len() > 0 {
        out.push(MsgView::Text(buf))
    } else {
        out
    }
}

/// The parts that the template gives from `pos` on, after the parts `out`
/// and the pending text `buf`. A character goes to the pending text, and so
/// does the content of a segment that is a text; a compound segment gives
/// its parts and any other segment is one part, each after the pending
/// text. The first token that is malformed, or that refers to a segment
/// which was not supplied, ends the reading with its error.
pub open spec fn assemble(
    t: Seq<char>,
    pos: int,
    segs: Seq<MsgView>,
    out: Seq<MsgView>,
    buf: Seq<char>,
) -> Result<Seq<MsgView>, Error>
    decreases t.len() - pos,
{
    if pos < 0 || pos >= t.len() {
        Ok(flushed(out, buf))
    } else {
        proof {
            lemma_token_at(t, pos);
        }
        match token_at(t, pos) {
            Err(e) => Err(Error::Format(e)),
            Ok((Token::Lit(c), next)) => assemble(t, next, segs, out, buf.push(c)),
            Ok((Token::Ref(i), next)) => if i >= segs.len() {
                Err(Error::Index)
            } else {
                match segs[i as int] {
                    MsgView::Text(content) => assemble(t, next, segs, out, buf + content),
                    MsgView::Compound(parts) => assemble(
                        t,
                        next,
                        segs,
                        flushed(out, buf) + parts,
                        Seq::empty(),
                    ),
                    MsgView::Ext { .. } => assemble(
                        t,
                        next,
                        segs,
                        flushed(out, buf).push(segs[i as int]),
                        Seq::empty(),
                    ),
                }
            },
        }
    }
}

/// The message that a template and its segments stand for: the parts read
/// from the template, as a builder makes a message of parts.
pub open spec fn constructed(t: Seq<char>, segs: Seq<MsgView>) -> Result<MsgView, Error> {
    match assemble(t, 0, segs, Seq::empty(), Seq::empty()) {
        Ok(parts) => Ok(MsgView::built(parts)),
        Err(e) => Err(e),
    }
}

/// A character as it stands in a template: a brace twice, any other once.
pub open spec fn brace_escape(c: char) -> Seq<char> {
    if c == '{' {
        seq!['{', '{']
    } else if c == '}' {
        seq!['}', '}']
    } else {
        seq![c]
    }
}

/// A text as it stands in a template.
pub open spec fn escaped_braces(s: Seq<char>) -> Seq<char>
    decreases s.len(),
{
    if s.len() == 0 {
        Seq::empty()
    } else {
        escaped_braces(s.drop_last()) + brace_escape(s.last())
    }
}

/// The reference to segment `i`.
pub open spec fn placeholder(i: nat) -> Seq<char> {
    seq!['{'] + decimal_digits(i) + seq!['}']
}

/// Those of `leaves` that are no text.
pub open spec fn extensions(leaves: Seq<MsgView>) -> Seq<MsgView>
    decreases leaves.len(),
{
    if leaves.len() == 0 {
        Seq::empty()
    } else if leaves.last() is Text {
        extensions(leaves.drop_last())
    } else {
        extensions(leaves.drop_last()).push(leaves.last())
    }
}

/// The template of `leaves`: each text with its braces doubled, each other
/// leaf as a reference, the references numbered from `first` on.
pub open spec fn template_of(leaves: Seq<MsgView>, first: nat) -> Seq<char>
    decreases leaves.len(),
{
    if leaves.len() == 0 {
        Seq::empty()
    } else {
        let front = leaves.drop_last();
        template_of(front, first) + match leaves.last() {
            MsgView::Text(content) => escaped_braces(content),
            _ => placeholder(first + extensions(front).len()),
        }
    }
}

/// The template and the segments of a message. A message that is a text is
/// its own template, as it stands.
pub open spec fn destructed(m: MsgView) -> (Seq<char>, Seq<MsgView>) {
    match m {
        MsgView::Text(content) => (content, Seq::empty()),
        _ => (template_of(m.leaves(), 0), extensions(m.leaves())),
    }
}

/// Templates and extensions of leaves that follow one another.
pub proof fn lemma_template_concat(a: Seq<MsgView>, b: Seq<MsgView>, first: nat)
    ensures
        extensions(a + b) == extensions(a) + extensions(b),
        template_of(a + b, first) == template_of(a, first) + template_of(
            b,
            first + extensions(a).len(),
        ),
    decreases b.len(),
{
    if b.len() == 0 {
        assert(a + b =~= a);
        assert(extensions(a) + extensions(b) =~= extensions(a));
        assert(template_of(a, first) + template_of(b, first + extensions(a).len())
            =~= template_of(a, first));
    } else {
        let front = b.drop_last();
        lemma_template_concat(a, front, first);
        assert((a + b).drop_last() =~= a + front);
        assert((a + b).last() == b.last());
        assert(extensions(a + b) =~= extensions(a) + extensions(b));
        assert(template_of(a + b, first) =~= template_of(a, first) + template_of(
            b,
            first + extensions(a).len(),
        ));
    }
}

/// The template and the extensions of a single leaf.
pub proof fn lemma_single_leaf(m: MsgView, first: nat)
    ensures
        extensions(seq![m]) == if m is Text {
            Seq::<MsgView>::empty()
        } else {
            seq![m]
        },
        template_of(seq![m], first) == match m {
            MsgView::Text(content) => escaped_braces(content),
            _ => placeholder(first),
        },
{
    let l = seq![m];
    assert(l.drop_last() =~= Seq::<MsgView>::empty());
    assert(l.last() == m);
    assert(extensions(l.drop_last()) =~= Seq::<MsgView>::empty());
    assert(template_of(l.drop_last(), first) =~= Seq::<char>::empty());
    assert(extensions(l) =~= if m is Text {
        Seq::<MsgView>::empty()
    } else {
        seq![m]
    });
    match m {
        MsgView::Text(content) => {
            assert(template_of(l, first) =~= escaped_braces(content));
        },
        _ => {
            assert(template_of(l, first) =~= placeholder(first));
        },
    }
}

/// The leaves of the first `n + 1` parts are those of the first `n` and
/// those of the next.
pub proof fn lemma_leaves_step(parts: Seq<MsgView>, n: nat)
    requires
        n < parts.len(),
    ensures
        MsgView::leaves_of(parts, n + 1) == MsgView::leaves_of(parts, n) + parts[n as int].leaves(),
{
}

fn push_escaped_braces(content: &str, out: &mut String)
    ensures
        final(out)@ == old(out)@ + escaped_braces(content@),
{
    let chars = to_chars(content);
    let mut i: usize = 0;
    assert(chars@.take(0) =~= Seq::<char>::empty());
    while i < chars.len()
        invariant
            i <= chars.len(),
            out@ == old(out)@ + escaped_braces(chars@.take(i as int)),
        decreases chars.len() - i,
    {
        let c = chars[i];
        assert(chars@.take(i + 1).drop_last() =~= chars@.take(i as int));
        if c == '{' {
            push_char(out, '{');
            push_char(out, '{');
        } else if c == '}' {
            push_char(out, '}');
            push_char(out, '}');
        } else {
            push_char(out, c);
        }
        assert(out@ =~= old(out)@ + escaped_braces(chars@.take(i + 1)));
        i += 1;
    }
    assert(chars@.take(i as int) =~= chars@);
}

impl Msg {
    /// Appends the template of the message to `template` and its extensions
    /// to `segments`, the references numbered from the length of `segments`.
    fn destruct_impl(&self, template: &mut String, segments: &mut Vec<Msg>)
        ensures
            final(template)@ == old(template)@ + template_of(
                self@.leaves(),
                old(segments)@.len(),
            ),
            msg_views(final(segments)@) == msg_views(old(segments)@) + extensions(self@.leaves()),
        decreases self,
    {
        match self {
            Msg::Text(content) => {
                push_escaped_braces(content.as_str(), template);
                proof {
                    let l = self@.leaves();
                    lemma_single_leaf(self@, old(segments)@.len());
                    assert(msg_views(segments@) + extensions(l) =~= msg_views(segments@));
                }
            },
            Msg::Compound(parts) => {
                proof {
                    lemma_compound_view(*parts);
                }
                let ghost views = msg_views(parts@);
                let ghost first = old(segments)@.len();
                let mut i: usize = 0;
                assert(old(template)@ + Seq::<char>::empty() =~= old(template)@);
                assert(msg_views(old(segments)@) + Seq::<MsgView>::empty() =~= msg_views(
                    old(segments)@,
                ));
                while i < parts.len()
                    invariant
                        i <= parts.len(),
                        self is Compound,
                        self->Compound_0 == *parts,
                        views == msg_views(parts@),
                        first == old(segments)@.len(),
                        template@ == old(template)@ + template_of(
                            MsgView::leaves_of(views, i as nat),
                            first,
                        ),
                        msg_views(segments@) == msg_views(old(segments)@) + extensions(
                            MsgView::leaves_of(views, i as nat),
                        ),
                    decreases parts.len() - i,
                {
                    let ghost done = MsgView::leaves_of(views, i as nat);
                    let ghost t0 = template@;
                    let ghost s0 = segments@;
                    parts[i].destruct_impl(template, segments);
                    proof {
                        let more = views[i as int].leaves();
                        lemma_leaves_step(views, i as nat);
                        lemma_template_concat(done, more, first);
                        assert(msg_views(s0).len() == s0.len());
                        assert(s0.len() == first + extensions(done).len());
                        assert(template@ =~= old(template)@ + template_of(done + more, first));
                        assert(msg_views(segments@) =~= msg_views(old(segments)@) + extensions(
                            done + more,
                        ));
                    }
                    i += 1;
                }
            },
            Msg::Ext { .. } => {
                let ghost before = segments@;
                let n = segments.len();
                push_char(template, '{');
                push_decimal(template, n as u64);
                push_char(template, '}');
                segments.push(self.clone());
                proof {
                    lemma_single_leaf(self@, n as nat);
                    assert(template@ =~= old(template)@ + placeholder(n as nat));
                    assert(msg_views(segments@) =~= msg_views(before) + seq![self@]);
                }
            },
        }
    }

    /// Takes the message apart into its template and its segments.
    pub fn destruct(&self) -> (r: (String, Vec<Msg>))
        ensures
            r.0@ == destructed(self@).0,
            msg_views(r.1@) == destructed(self@).1,
    {
        match self {
            Msg::Text(content) => {
                let segments: Vec<Msg> = Vec::new();
                assert(msg_views(segments@) =~= Seq::<MsgView>::empty());
                (content.clone(), segments)
            },
            _ => {
                let mut template = String::new();
                let mut segments: Vec<Msg> = Vec::new();
                assert(msg_views(segments@) =~= Seq::<MsgView>::empty());
                self.destruct_impl(&mut template, &mut segments);
                assert(template@ =~= template_of(self@.leaves(), 0));
                assert(msg_views(segments@) =~= extensions(self@.leaves()));
                (template, segments)
            },
        }
    }
}


/// Moves the pending text, if there is any, to the parts.
fn flush(out: &mut Vec<Msg>, buf: &mut String)
    ensures
        msg_views(final(out)@) == flushed(msg_views(old(out)@), old(buf)@),
        final(buf)@ == Seq::<char>::empty(),
{
    if !buf.as_str().is_empty() {
        let mut full = String::new();
        std::mem::swap(buf, &mut full);
        let ghost before = out@;
        out.push(Msg::Text(full));
        assert(msg_views(out@) =~= msg_views(before).push(MsgView::Text(full@)));
    } else {
        assert(buf@ =~= Seq::<char>::empty());
    }
}

impl Msg {
    /// Puts a message together from a template and the segments that its
    /// placeholders refer to.
    pub fn construct(fmt: &str, msgs: &[Msg]) -> (r: Result<Msg, Error>)
        ensures
            match constructed(fmt@, msg_views(msgs@)) {
                Ok(m) => r matches Ok(got) && got@ == m,
                Err(e) => r matches Err(got) && got == e,
            },
    {
        let t = to_chars(fmt);
        let ghost segs = msg_views(msgs@);
        let mut out: Vec<Msg> = Vec::new();
        let mut buf = String::new();
        let mut pos: usize = 0;
        assert(msg_views(out@) =~= Seq::<MsgView>::empty());
        while pos < t.len()
            invariant
                pos <= t.len(),
                t@ == fmt@,
                segs == msg_views(msgs@),
                assemble(t@, 0, segs, Seq::empty(), Seq::empty()) == assemble(
                    t@,
                    pos as int,
                    segs,
                    msg_views(out@),
                    buf@,
                ),
            decreases t.len() - pos,
        {
            let c = t[pos];
            if c == '{' {
                if pos + 1 < t.len() && t[pos + 1] == '{' {
                    push_char(&mut buf, '{');
                    pos += 2;
                } else {
                    let start = pos + 1;
                    let mut end = start;
                    let mut index: usize = 0;
                    assert(t@.subrange(start as int, start as int) =~= Seq::<char>::empty());
                    while end < t.len() && char_is_digit(t[end])
                        invariant
                            start <= end <= t.len(),
                            digits_end(t@, start as int) == digits_end(t@, end as int),
                            index <= msgs.len(),
                            decimal_value(t@.subrange(start as int, end as int)) < msgs.len()
                                ==> index == decimal_value(t@.subrange(start as int, end as int)),
                            decimal_value(t@.subrange(start as int, end as int)) >= msgs.len()
                                ==> index == msgs.len(),
                        decreases t.len() - end,
                    {
                        let d = char_digit_value(t[end]);
                        assert(t@.subrange(start as int, end + 1).drop_last() =~= t@.subrange(
                            start as int,
                            end as int,
                        ));
                        if index < msgs.len() {
                            let wide: u128 = index as u128 * 10 + d as u128;
                            if wide >= msgs.len() as u128 {
                                index = msgs.len();
                            } else {
                                index = wide as usize;
                            }
                        }
                        end += 1;
                    }
                    if end >= t.len() {
                        return Err(Error::Format(FormatError::UnclosedBrace));
                    }
                    if t[end] != '}' {
                        return Err(Error::Format(FormatError::NonDigitIndex));
                    }
                    if index >= msgs.len() {
                        return Err(Error::Index);
                    }
                    assert(segs[index as int] == msgs@[index as int]@);
                    match &msgs[index] {
                        Msg::Text(content) => {
                            buf.append(content.as_str());
                        },
                        Msg::Compound(parts) => {
                            proof {
                                lemma_compound_view(*parts);
                            }
                            flush(&mut out, &mut buf);
                            let ghost base = msg_views(out@);
                            let mut k: usize = 0;
                            assert(msg_views(parts@).take(0) =~= Seq::<MsgView>::empty());
                            assert(base + Seq::<MsgView>::empty() =~= base);
                            while k < parts.len()
                                invariant
                                    k <= parts.len(),
                                    msg_views(out@) == base + msg_views(parts@).take(k as int),
                                decreases parts.len() - k,
                            {
                                let ghost before = out@;
                                out.push(parts[k].clone());
                                assert(msg_views(out@) =~= msg_views(before).push(parts@[k as int]@));
                                assert(msg_views(parts@).take(k + 1) =~= msg_views(parts@).take(
                                    k as int,
                                ).push(parts@[k as int]@));
                                k += 1;
                            }
                            assert(msg_views(parts@).take(k as int) =~= msg_views(parts@));
                        },
                        Msg::Ext { .. } => {
                            flush(&mut out, &mut buf);
                            let ghost before = out@;
                            out.push(msgs[index].clone());
                            assert(msg_views(out@) =~= msg_views(before).push(segs[index as int]));
                        },
                    }
                    pos = end + 1;
                }
            } else if c == '}' {
                if pos + 1 < t.len() && t[pos + 1] == '}' {
                    push_char(&mut buf, '}');
                    pos += 2;
                } else {
                    return Err(Error::Format(FormatError::DanglingEscape));
                }
            } else {
                push_char(&mut buf, c);
                pos += 1;
            }
        }
        flush(&mut out, &mut buf);
        Ok(Msg::of_parts(out))
    }
}

} // verus!
