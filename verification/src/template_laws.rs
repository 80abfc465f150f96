//! What holds of the template codec: taking a message apart and putting it
//! together again gives the message back.
use crate::error::{Error, FormatError};
use crate::msg::MsgView;
use crate::template::{
    assemble, brace_escape, constructed, destructed, digits_end, escaped_braces, extensions,
    flushed, lemma_template_concat, placeholder, template_of, token_at, Token,
};
use crate::text::{all_digits, decimal_digits, is_digit, lemma_decimal_digits};
use vstd::prelude::*;

verus! {

/// Whether a text holds no brace.
pub open spec fn no_braces(s: Seq<char>) -> bool {
    forall|i: int| 0 <= i < s.len() ==> #[trigger] s[i] != '{' && s[i] != '}'
}

/// A text without braces is its own template.
pub proof fn lemma_escaped_plain(s: Seq<char>)
    requires
        no_braces(s),
    ensures
        escaped_braces(s) == s,
    decreases s.len(),
{
    if s.len() > 0 {
        lemma_escaped_plain(s.drop_last());
        assert(s.drop_last().push(s.last()) =~= s);
        assert(escaped_braces(s) =~= s);
    } else {
        assert(s =~= Seq::<char>::empty());
    }
}

/// Where the template holds an escaped text, reading it adds the text to
/// the pending text and changes nothing else.
pub proof fn lemma_assemble_text(
    t: Seq<char>,
    pos: int,
    segs: Seq<MsgView>,
    out: Seq<MsgView>,
    buf: Seq<char>,
    s: Seq<char>,
)
    requires
        0 <= pos,
        pos + escaped_braces(s).len() <= t.len(),
        t.subrange(pos, pos + escaped_braces(s).len()) == escaped_braces(s),
    ensures
        assemble(t, pos, segs, out, buf) == assemble(
            t,
            pos + escaped_braces(s).len(),
            segs,
            out,
            buf + s,
        ),
    decreases s.len(),
{
    if s.len() == 0 {
        assert(buf + s =~= buf);
    } else {
        let front = s.drop_last();
        let c = s.last();
        let whole = escaped_braces(s);
        let q = pos + escaped_braces(front).len();
        assert(whole == escaped_braces(front) + brace_escape(c));
        assert(t.subrange(pos, q) =~= escaped_braces(front)) by {
            assert(whole.subrange(0, escaped_braces(front).len() as int) =~= escaped_braces(front));
        }
        lemma_assemble_text(t, pos, segs, out, buf, front);
        assert(forall|k: int|
            0 <= k < brace_escape(c).len() ==> t[q + k] == #[trigger] brace_escape(c)[k]) by {
            assert forall|k: int| 0 <= k < brace_escape(c).len() implies t[q + k]
                == #[trigger] brace_escape(c)[k] by {
                assert(t[q + k] == t.subrange(pos, pos + whole.len())[q + k - pos]);
                assert(whole[q + k - pos] == brace_escape(c)[k]);
            }
        }
        assert(t[q] == brace_escape(c)[0]);
        if c == '{' || c == '}' {
            assert(t[q + 1] == brace_escape(c)[1]);
        }
        assert(token_at(t, q) == Ok::<(Token, int), FormatError>(
            (Token::Lit(c), q + brace_escape(c).len()),
        ));
        assert((buf + front).push(c) =~= buf + s);
    }
}

/// A run of digits that ends before a character that is no digit, or at
/// the end, is where `digits_end` stops.
pub proof fn lemma_digits_run(t: Seq<char>, from: int, to: int)
    requires
        0 <= from <= to <= t.len(),
        all_digits(t.subrange(from, to)),
        to < t.len() ==> !is_digit(t[to]),
    ensures
        digits_end(t, from) == to,
    decreases to - from,
{
    if from < to {
        assert(t[from] == t.subrange(from, to)[0]);
        assert forall|i: int| 0 <= i < to - (from + 1) implies is_digit(
            #[trigger] t.subrange(from + 1, to)[i],
        ) by {
            assert(t.subrange(from + 1, to)[i] == t.subrange(from, to)[i + 1]);
        }
        lemma_digits_run(t, from + 1, to);
    }
}

/// Where the template holds the reference to segment `i`, the token read
/// there is that reference.
pub proof fn lemma_token_placeholder(t: Seq<char>, pos: int, i: nat)
    requires
        0 <= pos,
        pos + placeholder(i).len() <= t.len(),
        t.subrange(pos, pos + placeholder(i).len()) == placeholder(i),
    ensures
        token_at(t, pos) == Ok::<(Token, int), FormatError>(
            (Token::Ref(i), pos + placeholder(i).len()),
        ),
{
    let digits = decimal_digits(i);
    let piece = placeholder(i);
    lemma_decimal_digits(i);
    let end = pos + 1 + digits.len();
    assert(piece.len() == digits.len() + 2);
    assert forall|k: int| 0 <= k < piece.len() implies t[pos + k] == #[trigger] piece[k] by {
        assert(t[pos + k] == t.subrange(pos, pos + piece.len())[k]);
    }
    assert(piece[0] == '{');
    assert(piece[1] == digits[0]);
    assert(piece[piece.len() - 1] == '}');
    assert(t[pos] == '{');
    assert(t[pos + 1] == digits[0]);
    assert(is_digit(digits[0]));
    assert(t[end] == '}');
    assert(t.subrange(pos + 1, end) =~= digits) by {
        assert forall|k: int| 0 <= k < digits.len() implies t.subrange(pos + 1, end)[k]
            == digits[k] by {
            assert(t[pos + 1 + k] == piece[1 + k]);
        }
    }
    lemma_digits_run(t, pos + 1, end);
}

/// The parts that stand behind the first `n` of `leaves` once they are
/// read: all of them but a text at the end, which is still pending.
pub open spec fn parts_after(leaves: Seq<MsgView>, n: int) -> Seq<MsgView> {
    if n > 0 && leaves[n - 1] is Text {
        leaves.take(n - 1)
    } else {
        leaves.take(n)
    }
}

/// The text that is pending once the first `n` of `leaves` are read.
pub open spec fn text_after(leaves: Seq<MsgView>, n: int) -> Seq<char> {
    if n > 0 && leaves[n - 1] is Text {
        leaves[n - 1]->Text_0
    } else {
        Seq::empty()
    }
}

/// Reading the template of merged leaves up to the end of the first `n`
/// has collected exactly those leaves.
pub proof fn lemma_assemble_leaves(leaves: Seq<MsgView>, n: int)
    requires
        MsgView::merged(leaves),
        0 <= n <= leaves.len(),
    ensures
        template_of(leaves.take(n), 0).len() <= template_of(leaves, 0).len(),
        assemble(template_of(leaves, 0), 0, extensions(leaves), Seq::empty(), Seq::empty())
            == assemble(
            template_of(leaves, 0),
            template_of(leaves.take(n), 0).len() as int,
            extensions(leaves),
            parts_after(leaves, n),
            text_after(leaves, n),
        ),
    decreases n,
{
    let t = template_of(leaves, 0);
    let segs = extensions(leaves);
    lemma_template_concat(leaves.take(n), leaves.skip(n), 0);
    assert(leaves.take(n) + leaves.skip(n) =~= leaves);
    if n == 0 {
        assert(leaves.take(0) =~= Seq::<MsgView>::empty());
    } else {
        let m = n - 1;
        lemma_assemble_leaves(leaves, m);
        let done = leaves.take(m);
        let leaf = leaves[m];
        let pos = template_of(done, 0).len() as int;
        let out = parts_after(leaves, m);
        let buf = text_after(leaves, m);
        assert(leaves.take(n).drop_last() =~= done);
        assert(leaves.take(n).last() == leaf);
        let piece = match leaf {
            MsgView::Text(content) => escaped_braces(content),
            _ => placeholder(extensions(done).len()),
        };
        assert(template_of(leaves.take(n), 0) == template_of(done, 0) + piece);
        assert(t.subrange(pos, pos + piece.len()) =~= piece) by {
            assert(t == template_of(leaves.take(n), 0) + template_of(
                leaves.skip(n),
                extensions(leaves.take(n)).len(),
            ));
        }
        assert(leaf.is_leaf());
        match leaf {
            MsgView::Text(content) => {
                if m > 0 {
                    assert(!(leaves[m - 1] is Text && leaves[m - 1 + 1] is Text));
                }
                assert(buf =~= Seq::<char>::empty());
                assert(out =~= done);
                lemma_assemble_text(t, pos, segs, out, buf, content);
                assert(buf + content =~= content);
                assert(parts_after(leaves, n) =~= done);
            },
            MsgView::Compound(_) => {},
            MsgView::Ext { .. } => {
                let k = extensions(done).len();
                lemma_token_placeholder(t, pos, k);
                assert(extensions(leaves.take(n)) == extensions(done).push(leaf));
                assert(segs == extensions(leaves.take(n)) + extensions(leaves.skip(n)));
                assert(segs[k as int] == leaf);
                assert(k < segs.len());
                if m > 0 && leaves[m - 1] is Text {
                    assert(!(leaves[m - 1] matches MsgView::Text(c) && c.len() == 0));
                    assert(flushed(out, buf) =~= done) by {
                        assert(done.drop_last() =~= leaves.take(m - 1));
                        assert(leaves.take(m - 1).push(leaves[m - 1]) =~= done);
                    }
                } else {
                    assert(flushed(out, buf) =~= done);
                }
                assert(flushed(out, buf).push(leaf) =~= leaves.take(n));
            },
        }
    }
}

/// The template of merged leaves, read with their extensions as segments,
/// gives the leaves back.
pub proof fn lemma_assemble_merged(leaves: Seq<MsgView>)
    requires
        MsgView::merged(leaves),
    ensures
        assemble(template_of(leaves, 0), 0, extensions(leaves), Seq::empty(), Seq::empty())
            == Ok::<Seq<MsgView>, Error>(leaves),
{
    let n = leaves.len() as int;
    lemma_assemble_leaves(leaves, n);
    assert(leaves.take(n) =~= leaves);
    if n > 0 && leaves[n - 1] is Text {
        assert(!(leaves[n - 1] matches MsgView::Text(c) && c.len() == 0));
        assert(leaves.take(n - 1).push(leaves[n - 1]) =~= leaves);
    }
    assert(flushed(parts_after(leaves, n), text_after(leaves, n)) =~= leaves);
}

/// Parts that are leaves are their own leaves.
pub proof fn lemma_leaves_of_leaves(parts: Seq<MsgView>, n: nat)
    requires
        n <= parts.len(),
        forall|i: int| 0 <= i < parts.len() ==> (#[trigger] parts[i]).is_leaf(),
    ensures
        MsgView::leaves_of(parts, n) == parts.take(n as int),
    decreases n,
{
    if n == 0 {
        assert(parts.take(0) =~= Seq::<MsgView>::empty());
    } else {
        lemma_leaves_of_leaves(parts, (n - 1) as nat);
        assert(parts[n - 1].is_leaf());
        assert(parts[n - 1].leaves() == seq![parts[n - 1]]);
        assert(parts.take(n - 1) + seq![parts[n - 1]] =~= parts.take(n as int));
    }
}

/// Taking a message apart and putting it together again gives the message
/// back, for every message in minimal form but a text that holds a brace:
/// a message that is a text is its own template, as it stands.
pub proof fn lemma_construct_destruct(m: MsgView)
    requires
        m.normal(),
        m matches MsgView::Text(content) ==> no_braces(content),
    ensures
        constructed(destructed(m).0, destructed(m).1) == Ok::<MsgView, Error>(m),
{
    match m {
        MsgView::Text(content) => {
            lemma_escaped_plain(content);
            let none = Seq::<MsgView>::empty();
            assert(content.subrange(0, content.len() as int) =~= content);
            lemma_assemble_text(content, 0, none, none, Seq::empty(), content);
            assert(Seq::<char>::empty() + content =~= content);
            if content.len() == 0 {
                assert(content =~= Seq::<char>::empty());
            }
        },
        MsgView::Compound(parts) => {
            lemma_leaves_of_leaves(parts, parts.len());
            assert(parts.take(parts.len() as int) =~= parts);
            lemma_assemble_merged(parts);
        },
        MsgView::Ext { .. } => {
            let leaves = seq![m];
            assert(MsgView::merged(leaves));
            lemma_assemble_merged(leaves);
        },
    }
}

} // verus!
