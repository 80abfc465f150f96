//! What the bridge to the host needs computed: text between the host's
//! encoding and strings, and the records in which the host describes the
//! sender of a message.
use crate::composer::Composer;
use crate::error::Error;
use crate::msg::{Msg, MsgIn, MsgInView, MsgView};
use bytes::{Buf, Bytes, IntoBuf};
use std::io::Cursor;
use vstd::prelude::*;

verus! {

/// `bytes::Bytes`, the buffer that a record is read from; nothing is known
/// of what is inside but what the names below say.
#[verifier::external_type_specification]
#[verifier::external_body]
pub struct ExBytes(bytes::Bytes);

/// `std::io::Cursor`, a position in a buffer.
#[verifier::external_type_specification]
#[verifier::external_body]
#[verifier::reject_recursive_types(T)]
pub struct ExCursor<T>(std::io::Cursor<T>);

/// `base64::DecodeError`, which says why an input is no base64; it is only
/// handed on.
#[verifier::external_type_specification]
#[verifier::external_body]
pub struct ExDecodeError(base64::DecodeError);

/// A name for the bytes that a buffer holds.
pub uninterp spec fn held(b: Bytes) -> Seq<u8>;

/// A name for what a cursor over a buffer still has to give: the bytes from
/// its position to the end.
pub uninterp spec fn unread(b: Cursor<Bytes>) -> Seq<u8>;

/// A name for what `base64::decode` makes of an input: the bytes that it
/// stands for in the standard alphabet, or none where it is malformed.
pub uninterp spec fn base64_decoded(input: Seq<u8>) -> Option<Seq<u8>>;

/// A name for what `Encoding::decode_without_bom_handling` of
/// `encoding_rs::GB18030` makes of bytes: their text, with the replacement
/// character for what is malformed.
pub uninterp spec fn gb18030_decoded(bytes: Seq<u8>) -> Seq<char>;

/// A name for what `Encoding::encode` of `encoding_rs::GB18030` makes of a
/// text: its bytes.
pub uninterp spec fn gb18030_encoded(text: Seq<char>) -> Seq<u8>;

/// The longest input that is handed to the conversions of text. They panic
/// where the size of their buffer does not fit `usize`; that size stays
/// below sixteen times the length of the input and sixteen more, so with
/// this bound it fits.
pub const MAX_TEXT: usize = usize::MAX / 64;

/// Calls `Bytes::from`: a buffer that holds the given bytes.
#[verifier::external_body]
fn bytes_of(raw: Vec<u8>) -> (b: Bytes)
    ensures
        held(b) == raw@,
{
    Bytes::from(raw)
}

/// Calls `IntoBuf::into_buf`: a cursor at the start of the buffer, with all
/// of its bytes still to give.
#[verifier::external_body]
fn cursor_over(bytes: Bytes) -> (b: Cursor<Bytes>)
    ensures
        unread(b) == held(bytes),
{
    bytes.into_buf()
}

/// A cursor at the start of the given bytes.
fn buf_of(raw: Vec<u8>) -> (b: Cursor<Bytes>)
    ensures
        unread(b) == raw@,
{
    cursor_over(bytes_of(raw))
}

/// Calls `Buf::remaining`: the number of bytes from the position to the
/// end.
#[verifier::external_body]
fn buf_remaining(b: &Cursor<Bytes>) -> (n: usize)
    ensures
        n == unread(*b).len(),
{
    b.remaining()
}

/// Calls `Buf::get_u8`, which gives the byte at the position and moves
/// the position by one; it panics where no byte is left.
#[verifier::external_body]
fn buf_get_u8(b: &mut Cursor<Bytes>) -> (x: u8)
    requires
        unread(*old(b)).len() >= 1,
    ensures
        x == unread(*old(b))[0],
        unread(*final(b)) == unread(*old(b)).skip(1),
{
    b.get_u8()
}

/// Calls `Buf::advance`, which moves the position by `cnt`; it panics
/// where fewer bytes are left, and where the position lies beyond the end
/// already, which the first bound leaves out: then nothing is left.
#[verifier::external_body]
fn buf_advance(b: &mut Cursor<Bytes>, cnt: usize)
    requires
        1 <= cnt <= unread(*old(b)).len(),
    ensures
        unread(*final(b)) == unread(*old(b)).skip(cnt as int),
{
    b.advance(cnt)
}

/// Calls `base64::decode`; it panics where the length of the input is
/// within 8 of `usize::MAX`.
#[verifier::external_body]
fn base64_decode(input: &[u8]) -> (r: Result<Vec<u8>, base64::DecodeError>)
    requires
        input@.len() <= usize::MAX - 8,
    ensures
        match base64_decoded(input@) {
            Some(bytes) => r matches Ok(got) && got@ == bytes,
            None => r is Err,
        },
{
    base64::decode(input)
}

/// Calls `Encoding::decode_without_bom_handling` on
/// `encoding_rs::GB18030` and keeps the text.
#[verifier::external_body]
fn gb18030_decode(bytes: &[u8]) -> (s: String)
    requires
        bytes@.len() <= MAX_TEXT,
    ensures
        s@ == gb18030_decoded(bytes@),
{
    let (text, _) = encoding_rs::GB18030.decode_without_bom_handling(bytes);
    String::from(text)
}

/// Calls `Encoding::encode` on `encoding_rs::GB18030` and keeps the bytes.
#[verifier::external_body]
fn gb18030_encode(text: &str) -> (b: Vec<u8>)
    requires
        text.len() <= MAX_TEXT,
    ensures
        b@ == gb18030_encoded(text@),
{
    let (bytes, _, _) = encoding_rs::GB18030.encode(text);
    bytes.into_owned()
}

/// The index of the first zero byte in `s`, or the length of `s` where it
/// holds none.
pub open spec fn zero_at(s: Seq<u8>) -> int
    decreases s.len(),
{
    if s.len() == 0 {
        0
    } else if s[0] == 0 {
        0
    } else {
        1 + zero_at(s.skip(1))
    }
}

/// `zero_at` gives the index of a zero byte before which there is none, or
/// the length of a sequence without one.
pub proof fn lemma_zero_at(s: Seq<u8>)
    ensures
        0 <= zero_at(s) <= s.len(),
        zero_at(s) < s.len() ==> s[zero_at(s)] == 0,
        forall|j: int| 0 <= j < zero_at(s) ==> s[j] != 0,
    decreases s.len(),
{
    if s.len() > 0 && s[0] != 0 {
        lemma_zero_at(s.skip(1));
        assert forall|j: int| 0 <= j < zero_at(s) implies s[j] != 0 by {
            if j > 0 {
                assert(s[j] == s.skip(1)[j - 1]);
            }
        }
    }
}

/// Moves the cursor by `cnt` bytes where that many are left, and says
/// whether it did. A move by no byte leaves the cursor as it is.
pub fn skip_bytes(b: &mut Cursor<Bytes>, cnt: usize) -> (moved: bool)
    ensures
        moved == (cnt <= unread(*old(b)).len()),
        moved ==> unread(*final(b)) == unread(*old(b)).skip(cnt as int),
        !moved ==> unread(*final(b)) == unread(*old(b)),
{
    if cnt == 0 {
        assert(unread(*b).skip(0) =~= unread(*b));
        true
    } else if cnt <= buf_remaining(b) {
        buf_advance(b, cnt);
        true
    } else {
        false
    }
}

/// Reads the bytes before the next zero byte and moves the cursor behind
/// that byte. Where no zero byte is left, nothing is given and the cursor
/// stands at the end.
pub fn get_bytes(b: &mut Cursor<Bytes>) -> (r: Option<Vec<u8>>)
    ensures
        match r {
            Some(bytes) => {
                &&& zero_at(unread(*old(b))) < unread(*old(b)).len()
                &&& bytes@ == unread(*old(b)).take(zero_at(unread(*old(b))))
                &&& unread(*final(b)) == unread(*old(b)).skip(zero_at(unread(*old(b))) + 1)
            },
            None => {
                &&& zero_at(unread(*old(b))) == unread(*old(b)).len()
                &&& unread(*final(b)).len() == 0
            },
        },
{
    let ghost all = unread(*b);
    let mut buf: Vec<u8> = Vec::new();
    let mut found = false;
    assert(all.skip(0) =~= all);
    assert(all.take(0) =~= buf@);
    while !found && buf_remaining(b) > 0
        invariant
            all == unread(*old(b)),
            buf@.len() <= all.len(),
            !found ==> {
                &&& buf@ == all.take(buf@.len() as int)
                &&& unread(*b) == all.skip(buf@.len() as int)
                &&& zero_at(all) == buf@.len() + zero_at(unread(*b))
            },
            found ==> {
                &&& zero_at(all) == buf@.len()
                &&& zero_at(all) < all.len()
                &&& buf@ == all.take(zero_at(all))
                &&& unread(*b) == all.skip(zero_at(all) + 1)
            },
        decreases unread(*b).len() + if found { 0int } else { 1int },
    {
        let ghost rest = unread(*b);
        let c = buf_get_u8(b);
        assert(rest[0] == all[buf@.len() as int]);
        assert(rest.skip(1) =~= all.skip(buf@.len() as int + 1));
        if c == 0 {
            found = true;
        } else {
            buf.push(c);
            assert(buf@ =~= all.take(buf@.len() as int));
        }
    }
    if found {
        Some(buf)
    } else {
        None
    }
}

/// Moves the cursor behind the next zero byte and says whether there was
/// one; where there was none, the cursor stands at the end.
pub fn skip_string(b: &mut Cursor<Bytes>) -> (found: bool)
    ensures
        found == (zero_at(unread(*old(b))) < unread(*old(b)).len()),
        found ==> unread(*final(b)) == unread(*old(b)).skip(zero_at(unread(*old(b))) + 1),
        !found ==> unread(*final(b)).len() == 0,
{
    match get_bytes(b) {
        Some(_) => true,
        None => false,
    }
}

/// The text that a cursor over `rest` gives as its next string: what the
/// bytes before the first zero byte stand for in GB18030. There is none
/// where no zero byte is left or the string is longer than `MAX_TEXT`.
pub open spec fn next_string(rest: Seq<u8>) -> Option<Seq<char>> {
    if zero_at(rest) < rest.len() && zero_at(rest) <= MAX_TEXT {
        Some(gb18030_decoded(rest.take(zero_at(rest))))
    } else {
        None
    }
}

/// What is left behind the next string: the bytes after the first zero
/// byte, or nothing where there is none.
pub open spec fn after_string(rest: Seq<u8>) -> Seq<u8> {
    if zero_at(rest) < rest.len() {
        rest.skip(zero_at(rest) + 1)
    } else {
        Seq::empty()
    }
}

/// Reads the string that ends at the next zero byte, and moves the cursor
/// behind that byte.
pub fn get_string(b: &mut Cursor<Bytes>) -> (r: Option<String>)
    ensures
        match next_string(unread(*old(b))) {
            Some(text) => r matches Some(got) && got@ == text,
            None => r is None,
        },
        unread(*final(b)) == after_string(unread(*old(b))),
{
    proof {
        lemma_zero_at(unread(*old(b)));
    }
    match get_bytes(b) {
        Some(bytes) => {
            if bytes.len() <= MAX_TEXT {
                Some(gb18030_decode(bytes.as_slice()))
            } else {
                None
            }
        },
        None => {
            assert(unread(*b) =~= Seq::<u8>::empty());
            None
        },
    }
}

/// The alias in the record of a stranger: the first string behind the 8
/// bytes at the start.
pub open spec fn stranger_alias(raw: Seq<u8>) -> Option<Seq<char>> {
    if raw.len() < 8 {
        None
    } else {
        next_string(raw.skip(8))
    }
}

/// The inbound private message of the account `qq` whose record, decoded,
/// is `raw`.
pub fn priv_msg_in(qq: i64, raw: Vec<u8>, content: Msg) -> (r: Result<MsgIn, Error>)
    ensures
        match stranger_alias(raw@) {
            Some(alias) => r matches Ok(m) && m@ == (MsgInView::Private {
                qq,
                alias,
                content: content@,
            }),
            None => r matches Err(e) && e == Error::Record,
        },
{
    let mut b = buf_of(raw);
    if !skip_bytes(&mut b, 8) {
        return Err(Error::Record);
    }
    match get_string(&mut b) {
        Some(alias) => Ok(MsgIn::Private { qq, alias, content }),
        None => Err(Error::Record),
    }
}

/// The inbound private message of the account `qq`, whose record `info` is
/// as the host hands it over, in base64.
pub fn make_priv_msg_in(qq: i64, info: &[u8], content: Msg) -> (r: Result<MsgIn, Error>)
    ensures
        match stranger_record(info@) {
            Some(alias) => r matches Ok(m) && m@ == (MsgInView::Private {
                qq,
                alias,
                content: content@,
            }),
            None => r matches Err(e) && e == Error::Record,
        },
{
    if info.len() > usize::MAX - 8 {
        return Err(Error::Record);
    }
    match base64_decode(info) {
        Ok(raw) => priv_msg_in(qq, raw, content),
        Err(_) => Err(Error::Record),
    }
}

/// The alias in a record of a stranger that is still in base64.
pub open spec fn stranger_record(info: Seq<u8>) -> Option<Seq<char>> {
    if info.len() > usize::MAX - 8 {
        None
    } else {
        match base64_decoded(info) {
            Some(raw) => stranger_alias(raw),
            None => None,
        }
    }
}

/// The alias of the member and that of the group in the record of a group
/// member: the first two strings behind the 16 bytes at the start.
pub open spec fn member_aliases(raw: Seq<u8>) -> Option<(Seq<char>, Seq<char>)> {
    if raw.len() < 16 {
        None
    } else {
        match (next_string(raw.skip(16)), next_string(after_string(raw.skip(16)))) {
            (Some(alias), Some(grp_alias)) => Some((alias, grp_alias)),
            _ => None,
        }
    }
}

/// The aliases in a record of a group member that is still in base64.
pub open spec fn member_record(info: Seq<u8>) -> Option<(Seq<char>, Seq<char>)> {
    if info.len() > usize::MAX - 8 {
        None
    } else {
        match base64_decoded(info) {
            Some(raw) => member_aliases(raw),
            None => None,
        }
    }
}

/// The inbound group message of the account `qq` in the group `grp` whose
/// record, decoded, is `raw`.
pub fn grp_msg_in(grp: i64, qq: i64, raw: Vec<u8>, content: Msg) -> (r: Result<MsgIn, Error>)
    ensures
        match member_aliases(raw@) {
            Some((alias, grp_alias)) => r matches Ok(m) && m@ == (MsgInView::Group {
                grp,
                qq,
                alias,
                grp_alias,
                content: content@,
            }),
            None => r matches Err(e) && e == Error::Record,
        },
{
    let mut b = buf_of(raw);
    if !skip_bytes(&mut b, 16) {
        return Err(Error::Record);
    }
    let alias = get_string(&mut b);
    let grp_alias = get_string(&mut b);
    match (alias, grp_alias) {
        (Some(alias), Some(grp_alias)) => Ok(MsgIn::Group { grp, qq, alias, grp_alias, content }),
        _ => Err(Error::Record),
    }
}

/// The inbound group message of the account `qq` in the group `grp`,
/// whose record `info` is as the host hands it over, in base64.
pub fn make_grp_msg_in(grp: i64, qq: i64, info: &[u8], content: Msg) -> (r: Result<MsgIn, Error>)
    ensures
        match member_record(info@) {
            Some((alias, grp_alias)) => r matches Ok(m) && m@ == (MsgInView::Group {
                grp,
                qq,
                alias,
                grp_alias,
                content: content@,
            }),
            None => r matches Err(e) && e == Error::Record,
        },
{
    if info.len() > usize::MAX - 8 {
        return Err(Error::Record);
    }
    match base64_decode(info) {
        Ok(raw) => grp_msg_in(grp, qq, raw, content),
        Err(_) => Err(Error::Record),
    }
}

/// Whether no byte of `bytes` is zero, so that they can go to the host as
/// one string.
pub fn zero_free(bytes: &Vec<u8>) -> (r: bool)
    ensures
        r == (zero_at(bytes@) == bytes@.len()),
{
    let mut i: usize = 0;
    assert(bytes@.skip(0) =~= bytes@);
    while i < bytes.len()
        invariant
            i <= bytes.len(),
            zero_at(bytes@) == i + zero_at(bytes@.skip(i as int)),
        decreases bytes.len() - i,
    {
        if bytes[i] == 0 {
            return false;
        }
        assert(bytes@.skip(i as int).skip(1) =~= bytes@.skip(i + 1));
        i += 1;
    }
    true
}

/// A text as the host takes it: in GB18030. There is none where the text
/// is longer than `MAX_TEXT` or one of its bytes is zero.
pub fn encode_text(msg: &str) -> (r: Option<Vec<u8>>)
    ensures
        match r {
            Some(bytes) => {
                &&& msg.len() <= MAX_TEXT
                &&& bytes@ == gb18030_encoded(msg@)
                &&& zero_at(bytes@) == bytes@.len()
            },
            None => msg.len() > MAX_TEXT || zero_at(gb18030_encoded(msg@)) < gb18030_encoded(
                msg@,
            ).len(),
        },
{
    if msg.len() > MAX_TEXT {
        return None;
    }
    let bytes = gb18030_encode(msg);
    proof {
        lemma_zero_at(bytes@);
    }
    if zero_free(&bytes) {
        Some(bytes)
    } else {
        None
    }
}

/// The message that the host hands over as `raw`, text in GB18030, read
/// with the given codec. Bytes beyond `MAX_TEXT` are not read.
pub fn receive<C: Composer>(composer: &C, raw: &[u8]) -> (r: Result<Msg, Error>)
    ensures
        match received(composer, raw@) {
            Ok(m) => r matches Ok(got) && got@ == m,
            Err(e) => r matches Err(got) && got == e,
        },
{
    if raw.len() > MAX_TEXT {
        return Err(Error::Record);
    }
    let text = gb18030_decode(raw);
    composer.decompose(text.as_str())
}

/// What `receive` makes of the bytes.
pub open spec fn received<C: Composer>(composer: &C, raw: Seq<u8>) -> Result<MsgView, Error> {
    if raw.len() > MAX_TEXT {
        Err(Error::Record)
    } else {
        composer.decomposed(gb18030_decoded(raw))
    }
}

} // verus!
