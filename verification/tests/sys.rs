use bytes::{Bytes, IntoBuf};
use liongbot::dispatcher::DefaultComposer;
use liongbot::error::Error;
use liongbot::msg::{text, MsgIn};
use liongbot::peripheral::coolq::CoolQComposer;
use liongbot::sys::{
    encode_text, get_bytes, get_string, grp_msg_in, make_grp_msg_in, make_priv_msg_in,
    priv_msg_in, receive, skip_bytes, skip_string, zero_free,
};

#[test]
fn get_bytes_stops_at_zero() {
    let mut b = Bytes::from(vec![1u8, 2, 0, 3, 0]).into_buf();
    assert_eq!(get_bytes(&mut b), Some(vec![1u8, 2]));
    assert_eq!(get_bytes(&mut b), Some(vec![3u8]));
    assert_eq!(get_bytes(&mut b), None);
}

#[test]
fn get_bytes_without_zero_gives_nothing() {
    let mut b = Bytes::from(vec![1u8, 2, 3]).into_buf();
    assert_eq!(get_bytes(&mut b), None);
    assert_eq!(get_bytes(&mut b), None);
}

#[test]
fn skip_string_moves_behind_zero() {
    let mut b = Bytes::from(vec![b'a', b'b', 0, b'c', 0]).into_buf();
    assert!(skip_string(&mut b));
    assert_eq!(get_string(&mut b), Some("c".to_string()));
    assert!(!skip_string(&mut b));
}

#[test]
fn skip_bytes_only_within_what_is_left() {
    let mut b = Bytes::from(vec![b'a', b'b', 0]).into_buf();
    assert!(!skip_bytes(&mut b, 4));
    assert!(skip_bytes(&mut b, 1));
    assert_eq!(get_string(&mut b), Some("b".to_string()));
    assert!(skip_bytes(&mut b, 0));
    assert!(!skip_bytes(&mut b, 1));
}

#[test]
fn skip_bytes_by_nothing_on_any_cursor() {
    let mut b = Bytes::from(vec![b'a', 0]).into_buf();
    b.set_position(5);
    assert!(skip_bytes(&mut b, 0));
    assert_eq!(b.position(), 5);
    assert!(!skip_bytes(&mut b, 1));
    assert_eq!(get_bytes(&mut b), None);
    let mut c = Bytes::from(vec![b'a', 0]).into_buf();
    assert!(skip_bytes(&mut c, 0));
    assert_eq!(get_string(&mut c), Some("a".to_string()));
}

#[test]
fn get_string_decodes_gb18030() {
    let mut b = Bytes::from(vec![214u8, 208, 206, 196, 0, b'x']).into_buf();
    assert_eq!(get_string(&mut b), Some("中文".to_string()));
    assert_eq!(get_string(&mut b), None);
}

#[test]
fn private_record_gives_alias() {
    let raw = vec![0u8, 0, 0, 0, 0, 0, 48, 57, 214, 208, 206, 196, 0, 114, 101, 115, 116];
    match priv_msg_in(12345, raw, text("hi")) {
        Ok(MsgIn::Private { qq, alias, content }) => {
            assert_eq!(qq, 12345);
            assert_eq!(alias, "中文");
            assert_eq!(content, text("hi"));
        }
        _ => panic!("a private message was expected"),
    }
}

#[test]
fn private_record_too_short() {
    assert!(matches!(priv_msg_in(1, vec![0u8; 7], text("hi")), Err(Error::Record)));
    assert!(matches!(priv_msg_in(1, vec![1u8; 12], text("hi")), Err(Error::Record)));
}

#[test]
fn private_record_in_base64() {
    match make_priv_msg_in(12345, b"AAAAAAAAMDnW0M7EAHJlc3Q=", text("hi")) {
        Ok(MsgIn::Private { qq, alias, content }) => {
            assert_eq!(qq, 12345);
            assert_eq!(alias, "中文");
            assert_eq!(content, text("hi"));
        }
        _ => panic!("a private message was expected"),
    }
    assert!(matches!(make_priv_msg_in(1, b"!!!!", text("hi")), Err(Error::Record)));
}

#[test]
fn group_record_gives_both_aliases() {
    let mut raw: Vec<u8> = (0u8..16).collect();
    raw.extend_from_slice(b"alice\0");
    raw.extend_from_slice(&[200, 186, 0]);
    match grp_msg_in(7, 8, raw, text("yo")) {
        Ok(MsgIn::Group { grp, qq, alias, grp_alias, content }) => {
            assert_eq!(grp, 7);
            assert_eq!(qq, 8);
            assert_eq!(alias, "alice");
            assert_eq!(grp_alias, "群");
            assert_eq!(content, text("yo"));
        }
        _ => panic!("a group message was expected"),
    }
}

#[test]
fn group_record_in_base64() {
    match make_grp_msg_in(7, 8, b"AAECAwQFBgcICQoLDA0OD2FsaWNlAMi6AA==", text("yo")) {
        Ok(MsgIn::Group { alias, grp_alias, .. }) => {
            assert_eq!(alias, "alice");
            assert_eq!(grp_alias, "群");
        }
        _ => panic!("a group message was expected"),
    }
    let mut short: Vec<u8> = (0u8..16).collect();
    short.extend_from_slice(b"alice\0");
    assert!(matches!(grp_msg_in(7, 8, short, text("yo")), Err(Error::Record)));
}

#[test]
fn encode_text_gives_gb18030() {
    assert_eq!(encode_text("中文"), Some(vec![214u8, 208, 206, 196]));
    assert_eq!(encode_text("a\0b"), None);
    assert_eq!(encode_text(""), Some(Vec::new()));
}

#[test]
fn zero_free_finds_zero() {
    assert!(zero_free(&vec![1u8, 2, 3]));
    assert!(!zero_free(&vec![1u8, 0, 3]));
    assert!(zero_free(&Vec::new()));
}

#[test]
fn receive_decodes_then_decomposes() {
    let plain = DefaultComposer();
    assert_eq!(receive(&plain, &[214u8, 208, 206, 196]), Ok(text("中文")));
    let coolq = CoolQComposer::new("/srv");
    assert_eq!(receive(&coolq, b"a&amp;b"), Ok(text("a&b")));
    assert_eq!(
        receive(&coolq, b"[CQ:x"),
        Err(Error::Format(liongbot::error::FormatError::UnclosedTag))
    );
}
