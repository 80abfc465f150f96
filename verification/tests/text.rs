use liongbot::text::{
    char_digit_value, char_is_digit, find, index_of_from, is_whitespace, occurs_at_index,
    push_chars, push_decimal, push_signed_decimal, rank, same_chars, same_text, slice,
    split_at_each, starts_with, string_of, substring, to_chars, trimmed, Rank,
};

fn chars(s: &str) -> Vec<char> {
    s.chars().collect()
}

#[test]
fn white_space_is_what_std_calls_white_space() {
    for n in 0u32..=0x10FFFF {
        if let Some(c) = char::from_u32(n) {
            assert_eq!(is_whitespace(c), c.is_whitespace(), "U+{:04X}", n);
        }
    }
}

#[test]
fn to_chars_and_back() {
    assert_eq!(to_chars("a中b"), vec!['a', '中', 'b']);
    assert_eq!(to_chars(""), Vec::<char>::new());
    assert_eq!(string_of(&chars("a中b")), "a中b");
    assert_eq!(substring(&chars("hello"), 1, 3), "el");
    assert_eq!(substring(&chars("hello"), 2, 2), "");
    assert_eq!(slice(&chars("hello"), 1, 4), chars("ell"));
    let mut s = "x".to_string();
    push_chars(&mut s, &chars("yz"));
    assert_eq!(s, "xyz");
}

#[test]
fn same_text_compares_characters() {
    assert!(same_text("file", "file"));
    assert!(!same_text("file", "fil"));
    assert!(!same_text("file", "fiLe"));
    assert!(same_text("", ""));
    assert!(same_chars(&chars("ab"), &chars("ab")));
    assert!(!same_chars(&chars("ab"), &chars("ba")));
}

#[test]
fn digits_and_decimals() {
    assert!(char_is_digit('0'));
    assert!(char_is_digit('9'));
    assert!(!char_is_digit('a'));
    assert!(!char_is_digit('٣'));
    assert_eq!(char_digit_value('7'), 7);
    let mut s = String::new();
    push_decimal(&mut s, 0);
    assert_eq!(s, "0");
    push_decimal(&mut s, 1234567890);
    assert_eq!(s, "01234567890");
    let mut t = String::new();
    push_decimal(&mut t, u64::MAX);
    assert_eq!(t, "18446744073709551615");
    let mut u = String::new();
    push_signed_decimal(&mut u, -5);
    push_signed_decimal(&mut u, 0);
    push_signed_decimal(&mut u, 17);
    assert_eq!(u, "-5017");
    let mut v = String::new();
    push_signed_decimal(&mut v, i64::MIN);
    assert_eq!(v, "-9223372036854775808");
    let mut w = String::new();
    push_signed_decimal(&mut w, i64::MAX);
    assert_eq!(w, "9223372036854775807");
}

#[test]
fn rank_is_the_order_of_strings() {
    assert_eq!(rank(&chars("a"), &chars("b")), Rank::Before);
    assert_eq!(rank(&chars("b"), &chars("a")), Rank::After);
    assert_eq!(rank(&chars("ab"), &chars("ab")), Rank::Same);
    assert_eq!(rank(&chars("ab"), &chars("abc")), Rank::Before);
    assert_eq!(rank(&chars("abc"), &chars("ab")), Rank::After);
    assert_eq!(rank(&chars(""), &chars("")), Rank::Same);
    assert_eq!(rank(&chars("Z"), &chars("a")), Rank::Before);
    let words = ["", "a", "ab", "b", "file", "qq", "中", "z", "\u{10000}"];
    for x in words.iter() {
        for y in words.iter() {
            let expected = if x < y {
                Rank::Before
            } else if x == y {
                Rank::Same
            } else {
                Rank::After
            };
            assert_eq!(rank(&chars(x), &chars(y)), expected);
        }
    }
}

#[test]
fn starts_with_is_prefix() {
    assert!(starts_with("hello", "he"));
    assert!(starts_with("hello", ""));
    assert!(starts_with("hello", "hello"));
    assert!(!starts_with("hello", "hello!"));
    assert!(!starts_with("hello", "el"));
    assert!(!starts_with("", "a"));
    assert!(starts_with("", ""));
}

#[test]
fn find_gives_first_occurrence() {
    let v = chars("ab[CQ:x][CQ:y]");
    let pat = chars("[CQ:");
    assert_eq!(find(&v, &pat, 0), Some(2));
    assert_eq!(find(&v, &pat, 2), Some(2));
    assert_eq!(find(&v, &pat, 3), Some(8));
    assert_eq!(find(&v, &pat, 9), None);
    assert_eq!(find(&v, &pat, 100), None);
    assert_eq!(find(&chars("[CQ"), &pat, 0), None);
    assert!(occurs_at_index(&v, &pat, 8));
    assert!(!occurs_at_index(&v, &pat, 7));
    assert_eq!(index_of_from(&v, ']', 0), 7);
    assert_eq!(index_of_from(&v, ']', 8), 13);
    assert_eq!(index_of_from(&v, '!', 0), 14);
}

#[test]
fn trimmed_drops_white_space_at_both_ends() {
    assert_eq!(trimmed(&chars("  a b \t\n")), chars("a b"));
    assert_eq!(trimmed(&chars("a")), chars("a"));
    assert_eq!(trimmed(&chars("   ")), chars(""));
    assert_eq!(trimmed(&chars("")), chars(""));
    assert_eq!(trimmed(&chars("\u{3000}x\u{A0}")), chars("x"));
    for s in ["  a b \t\n", " ", "", "x", "\u{2003}y z\u{85}"].iter() {
        assert_eq!(string_of(&trimmed(&chars(s))), s.trim());
    }
}

#[test]
fn split_cuts_at_every_separator() {
    assert_eq!(split_at_each(&chars("a,b,c"), ','), vec![chars("a"), chars("b"), chars("c")]);
    assert_eq!(split_at_each(&chars("abc"), ','), vec![chars("abc")]);
    assert_eq!(split_at_each(&chars(""), ','), vec![chars("")]);
    assert_eq!(split_at_each(&chars(",a,"), ','), vec![chars(""), chars("a"), chars("")]);
    for s in ["a,b,c", "", ",", ",,x", "no"].iter() {
        let expected: Vec<Vec<char>> = s.split(',').map(|p| p.chars().collect()).collect();
        assert_eq!(split_at_each(&chars(s), ','), expected);
    }
}

#[test]
fn helpers_agree_with_the_strings_of_std() {
    let samples = ["", "a", "&amp;", "&amp;&#91;x&#93;", "aaaa", "abcabcab", "[CQ:x][CQ:", "no match"];
    let patterns = ["a", "aa", "&amp;", "abc", "[CQ:", "]", "zz"];
    for s in samples.iter() {
        for p in patterns.iter() {
            assert_eq!(find(&chars(s), &chars(p), 0), s.find(p));
            assert_eq!(starts_with(s, p), s.starts_with(p));
        }
    }
}
