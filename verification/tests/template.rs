use liongbot::error::{Error, FormatError};
use liongbot::msg::{at, empty, image, text, ExtBuilder, Msg, MsgBuilder};

fn compound(parts: Vec<Msg>) -> Msg {
    let mut b = MsgBuilder::new();
    for p in parts {
        b.add_msg(p);
    }
    b.build()
}

#[test]
fn construct_example_with_escaped_braces() {
    let msg = Msg::construct("{{{0}}}", &[at(123)]).unwrap();
    assert_eq!(msg, Msg::Compound(vec![text("{"), at(123), text("}")]));
}

#[test]
fn destruct_example_numbers_extensions() {
    let msg = Msg::Compound(vec![text("123"), at(123), text("456"), at(456)]);
    let (template, segments) = msg.destruct();
    assert_eq!(template, "123{0}456{1}");
    assert_eq!(segments, vec![at(123), at(456)]);
}

#[test]
fn construct_unclosed_placeholder() {
    assert_eq!(Msg::construct("{0", &[]), Err(Error::Format(FormatError::UnclosedBrace)));
    assert_eq!(Msg::construct("{", &[text("x")]), Err(Error::Format(FormatError::UnclosedBrace)));
    assert_eq!(Msg::construct("ab{12", &[]), Err(Error::Format(FormatError::UnclosedBrace)));
}

#[test]
fn construct_non_digit_index() {
    assert_eq!(
        Msg::construct("{a}", &[text("x")]),
        Err(Error::Format(FormatError::NonDigitIndex))
    );
    assert_eq!(Msg::construct("{0 }", &[text("x")]), Err(Error::Format(FormatError::NonDigitIndex)));
    assert_eq!(Msg::construct("{1{2}", &[text("x")]), Err(Error::Format(FormatError::NonDigitIndex)));
    assert_eq!(Msg::construct("{-1}", &[text("x")]), Err(Error::Format(FormatError::NonDigitIndex)));
    assert_eq!(Msg::construct("{٣}", &[text("x")]), Err(Error::Format(FormatError::NonDigitIndex)));
}

#[test]
fn construct_dangling_escape() {
    assert_eq!(Msg::construct("}", &[]), Err(Error::Format(FormatError::DanglingEscape)));
    assert_eq!(Msg::construct("a}b", &[]), Err(Error::Format(FormatError::DanglingEscape)));
    assert_eq!(Msg::construct("}{", &[]), Err(Error::Format(FormatError::DanglingEscape)));
    assert_eq!(Msg::construct("}}}", &[]), Err(Error::Format(FormatError::DanglingEscape)));
    assert_eq!(Msg::construct("{0}}", &[at(1)]), Err(Error::Format(FormatError::DanglingEscape)));
}

#[test]
fn construct_index_out_of_range() {
    assert_eq!(Msg::construct("{0}", &[]), Err(Error::Index));
    assert_eq!(Msg::construct("{1}", &[at(1)]), Err(Error::Index));
    assert_eq!(Msg::construct("{}", &[]), Err(Error::Index));
    assert_eq!(
        Msg::construct("{99999999999999999999999999999999999999999999}", &[at(1)]),
        Err(Error::Index)
    );
    assert_eq!(Msg::construct("{18446744073709551616}", &[at(1)]), Err(Error::Index));
}

#[test]
fn construct_first_error_wins() {
    assert_eq!(Msg::construct("{5}{a}", &[]), Err(Error::Index));
    assert_eq!(Msg::construct("{a}{5}", &[]), Err(Error::Format(FormatError::NonDigitIndex)));
    assert_eq!(Msg::construct("{5", &[]), Err(Error::Format(FormatError::UnclosedBrace)));
    assert_eq!(Msg::construct("}{5}", &[]), Err(Error::Format(FormatError::DanglingEscape)));
}

#[test]
fn construct_empty_template_is_empty_text() {
    assert_eq!(Msg::construct("", &[]), Ok(empty()));
    assert_eq!(Msg::construct("", &[at(1), text("x")]), Ok(text("")));
}

#[test]
fn construct_without_parts_is_empty_text() {
    assert_eq!(Msg::construct("{0}", &[text("")]), Ok(text("")));
    assert_eq!(Msg::construct("{0}{0}", &[Msg::Compound(Vec::new())]), Ok(text("")));
}

#[test]
fn construct_plain_text() {
    assert_eq!(Msg::construct("hello", &[]), Ok(text("hello")));
    assert_eq!(Msg::construct("a{{b}}c", &[]), Ok(text("a{b}c")));
    assert_eq!(Msg::construct("{{}}", &[]), Ok(text("{}")));
    assert_eq!(Msg::construct("{{0}}", &[]), Ok(text("{0}")));
}

#[test]
fn construct_empty_index_is_segment_zero() {
    assert_eq!(Msg::construct("{}", &[at(7)]), Ok(at(7)));
    assert_eq!(Msg::construct("a{}", &[at(7), at(8)]), Ok(Msg::Compound(vec![text("a"), at(7)])));
}

#[test]
fn construct_leading_zeros_and_reuse() {
    let segs = [at(0), at(1), at(2), at(3), at(4), at(5), at(6), at(7), at(8), at(9), at(10)];
    assert_eq!(Msg::construct("{0010}", &segs), Ok(at(10)));
    assert_eq!(
        Msg::construct("{10}{1}{10}", &segs),
        Ok(Msg::Compound(vec![at(10), at(1), at(10)]))
    );
}

#[test]
fn construct_folds_text_segments() {
    assert_eq!(Msg::construct("a{0}b", &[text("-")]), Ok(text("a-b")));
    assert_eq!(
        Msg::construct("a{0}b{1}c", &[text("{"), at(1)]),
        Ok(Msg::Compound(vec![text("a{b"), at(1), text("c")]))
    );
}

#[test]
fn construct_splices_compound_one_level() {
    let inner = Msg::Compound(vec![text("x"), Msg::Compound(vec![at(1), text("y")]), at(2)]);
    assert_eq!(
        Msg::construct("a{0}b", &[inner]),
        Ok(Msg::Compound(vec![
            text("a"),
            text("x"),
            Msg::Compound(vec![at(1), text("y")]),
            at(2),
            text("b"),
        ]))
    );
    assert_eq!(Msg::construct("{0}", &[Msg::Compound(vec![at(5)])]), Ok(at(5)));
}

#[test]
fn destruct_of_text_is_the_text_itself() {
    assert_eq!(text("a{b}").destruct(), ("a{b}".to_string(), Vec::new()));
    assert_eq!(empty().destruct(), (String::new(), Vec::new()));
}

#[test]
fn destruct_doubles_braces_in_compounds() {
    let msg = Msg::Compound(vec![text("{"), at(1), text("}")]);
    let (template, segments) = msg.destruct();
    assert_eq!(template, "{{{0}}}");
    assert_eq!(segments, vec![at(1)]);
}

#[test]
fn destruct_walks_nested_compounds() {
    let msg = Msg::Compound(vec![
        at(1),
        Msg::Compound(vec![text("a"), at(2), Msg::Compound(vec![at(3)])]),
        text("b"),
        image("/p"),
    ]);
    let (template, segments) = msg.destruct();
    assert_eq!(template, "{0}a{1}{2}b{3}");
    assert_eq!(segments, vec![at(1), at(2), at(3), image("/p")]);
    assert_eq!(Msg::Compound(Vec::new()).destruct(), (String::new(), Vec::new()));
}

#[test]
fn destruct_numbers_beyond_nine() {
    let mut parts = Vec::new();
    for i in 0..12 {
        parts.push(at(i));
    }
    let (template, segments) = Msg::Compound(parts.clone()).destruct();
    assert_eq!(template, "{0}{1}{2}{3}{4}{5}{6}{7}{8}{9}{10}{11}");
    assert_eq!(segments, parts);
    assert_eq!(Msg::construct(&template, &segments), Ok(Msg::Compound(parts)));
}

#[test]
fn template_round_trip_on_minimal_messages() {
    let ext = ExtBuilder::new("x").with_param("k", "{v}").build();
    let cases = vec![
        text(""),
        text("plain"),
        at(5),
        ext.clone(),
        compound(vec![text("a"), at(1)]),
        compound(vec![at(1), at(2)]),
        compound(vec![text("{{}"), ext.clone(), text("}}{"), at(2), at(3), text("{0}")]),
        compound(vec![at(1), text("}"), at(2), text("{"), at(3)]),
        compound(vec![text("7"), at(1), text("8")]),
    ];
    for m in cases {
        let (template, segments) = m.destruct();
        assert_eq!(Msg::construct(&template, &segments), Ok(m));
    }
}

#[test]
fn template_round_trip_fails_outside_minimal_form() {
    let brace = text("{");
    let (template, segments) = brace.destruct();
    assert_eq!(
        Msg::construct(&template, &segments),
        Err(Error::Format(FormatError::UnclosedBrace))
    );
    let pair = Msg::Compound(vec![text("a"), text("b")]);
    let (template, segments) = pair.destruct();
    assert_eq!(Msg::construct(&template, &segments), Ok(text("ab")));
}
