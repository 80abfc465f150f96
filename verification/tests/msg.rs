use liongbot::msg::{at, empty, image, record, text, ExtBuilder, Msg, MsgBuilder};

#[test]
fn test_shortcut() {
    assert_eq!(text("123"), Msg::Text("123".to_string()));
    assert_eq!(at(123), ExtBuilder::new("at").with_param("qq", "123").build());
    assert_eq!(
        image("./image.jpg"),
        ExtBuilder::new("image").with_param("file", "./image.jpg").build()
    );
    assert_eq!(
        record("./record.silk"),
        ExtBuilder::new("record").with_param("file", "./record.silk").build()
    );
}

#[test]
fn test_construct() {
    let text_msg = text("123");
    let text_construct = Msg::construct("{0}", &vec![text_msg.clone()]);
    assert_eq!(text_msg, text_construct.unwrap());
    let ext_msg = at(123);
    let ext_construct = Msg::construct("{0}", &vec![ext_msg.clone()]);
    assert_eq!(ext_msg, ext_construct.unwrap());
    let cpd_msg = MsgBuilder::new().with_msg(text("123123")).with_msg(ext_msg.clone()).build();
    let cpd_construct = Msg::construct("123{0}{1}", &vec![text_msg, ext_msg]);
    assert_eq!(cpd_msg, cpd_construct.unwrap());
}

#[test]
fn test_destruct() {
    let (fmt, msgs) = MsgBuilder::new()
        .with_msg(text("123"))
        .with_msg(at(123))
        .with_msg(text("456"))
        .with_msg(at(456))
        .build()
        .destruct();
    assert_eq!(fmt, "123{0}456{1}");
    assert_eq!(msgs, vec![at(123), at(456)]);
    let (fmt, msgs) = at(123).destruct();
    assert_eq!(fmt, "{0}");
    assert_eq!(msgs, vec![at(123)]);
    let (fmt, msgs) = text("123").destruct();
    assert_eq!(fmt, "123");
    assert_eq!(msgs, Vec::new());
}

#[test]
fn msg_test_escape() {
    let (fmt, _) = MsgBuilder::new()
        .with_msg(text("{{}"))
        .with_msg(at(123))
        .with_msg(text("}}{"))
        .build()
        .destruct();
    assert_eq!(fmt, "{{{{}}{0}}}}}{{");

    let msg = Msg::construct("{{{0}}}", &vec![at(123)]);
    assert_eq!(
        msg.unwrap(),
        MsgBuilder::new().with_msg(text("{")).with_msg(at(123)).with_msg(text("}")).build()
    );
}

#[test]
fn test_starts_with() {
    assert_eq!(empty().starts_with(""), true);
    assert_eq!(empty().starts_with("123"), false);
    assert_eq!(text("123").starts_with(""), true);
    assert_eq!(at(1).starts_with(""), true);
    assert_eq!(at(1).starts_with("1"), false);
    let msg = MsgBuilder::new().with_msg(text("123")).with_msg(at(1)).build();
    assert_eq!(msg.starts_with("123"), true);
    assert_eq!(msg.starts_with("122"), false);
}

#[test]
fn builder_merges_adjacent_texts() {
    let merged = MsgBuilder::new().with_msg(text("a")).with_msg(text("b")).build();
    assert_eq!(merged, Msg::Text("ab".to_string()));
    assert_eq!(merged, text("ab"));
    let three = MsgBuilder::new()
        .with_msg(at(1))
        .with_msg(text("a"))
        .with_msg(text("b"))
        .with_msg(text("c"))
        .build();
    assert_eq!(three, Msg::Compound(vec![at(1), text("abc")]));
}

#[test]
fn builder_splices_compounds() {
    let inner = Msg::Compound(vec![text("b"), at(2)]);
    let built = MsgBuilder::new().with_msg(text("a")).with_msg(inner).with_msg(at(3)).build();
    assert_eq!(built, Msg::Compound(vec![text("a"), text("b"), at(2), at(3)]));
    let nested = Msg::Compound(vec![Msg::Compound(vec![at(1)])]);
    let kept = MsgBuilder::new().with_msg(nested).build();
    assert_eq!(kept, Msg::Compound(vec![at(1)]));
}

#[test]
fn builder_of_nothing_and_of_one() {
    assert_eq!(MsgBuilder::new().build(), empty());
    assert_eq!(MsgBuilder::new().with_msg(at(9)).build(), at(9));
    assert_eq!(MsgBuilder::new().with_msg(text("")).build(), text(""));
    assert_eq!(MsgBuilder::new().with_msg(Msg::Compound(Vec::new())).build(), empty());
    let mut b = MsgBuilder::new();
    b.add_msg(text("x"));
    b.add_msg(at(1));
    assert_eq!(b.build(), Msg::Compound(vec![text("x"), at(1)]));
    assert_eq!(Msg::of_parts(vec![text("a"), text("b")]), Msg::Compound(vec![text("a"), text("b")]));
    assert_eq!(Msg::of_parts(vec![at(1)]), at(1));
    assert_eq!(Msg::of_parts(Vec::new()), empty());
}

#[test]
fn at_writes_the_number_in_decimal() {
    assert_eq!(at(0), ExtBuilder::new("at").with_param("qq", "0").build());
    assert_eq!(at(-42), ExtBuilder::new("at").with_param("qq", "-42").build());
    assert_eq!(
        at(i64::MIN),
        ExtBuilder::new("at").with_param("qq", "-9223372036854775808").build()
    );
    assert_eq!(
        at(i64::MAX),
        ExtBuilder::new("at").with_param("qq", "9223372036854775807").build()
    );
    assert_ne!(at(1), at(2));
}

#[test]
fn params_are_kept_in_order_each_key_once() {
    let a = ExtBuilder::new("x").with_param("b", "2").with_param("a", "1").with_param("c", "3").build();
    let b = ExtBuilder::new("x").with_param("c", "3").with_param("b", "2").with_param("a", "1").build();
    assert_eq!(a, b);
    match &a {
        Msg::Ext { name, params } => {
            assert_eq!(name, "x");
            assert_eq!(params.len(), 3);
            assert_eq!(params.key(0), "a");
            assert_eq!(params.value(0), "1");
            assert_eq!(params.key(1), "b");
            assert_eq!(params.key(2), "c");
            assert_eq!(params.value(2), "3");
            assert_eq!(params.get("b"), Some(&"2".to_string()));
            assert_eq!(params.get("d"), None);
            assert_eq!(params.get(""), None);
        }
        _ => panic!("an extension was expected"),
    }
    let first = ExtBuilder::new("x").with_param("k", "1").with_param("k", "2").build();
    assert_eq!(first, ExtBuilder::new("x").with_param("k", "1").build());
    let mut builder = ExtBuilder::new("y");
    builder.add_param("ab", "1");
    builder.add_param("a", "2");
    builder.add_param("", "3");
    builder.add_param("B", "4");
    match builder.build() {
        Msg::Ext { params, .. } => {
            let keys: Vec<&str> = (0..params.len()).map(|i| params.key(i).as_str()).collect();
            assert_eq!(keys, vec!["", "B", "a", "ab"]);
        }
        _ => panic!("an extension was expected"),
    }
}

#[test]
fn params_on_their_own() {
    let mut p = liongbot::msg::Params::new();
    assert_eq!(p.len(), 0);
    p.add("z", "26");
    p.add("m", "13");
    p.add("z", "0");
    assert_eq!(p.len(), 2);
    assert_eq!(p.key(0), "m");
    assert_eq!(p.get("z"), Some(&"26".to_string()));
    let q = p.clone();
    assert!(p == q);
    let mut r = q.clone();
    r.add("a", "1");
    assert!(p != r);
}

#[test]
fn messages_compare_by_what_they_hold() {
    assert_eq!(text("a"), text("a"));
    assert_ne!(text("a"), text("b"));
    assert_ne!(text("a"), at(1));
    assert_ne!(text(""), Msg::Compound(Vec::new()));
    assert_ne!(Msg::Compound(vec![text("a")]), text("a"));
    assert_eq!(Msg::Compound(vec![text("a"), at(1)]), Msg::Compound(vec![text("a"), at(1)]));
    assert_ne!(Msg::Compound(vec![text("a"), at(1)]), Msg::Compound(vec![text("a"), at(2)]));
    assert_ne!(Msg::Compound(vec![text("a"), at(1)]), Msg::Compound(vec![text("a")]));
    assert_ne!(image("/a"), record("/a"));
    assert_ne!(image("/a"), image("/b"));
    let m = Msg::Compound(vec![text("a"), Msg::Compound(vec![at(1), image("/x")])]);
    assert_eq!(m.clone(), m);
}

#[test]
fn starts_with_looks_at_the_first_part_only() {
    let nested = Msg::Compound(vec![Msg::Compound(vec![text("hello"), at(1)]), text("x")]);
    assert!(nested.starts_with("hel"));
    assert!(!nested.starts_with("hellox"));
    let ext_first = Msg::Compound(vec![at(1), text("hello")]);
    assert!(ext_first.starts_with(""));
    assert!(!ext_first.starts_with("h"));
    assert!(Msg::Compound(Vec::new()).starts_with(""));
    assert!(!Msg::Compound(Vec::new()).starts_with("a"));
    assert!(text("中文").starts_with("中"));
}

#[test]
fn inbound_kinds() {
    let p = liongbot::msg::MsgIn::Private { qq: 1, alias: "a".to_string(), content: text("x") };
    let g = liongbot::msg::MsgIn::Group {
        grp: 2,
        qq: 1,
        alias: "a".to_string(),
        grp_alias: "g".to_string(),
        content: text("x"),
    };
    assert!(p.is_priv());
    assert!(!p.is_grp());
    assert!(g.is_grp());
    assert!(!g.is_priv());
}

#[test]
fn message_from_text() {
    assert_eq!(Msg::from("hello"), text("hello"));
    assert_eq!(Msg::from("hello".to_string()), text("hello"));
    assert_eq!(Msg::from(String::new()), empty());
    assert_eq!(Msg::from(""), empty());
    let built = MsgBuilder::new().with_msg(Msg::from("a")).with_msg(at(1)).build();
    assert_eq!(built, Msg::Compound(vec![text("a"), at(1)]));
}
