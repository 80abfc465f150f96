use liongbot::composer::Composer;
use liongbot::msg::{image, text, ExtBuilder, MsgBuilder};
use liongbot::peripheral::coolq::CoolQComposer;
use std::path::PathBuf;

fn make_composer() -> CoolQComposer {
    CoolQComposer::new("C:/")
}

#[test]
fn test_simple() {
    let composer = make_composer();
    let ext = ExtBuilder::new("x").with_param("y", "123").build();
    let raw = "123[CQ:x,y=123]";
    let msg = MsgBuilder::new().with_msg(text("123")).with_msg(ext).build();
    assert_eq!(raw, composer.compose(&msg).unwrap());
    assert_eq!(msg, composer.decompose(&raw).unwrap());
}

#[test]
fn coolq_test_escape() {
    let composer = make_composer();
    let ext = ExtBuilder::new("x").with_param("y", "&[],").build();
    let raw = ",&amp;&#91;&#93;[CQ:x,y=&amp;&#91;&#93;&#44;]";
    let msg = MsgBuilder::new().with_msg(text(",&[]")).with_msg(ext).build();
    assert_eq!(raw, composer.compose(&msg).unwrap());
    assert_eq!(msg, composer.decompose(&raw).unwrap());
}

#[test]
fn test_compose_path_translation() {
    let composer = make_composer();
    let path: PathBuf = ["C:/", "data", "image", "1.jpg"].iter().collect();
    let raw = "[CQ:image,file=1.jpg]";
    let msg = image(&path.to_string_lossy());
    assert_eq!(raw, composer.compose(&msg).unwrap());
    assert_eq!(msg, composer.decompose(&raw).unwrap());
}

use liongbot::error::{Error, FormatError};
use liongbot::msg::{at, record, Msg};
use liongbot::peripheral::coolq::{
    extend_esc, extend_esc_cq, inverse, inverse_cq, join_path, strip_dir,
};

#[test]
fn escapes_in_a_tag_are_undone() {
    let mut out = String::new();
    extend_esc_cq("&[],", &mut out);
    assert_eq!(out, "&amp;&#91;&#93;&#44;");
    assert_eq!(inverse_cq(&out), "&[],");
    let mut spaced = String::new();
    extend_esc_cq("& [ ] ,", &mut spaced);
    assert_eq!(spaced, "&amp; &#91; &#93; &#44;");
    assert_eq!(inverse_cq(&spaced), "& [ ] ,");
}

#[test]
fn escapes_in_text_leave_the_comma() {
    let mut out = "x".to_string();
    extend_esc("&[],", &mut out);
    assert_eq!(out, "x&amp;&#91;&#93;,");
    assert_eq!(inverse("&amp;&#91;&#93;,"), "&[],");
    assert_eq!(inverse("&#44;"), "&#44;");
    assert_eq!(inverse_cq("&#44;"), ",");
}

#[test]
fn unknown_escapes_pass_through() {
    assert_eq!(inverse("&lt;&#92;&amp"), "&lt;&#92;&amp");
    assert_eq!(inverse_cq("&#4;&#444;"), "&#4;&#444;");
    assert_eq!(inverse(""), "");
}

#[test]
fn escapes_are_undone_in_one_pass() {
    assert_eq!(inverse("&amp;#91;"), "&#91;");
    assert_eq!(inverse_cq("&amp;#44;"), "&#44;");
    assert_eq!(inverse("&amp;amp;"), "&amp;");
    assert_eq!(inverse("&amp;amp;#93;"), "&amp;#93;");
    assert_eq!(inverse("&&amp;&#91"), "&&&#91");
    assert_eq!(inverse_cq("&#9&#91;1;"), "&#9[1;");
}

#[test]
fn escaping_is_undone_for_every_text() {
    let samples = [
        "",
        "&",
        "&#91;",
        "&#93;",
        "&#44;",
        "&amp;",
        "&amp;#91;",
        "&&&",
        "[[]],,",
        "a&#4",
        "&#91;&amp;&#93;&#44;&",
        "plain",
        "中[文]&,",
    ];
    for s in samples.iter() {
        let mut text = String::new();
        extend_esc(s, &mut text);
        assert_eq!(inverse(&text), *s);
        let mut field = String::new();
        extend_esc_cq(s, &mut field);
        assert_eq!(inverse_cq(&field), *s);
    }
}

#[test]
fn text_that_holds_a_code_is_read_back() {
    let composer = make_composer();
    let raw = composer.compose(&text("&#91;")).unwrap();
    assert_eq!(raw, "&amp;#91;");
    assert_eq!(composer.decompose(&raw), Ok(text("&#91;")));
    let ext = ExtBuilder::new("&#44;").with_param("&#93;", "&amp;#91;").build();
    let wire = composer.compose(&ext).unwrap();
    assert_eq!(wire, "[CQ:&amp;#44;,&amp;#93;=&amp;amp;#91;]");
    assert_eq!(composer.decompose(&wire), Ok(ext));
}

#[test]
fn decompose_text_without_tags() {
    let composer = make_composer();
    assert_eq!(composer.decompose("hello, world"), Ok(text("hello, world")));
    assert_eq!(composer.decompose(""), Ok(text("")));
    assert_eq!(composer.decompose("a]b[c"), Ok(text("a]b[c")));
    assert_eq!(composer.decompose("[CQ"), Ok(text("[CQ")));
    assert_eq!(composer.decompose("&amp;&#91;CQ:x&#93;"), Ok(text("&[CQ:x]")));
}

#[test]
fn decompose_unclosed_tag() {
    let composer = make_composer();
    assert_eq!(composer.decompose("[CQ:x"), Err(Error::Format(FormatError::UnclosedTag)));
    assert_eq!(composer.decompose("ab[CQ:"), Err(Error::Format(FormatError::UnclosedTag)));
    assert_eq!(
        composer.decompose("[CQ:x,y=1][CQ:z,w=2"),
        Err(Error::Format(FormatError::UnclosedTag))
    );
}

#[test]
fn decompose_missing_value() {
    let composer = make_composer();
    assert_eq!(composer.decompose("[CQ:x,y]"), Err(Error::Format(FormatError::MissingValue)));
    assert_eq!(composer.decompose("[CQ:x,]"), Err(Error::Format(FormatError::MissingValue)));
    assert_eq!(composer.decompose("[CQ:x,a=1,b]"), Err(Error::Format(FormatError::MissingValue)));
    assert_eq!(
        composer.decompose("[CQ:x,y][CQ:z"),
        Err(Error::Format(FormatError::MissingValue))
    );
}

#[test]
fn decompose_tags_and_text() {
    let composer = make_composer();
    assert_eq!(composer.decompose("[CQ:x]"), Ok(ExtBuilder::new("x").build()));
    assert_eq!(composer.decompose("[CQ:]"), Ok(ExtBuilder::new("").build()));
    assert_eq!(
        composer.decompose("a[CQ:at,qq=1]b[CQ:at,qq=2]"),
        Ok(Msg::Compound(vec![text("a"), at(1), text("b"), at(2)]))
    );
    assert_eq!(
        composer.decompose("[CQ:at,qq=1][CQ:at,qq=2]"),
        Ok(Msg::Compound(vec![at(1), at(2)]))
    );
    assert_eq!(
        composer.decompose("[CQ:x,k=a=b,=v]"),
        Ok(ExtBuilder::new("x").with_param("k", "a=b").with_param("", "v").build())
    );
}

#[test]
fn decompose_trims_and_unescapes_fields() {
    let composer = make_composer();
    assert_eq!(
        composer.decompose("[CQ: x , k = v , n= &#44; ]"),
        Ok(ExtBuilder::new("x").with_param("k", "v").with_param("n", ",").build())
    );
    assert_eq!(
        composer.decompose("[CQ:a&#44;b,k&amp;=&#91;v&#93;]"),
        Ok(ExtBuilder::new("a,b").with_param("k&", "[v]").build())
    );
}

#[test]
fn decompose_keeps_the_first_of_equal_keys() {
    let composer = make_composer();
    assert_eq!(
        composer.decompose("[CQ:x,k=1,k=2,a=3]"),
        Ok(ExtBuilder::new("x").with_param("k", "1").with_param("a", "3").build())
    );
}

#[test]
fn compose_writes_params_in_key_order() {
    let composer = make_composer();
    let ext = ExtBuilder::new("x").with_param("b", "2").with_param("a", "1").build();
    assert_eq!(composer.compose(&ext), Ok("[CQ:x,a=1,b=2]".to_string()));
    assert_eq!(composer.compose(&ExtBuilder::new("n").build()), Ok("[CQ:n]".to_string()));
    assert_eq!(composer.compose(&text("")), Ok(String::new()));
    assert_eq!(composer.compose(&Msg::Compound(Vec::new())), Ok(String::new()));
}

#[test]
fn compose_walks_nested_compounds() {
    let composer = make_composer();
    let msg = Msg::Compound(vec![
        text("a"),
        Msg::Compound(vec![at(1), Msg::Compound(vec![text("[b]")])]),
        at(2),
    ]);
    assert_eq!(composer.compose(&msg), Ok("a[CQ:at,qq=1]&#91;b&#93;[CQ:at,qq=2]".to_string()));
}

#[test]
fn compose_file_outside_its_directory() {
    let composer = make_composer();
    assert_eq!(composer.compose(&image("C:/data/record/1.jpg")), Err(Error::Path));
    assert_eq!(composer.compose(&image("1.jpg")), Err(Error::Path));
    assert_eq!(composer.compose(&image("C:/data/image")), Err(Error::Path));
    assert_eq!(composer.compose(&image("C:/data/imagery/1.jpg")), Err(Error::Path));
    let msg = Msg::Compound(vec![text("a"), image("C:/data/image/ok.jpg"), record("/tmp/x")]);
    assert_eq!(composer.compose(&msg), Err(Error::Path));
    assert_eq!(
        composer.compose(&record("C:/data/record/a/b.silk")),
        Ok("[CQ:record,file=a/b.silk]".to_string())
    );
}

#[test]
fn decompose_puts_files_below_their_directory() {
    let composer = CoolQComposer::new("/srv/bot");
    assert_eq!(
        composer.decompose("[CQ:record,file=a/b.silk]"),
        Ok(record("/srv/bot/data/record/a/b.silk"))
    );
    assert_eq!(composer.decompose("[CQ:image,file=/etc/x]"), Ok(image("/etc/x")));
    assert_eq!(
        composer.decompose("[CQ:image,path=1.jpg]"),
        Ok(ExtBuilder::new("image").with_param("path", "1.jpg").build())
    );
    assert_eq!(composer.name(), "composer.coolq");
}

#[test]
fn paths_join_and_strip() {
    assert_eq!(join_path("C:/", "data"), "C:/data");
    assert_eq!(join_path("/a", "b"), "/a/b");
    assert_eq!(join_path("/a/", "b"), "/a/b");
    assert_eq!(join_path("", "b"), "b");
    assert_eq!(join_path("/a", "/b"), "/b");
    assert_eq!(join_path("/a", ""), "/a/");
    assert_eq!(strip_dir("/a/b/c", "/a"), Some("b/c".to_string()));
    assert_eq!(strip_dir("/a/b/c", "/a/"), Some("b/c".to_string()));
    assert_eq!(strip_dir("/a/b/c", "/a/b/c"), None);
    assert_eq!(strip_dir("/ab/c", "/a"), None);
    assert_eq!(strip_dir("/a/", "/a"), Some(String::new()));
    assert_eq!(strip_dir("x", ""), Some("x".to_string()));
}

#[test]
fn tag_round_trip_on_expressible_messages() {
    let composer = CoolQComposer::new("/srv");
    let cases = vec![
        text(""),
        text("plain, with comma = and more"),
        text("&[]&&amp;"),
        text("&#91;&#93;&#44;&amp;#91;"),
        ExtBuilder::new("&#44;").with_param("k&#91;", "&amp;&#93;").build(),
        at(-7),
        image("/srv/data/image/a,b/c[1].jpg"),
        ExtBuilder::new("x,y").with_param("k[", "v]=&").with_param("", "").build(),
        Msg::Compound(vec![text("a"), at(1), at(2), text("b"), record("/srv/data/record/r")]),
        Msg::Compound(vec![at(1), text("[CQ:at,qq=2]")]),
    ];
    for m in cases {
        let raw = composer.compose(&m).unwrap();
        assert_eq!(composer.decompose(&raw), Ok(m));
        let again = composer.decompose(&raw).unwrap();
        assert_eq!(composer.compose(&again), Ok(raw));
    }
}

#[test]
fn valid_wire_texts_are_written_again() {
    let composer = CoolQComposer::new("/srv");
    let wires = [
        "",
        "plain, text = here",
        "&amp;&#91;&#93;,",
        "[CQ:x]",
        "[CQ:]",
        "a[CQ:at,qq=1]b",
        "[CQ:image,file=a/b.jpg][CQ:x,a=1,b=&#44;&amp;]",
        "&amp;#91;[CQ:n&#44;m,=,k&#91;=v=w]&amp;#44;",
    ];
    for w in wires.iter() {
        let m = composer.decompose(w).unwrap();
        assert_eq!(composer.compose(&m), Ok(w.to_string()));
    }
}

#[test]
fn wire_texts_out_of_form_are_rewritten() {
    let composer = CoolQComposer::new("/srv");
    let cases = [
        ("[CQ:x,b=1,a=2]", "[CQ:x,a=2,b=1]"),
        ("[CQ: x , k = v ]", "[CQ:x,k=v]"),
        ("[CQ:x,k=1,k=2]", "[CQ:x,k=1]"),
        ("a]b", "a&#93;b"),
        ("&lt;&#44;", "&amp;lt;&amp;#44;"),
    ];
    for (w, again) in cases.iter() {
        let m = composer.decompose(w).unwrap();
        assert_eq!(composer.compose(&m), Ok(again.to_string()));
    }
}
