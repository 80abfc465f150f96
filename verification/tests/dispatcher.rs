use liongbot::backend::{Backend, BackendMetadata};
use liongbot::composer::Composer;
use liongbot::dispatcher::Dispatcher;
use liongbot::error::Error;
use liongbot::msg::{text, Msg, MsgIn, MsgInView, MsgView};
use liongbot::on_configure;
use std::cell::Cell;
use std::rc::Rc;

struct Fixed {
    takes: bool,
    reply: Option<&'static str>,
    processed: Rc<Cell<u32>>,
}

impl Backend for Fixed {
    fn admits(&self, _msg_in: MsgInView) -> bool {
        self.takes
    }

    fn may_reply(&self, _msg_in: MsgInView, reply: Result<MsgView, Error>) -> bool {
        reply.is_ok() == self.reply.is_some()
    }

    fn metadata(&self) -> BackendMetadata {
        BackendMetadata {
            identity: "test.fixed",
            name: "fixed",
            author: "nobody",
            version: "0",
            description: "answers with a fixed text",
        }
    }

    fn preview(&self, _msg_in: &MsgIn) -> bool {
        self.takes
    }

    fn process(&self, _msg_in: &MsgIn) -> Result<Msg, Error> {
        self.processed.set(self.processed.get() + 1);
        match self.reply {
            Some(reply) => Ok(text(reply)),
            None => Err(Error::Handler),
        }
    }
}

fn inbound() -> MsgIn {
    MsgIn::Private { qq: 1, alias: "a".to_string(), content: text("hello") }
}

#[test]
fn dispatch_skips_rejecting_handler() {
    let a = Rc::new(Cell::new(0));
    let b = Rc::new(Cell::new(0));
    let mut d = Dispatcher::new();
    d.use_backend(Box::new(Fixed { takes: false, reply: Some("A"), processed: a.clone() }), 0);
    d.use_backend(Box::new(Fixed { takes: true, reply: Some("B"), processed: b.clone() }), 0);
    assert_eq!(d.dispatch(inbound()), Some(text("B")));
    assert_eq!(a.get(), 0);
    assert_eq!(b.get(), 1);
}

#[test]
fn dispatch_first_success_wins() {
    let a = Rc::new(Cell::new(0));
    let b = Rc::new(Cell::new(0));
    let c = Rc::new(Cell::new(0));
    let mut d = Dispatcher::new();
    d.use_backend(Box::new(Fixed { takes: true, reply: None, processed: a.clone() }), 5);
    d.use_backend(Box::new(Fixed { takes: true, reply: Some("B"), processed: b.clone() }), 9);
    d.use_backend(Box::new(Fixed { takes: true, reply: Some("C"), processed: c.clone() }), 1);
    assert_eq!(d.dispatch(inbound()), Some(text("B")));
    assert_eq!(a.get(), 1);
    assert_eq!(b.get(), 1);
    assert_eq!(c.get(), 0);
}

#[test]
fn dispatch_without_taker_gives_nothing() {
    let a = Rc::new(Cell::new(0));
    let mut d = Dispatcher::new();
    assert_eq!(d.dispatch(inbound()), None);
    d.use_backend(Box::new(Fixed { takes: false, reply: Some("A"), processed: a.clone() }), 0);
    d.use_backend(Box::new(Fixed { takes: true, reply: None, processed: a.clone() }), 0);
    assert_eq!(d.dispatch(inbound()), None);
    assert_eq!(a.get(), 1);
}

#[test]
fn dispatcher_starts_disabled() {
    let mut d = Dispatcher::new();
    assert!(!d.is_enabled());
    assert!(d.is_disabled());
    d.enable();
    assert!(d.is_enabled());
    assert!(!d.is_disabled());
    d.disable();
    assert!(d.is_disabled());
}

#[test]
fn default_composer_is_plain_text() {
    let d = Dispatcher::new();
    assert_eq!(d.composer().name(), "composer.default");
    let msg = liongbot::msg::MsgBuilder::new()
        .with_msg(text("a["))
        .with_msg(liongbot::msg::at(1))
        .with_msg(text("]b"))
        .build();
    assert_eq!(d.composer().compose(&msg), Ok("a[]b".to_string()));
    assert_eq!(d.composer().decompose("[CQ:at,qq=1]"), Ok(text("[CQ:at,qq=1]")));
}

#[test]
fn configure_installs_tag_codec() {
    let mut d = Dispatcher::new();
    d.enable();
    let d = on_configure(d, "/srv/bot");
    assert!(d.is_enabled());
    assert_eq!(d.composer().name(), "composer.coolq");
    assert_eq!(
        d.composer().decompose("[CQ:image,file=1.jpg]"),
        Ok(liongbot::msg::image("/srv/bot/data/image/1.jpg"))
    );
    liongbot::on_launch();
    liongbot::on_shutdown();
}
