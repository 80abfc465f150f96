//! The dispatcher: one wire codec and the handlers, tried in the order in
//! which they were registered.
use crate::backend::Backend;
use crate::composer::Composer;
use crate::error::Error;
use crate::msg::{lemma_compound_view, msg_views, text, Msg, MsgIn, MsgInView, MsgView};
use vstd::prelude::*;

verus! {

/// The text of the leaves, extensions left out.
pub open spec fn plain_text(leaves: Seq<MsgView>) -> Seq<char>
    decreases leaves.len(),
{
    if leaves.len() == 0 {
        Seq::empty()
    } else {
        plain_text(leaves.drop_last()) + match leaves.last() {
            MsgView::Text(content) => content,
            _ => Seq::empty(),
        }
    }
}

/// The texts of leaves that follow one another.
pub proof fn lemma_plain_text_concat(a: Seq<MsgView>, b: Seq<MsgView>)
    ensures
        plain_text(a + b) == plain_text(a) + plain_text(b),
    decreases b.len(),
{
    if b.len() == 0 {
        assert(a + b =~= a);
        assert(plain_text(a) + plain_text(b) =~= plain_text(a));
    } else {
        lemma_plain_text_concat(a, b.drop_last());
        assert((a + b).drop_last() =~= a + b.drop_last());
        assert((a + b).last() == b.last());
        assert(plain_text(a + b) =~= plain_text(a) + plain_text(b));
    }
}

/// The codec of a dispatcher that was given none: a message is written as
/// its text alone, and a wire text is read as one text.
pub struct DefaultComposer();

impl DefaultComposer {
    fn write(msg: &Msg, out: &mut String)
        ensures
            final(out)@ == old(out)@ + plain_text(msg@.leaves()),
        decreases msg,
    {
        match msg {
            Msg::Text(content) => {
                out.append(content.as_str());
                proof {
                    let l = msg@.leaves();
                    assert(l.drop_last() =~= Seq::<MsgView>::empty());
                    assert(plain_text(l.drop_last()) =~= Seq::<char>::empty());
                    assert(plain_text(l) =~= content@);
                }
            },
            Msg::Compound(parts) => {
                proof {
                    lemma_compound_view(*parts);
                }
                let ghost views = msg_views(parts@);
                let mut i: usize = 0;
                assert(old(out)@ + Seq::<char>::empty() =~= old(out)@);
                while i < parts.len()
                    invariant
                        i <= parts.len(),
                        msg is Compound,
                        msg->Compound_0 == *parts,
                        views == msg_views(parts@),
                        out@ == old(out)@ + plain_text(MsgView::leaves_of(views, i as nat)),
                    decreases parts.len() - i,
                {
                    let ghost done = MsgView::leaves_of(views, i as nat);
                    Self::write(&parts[i], out);
                    proof {
                        lemma_plain_text_concat(done, views[i as int].leaves());
                        assert(out@ =~= old(out)@ + (plain_text(done) + plain_text(
                            views[i as int].leaves(),
                        )));
                    }
                    i += 1;
                }
            },
            Msg::Ext { .. } => {
                proof {
                    let l = msg@.leaves();
                    assert(l.drop_last() =~= Seq::<MsgView>::empty());
                    assert(plain_text(l.drop_last()) =~= Seq::<char>::empty());
                    assert(plain_text(l) =~= Seq::<char>::empty());
                    assert(out@ + plain_text(l) =~= out@);
                }
            },
        }
    }
}

impl Composer for DefaultComposer {
    open spec fn label(&self) -> Seq<char> {
        "composer.default"@
    }

    open spec fn composed(&self, msg: MsgView) -> Result<Seq<char>, Error> {
        Ok(plain_text(msg.leaves()))
    }

    open spec fn decomposed(&self, raw: Seq<char>) -> Result<MsgView, Error> {
        Ok(MsgView::Text(raw))
    }

    fn name(&self) -> (r: &'static str) {
        "composer.default"
    }

    fn compose(&self, msg: &Msg) -> (r: Result<String, Error>) {
        let mut out = String::new();
        Self::write(msg, &mut out);
        assert(out@ =~= plain_text(msg@.leaves()));
        Ok(out)
    }

    fn decompose(&self, raw: &str) -> (r: Result<Msg, Error>) {
        Ok(text(raw))
    }
}

/// Whether `reply` is what the handlers, tried in order, give for the
/// message: an answer of the first handler that takes the message and does
/// not fail on it, every handler before it either not taking the message or
/// failing; or nothing, where every handler does the one or the other.
pub open spec fn routed(
    handlers: Seq<Box<dyn Backend>>,
    msg_in: MsgInView,
    reply: Option<MsgView>,
) -> bool {
    match reply {
        Some(m) => exists|i: int|
            0 <= i < handlers.len() && (#[trigger] handlers[i]).admits(msg_in) && handlers[i].may_reply(
                msg_in,
                Ok::<MsgView, Error>(m),
            ) && forall|j: int|
                0 <= j < i ==> (!(#[trigger] handlers[j]).admits(msg_in) || exists|e: Error|
                    handlers[j].may_reply(msg_in, Err::<MsgView, Error>(e))),
        None => forall|j: int|
            0 <= j < handlers.len() ==> (!(#[trigger] handlers[j]).admits(msg_in) || exists|
                e: Error,
            |
                handlers[j].may_reply(msg_in, Err::<MsgView, Error>(e))),
    }
}

/// Where no handler before `k` takes the message, and the handler at `k`
/// takes it and cannot fail on it, the reply is an answer of that handler.
pub proof fn lemma_first_admitting_answers(
    handlers: Seq<Box<dyn Backend>>,
    msg_in: MsgInView,
    reply: Option<MsgView>,
    k: int,
)
    requires
        routed(handlers, msg_in, reply),
        0 <= k < handlers.len(),
        forall|j: int| 0 <= j < k ==> !(#[trigger] handlers[j]).admits(msg_in),
        handlers[k].admits(msg_in),
        forall|e: Error| !handlers[k].may_reply(msg_in, Err::<MsgView, Error>(e)),
    ensures
        reply matches Some(m) && handlers[k].may_reply(msg_in, Ok::<MsgView, Error>(m)),
{
    match reply {
        Some(m) => {
            let i = choose|i: int|
                0 <= i < handlers.len() && (#[trigger] handlers[i]).admits(msg_in)
                    && handlers[i].may_reply(msg_in, Ok::<MsgView, Error>(m)) && forall|j: int|
                    0 <= j < i ==> (!(#[trigger] handlers[j]).admits(msg_in) || exists|e: Error|
                        handlers[j].may_reply(msg_in, Err::<MsgView, Error>(e)));
            if i < k {
                assert(!handlers[i].admits(msg_in));
            } else if k < i {
                assert(!handlers[k].admits(msg_in) || exists|e: Error|
                    handlers[k].may_reply(msg_in, Err::<MsgView, Error>(e)));
            }
        },
        None => {
            assert(!handlers[k].admits(msg_in) || exists|e: Error|
                handlers[k].may_reply(msg_in, Err::<MsgView, Error>(e)));
        },
    }
}

/// Routes inbound messages to the handlers. It holds the one wire codec in
/// use, the handlers in the order in which they were registered, and a flag
/// that tells the bridge whether to hand messages in at all.
pub struct Dispatcher<C: Composer> {
    composer: C,
    enabled: bool,
    backends: Vec<Box<dyn Backend>>,
}

impl Dispatcher<DefaultComposer> {
    /// A dispatcher that is disabled, without handlers, with the codec that
    /// writes a message as its text alone.
    pub fn new() -> (d: Dispatcher<DefaultComposer>)
        ensures
            !d.enabled(),
            d.handlers().len() == 0,
            d.codec() == DefaultComposer(),
    {
        Dispatcher { composer: DefaultComposer(), enabled: false, backends: Vec::new() }
    }
}

impl<C: Composer> Dispatcher<C> {
    /// The handlers, in the order in which they are tried.
    pub closed spec fn handlers(&self) -> Seq<Box<dyn Backend>> {
        self.backends@
    }

    /// The wire codec in use.
    pub closed spec fn codec(&self) -> C {
        self.composer
    }

    /// Whether the dispatcher is enabled.
    pub closed spec fn enabled(&self) -> bool {
        self.enabled
    }

    /// Whether the dispatcher is enabled.
    pub fn is_enabled(&self) -> (b: bool)
        ensures
            b == self.enabled(),
    {
        self.enabled
    }

    /// Whether the dispatcher is disabled.
    pub fn is_disabled(&self) -> (b: bool)
        ensures
            b == !self.enabled(),
    {
        !self.enabled
    }

    /// Enables the dispatcher; the codec and the handlers stay.
    pub fn enable(&mut self)
        ensures
            final(self).enabled(),
            final(self).handlers() == old(self).handlers(),
            final(self).codec() == old(self).codec(),
    {
        self.enabled = true;
    }

    /// Disables the dispatcher; the codec and the handlers stay.
    pub fn disable(&mut self)
        ensures
            !final(self).enabled(),
            final(self).handlers() == old(self).handlers(),
            final(self).codec() == old(self).codec(),
    {
        self.enabled = false;
    }

    /// The wire codec in use.
    pub fn composer(&self) -> (c: &C)
        ensures
            *c == self.codec(),
    {
        &self.composer
    }

    /// The dispatcher with another wire codec; the handlers and the flag
    /// stay.
    pub fn use_composer<D: Composer>(self, composer: D) -> (d: Dispatcher<D>)
        ensures
            d.codec() == composer,
            d.handlers() == self.handlers(),
            d.enabled() == self.enabled(),
    {
        Dispatcher { composer, enabled: self.enabled, backends: self.backends }
    }

    /// Registers a handler behind those that are registered; `priority`
    /// does not change the order.
    pub fn use_backend(&mut self, backend: Box<dyn Backend>, priority: i32)
        ensures
            final(self).handlers() == old(self).handlers().push(backend),
            final(self).codec() == old(self).codec(),
            final(self).enabled() == old(self).enabled(),
    {
        self.backends.push(backend);
    }

    /// Hands the message to the handlers in order and gives the answer of
    /// the first that takes it and succeeds. A handler that does not take
    /// the message is not asked to process it.
    pub fn dispatch(&self, msg_in: MsgIn) -> (r: Option<Msg>)
        ensures
            routed(
                self.handlers(),
                msg_in@,
                match r {
                    Some(m) => Some(m@),
                    None => None,
                },
            ),
    {
        let mut i: usize = 0;
        while i < self.backends.len()
            invariant
                i <= self.backends.len(),
                forall|j: int|
                    0 <= j < i ==> (!(#[trigger] self.backends@[j]).admits(msg_in@) || exists|
                        e: Error,
                    |
                        self.backends@[j].may_reply(msg_in@, Err::<MsgView, Error>(e))),
            decreases self.backends.len() - i,
        {
            if self.backends[i].preview(&msg_in) {
                match self.backends[i].process(&msg_in) {
                    Ok(reply) => {
                        return Some(reply);
                    },
                    Err(e) => {
                        assert(self.backends@[i as int].may_reply(
                            msg_in@,
                            Err::<MsgView, Error>(e),
                        ));
                    },
                }
            }
            i += 1;
        }
        None
    }
}

} // verus!
