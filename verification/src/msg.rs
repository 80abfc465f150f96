//! The message model: text, extensions with their parameters, and
//! compounds of both; the builders that keep messages minimal.
use crate::text::{
    lemma_precedes_irreflexive, lemma_precedes_transitive, precedes, push_signed_decimal, rank,
    signed_decimal, starts_with, to_chars, Rank,
};
use vstd::prelude::*;

verus! {

/// What a parameter list holds: pairs of key and value.
pub type Entries = Seq<(Seq<char>, Seq<char>)>;

/// Whether the keys stand in the order of strings, each key once.
pub open spec fn ordered(s: Entries) -> bool {
    forall|i: int, j: int| 0 <= i < j < s.len() ==> precedes(#[trigger] s[i].0, #[trigger] s[j].0)
}

/// Whether `key` is among the keys of `s`.
pub open spec fn has_key(s: Entries, key: Seq<char>) -> bool {
    exists|i: int| 0 <= i < s.len() && #[trigger] s[i].0 == key
}

/// The value that `s` holds for `key`.
pub open spec fn value_of(s: Entries, key: Seq<char>) -> Option<Seq<char>> {
    if has_key(s, key) {
        Some(s[choose|i: int| 0 <= i < s.len() && #[trigger] s[i].0 == key].1)
    } else {
        None
    }
}

/// `s` with `key` bound to `value` at the place that the order of strings
/// gives it, unless `s` holds `key` already: then `s` itself.
pub open spec fn with_entry(s: Entries, key: Seq<char>, value: Seq<char>) -> Entries
    decreases s.len(),
{
    if s.len() == 0 {
        seq![(key, value)]
    } else if s.last().0 == key {
        s
    } else if precedes(s.last().0, key) {
        s.push((key, value))
    } else {
        with_entry(s.drop_last(), key, value).push(s.last())
    }
}

/// An ordered list without its last entry is ordered.
pub proof fn lemma_ordered_front(s: Entries)
    requires
        ordered(s),
        s.len() > 0,
    ensures
        ordered(s.drop_last()),
{
    let front = s.drop_last();
    assert forall|i: int, j: int| 0 <= i < j < front.len() implies precedes(
        #[trigger] front[i].0,
        #[trigger] front[j].0,
    ) by {
        assert(front[i] == s[i] && front[j] == s[j]);
    }
}

/// In an ordered list a new key goes to the first place whose key does not
/// come before it, and the list stays ordered.
pub proof fn lemma_with_entry_at(s: Entries, key: Seq<char>, value: Seq<char>, at: int)
    requires
        ordered(s),
        0 <= at <= s.len(),
        forall|i: int| 0 <= i < at ==> precedes(#[trigger] s[i].0, key),
        at < s.len() ==> precedes(key, s[at].0),
    ensures
        with_entry(s, key, value) == s.insert(at, (key, value)),
        ordered(s.insert(at, (key, value))),
        !has_key(s, key),
    decreases s.len(),
{
    let r = s.insert(at, (key, value));
    assert forall|i: int| at <= i < s.len() implies precedes(key, #[trigger] s[i].0) by {
        if at < i {
            lemma_precedes_transitive(key, s[at].0, s[i].0);
        }
    }
    assert forall|i: int| 0 <= i < s.len() implies #[trigger] s[i].0 != key by {
        lemma_precedes_irreflexive(key);
    }
    assert(ordered(r)) by {
        assert forall|i: int, j: int| 0 <= i < j < r.len() implies precedes(
            #[trigger] r[i].0,
            #[trigger] r[j].0,
        ) by {
            if i < at && j > at {
                assert(r[i] == s[i] && r[j] == s[j - 1]);
            } else if i < at && j < at {
                assert(r[i] == s[i] && r[j] == s[j]);
            } else if i > at {
                assert(r[i] == s[i - 1] && r[j] == s[j - 1]);
            } else if i == at {
                assert(r[j] == s[j - 1]);
            } else {
                assert(r[i] == s[i]);
            }
        }
    }
    if s.len() == 0 {
        assert(r =~= seq![(key, value)]);
    } else if at == s.len() {
        assert(r =~= s.push((key, value)));
    } else {
        let last = s.last();
        assert(precedes(key, last.0));
        if precedes(last.0, key) {
            lemma_precedes_transitive(key, last.0, key);
            lemma_precedes_irreflexive(key);
        }
        let front = s.drop_last();
        lemma_ordered_front(s);
        assert forall|i: int| 0 <= i < at implies precedes(#[trigger] front[i].0, key) by {
            assert(front[i] == s[i]);
        }
        if at < front.len() {
            assert(front[at] == s[at]);
        }
        lemma_with_entry_at(front, key, value, at);
        assert(front.insert(at, (key, value)).push(last) =~= r);
    }
}

/// A list that holds `key` stays as it is.
pub proof fn lemma_with_entry_present(s: Entries, key: Seq<char>, value: Seq<char>, at: int)
    requires
        ordered(s),
        0 <= at < s.len(),
        s[at].0 == key,
    ensures
        with_entry(s, key, value) == s,
        has_key(s, key),
        value_of(s, key) == Some(s[at].1),
    decreases s.len(),
{
    assert(has_key(s, key));
    assert(value_of(s, key) == Some(s[at].1)) by {
        let c = choose|i: int| 0 <= i < s.len() && #[trigger] s[i].0 == key;
        lemma_precedes_irreflexive(key);
        if c < at {
            assert(precedes(s[c].0, s[at].0));
        } else if at < c {
            assert(precedes(s[at].0, s[c].0));
        }
        assert(c == at);
    }
    if at < s.len() - 1 {
        let last = s.last();
        assert(precedes(s[at].0, s[s.len() - 1].0));
        lemma_precedes_irreflexive(key);
        if precedes(last.0, key) {
            lemma_precedes_transitive(key, last.0, key);
        }
        let front = s.drop_last();
        lemma_ordered_front(s);
        assert(front[at] == s[at]);
        lemma_with_entry_present(front, key, value, at);
        assert(front.push(last) =~= s);
    }
}

/// Ordered lists that hold the same entries are the same list: what a
/// parameter list is does not depend on the order in which it was filled.
pub proof fn lemma_ordered_unique(a: Entries, b: Entries)
    requires
        ordered(a),
        ordered(b),
        forall|e: (Seq<char>, Seq<char>)| a.contains(e) <==> b.contains(e),
    ensures
        a == b,
    decreases a.len(),
{
    if a.len() == 0 {
        if b.len() > 0 {
            assert(b.contains(b[0]));
            assert(a.contains(b[0]));
        }
        assert(a =~= b);
    } else {
        let top = a.last();
        assert(a.contains(top));
        assert(b.contains(top));
        let j = choose|j: int| 0 <= j < b.len() && b[j] == top;
        let other = b.last();
        assert(b.contains(other));
        assert(a.contains(other));
        let i = choose|i: int| 0 <= i < a.len() && a[i] == other;
        lemma_precedes_irreflexive(top.0);
        if j < b.len() - 1 {
            assert(precedes(b[j].0, b[b.len() - 1].0));
            if i < a.len() - 1 {
                assert(precedes(a[i].0, a[a.len() - 1].0));
                lemma_precedes_transitive(top.0, other.0, top.0);
            }
        }
        assert(other == top);
        let front_a = a.drop_last();
        let front_b = b.drop_last();
        lemma_ordered_front(a);
        lemma_ordered_front(b);
        assert forall|e: (Seq<char>, Seq<char>)| front_a.contains(e) <==> front_b.contains(e) by {
            if front_a.contains(e) {
                let x = choose|x: int| 0 <= x < front_a.len() && front_a[x] == e;
                assert(a[x] == e);
                assert(precedes(a[x].0, a[a.len() - 1].0));
                assert(a.contains(e));
                assert(b.contains(e));
                let y = choose|y: int| 0 <= y < b.len() && b[y] == e;
                assert(y < b.len() - 1);
                assert(front_b[y] == e);
            }
            if front_b.contains(e) {
                let y = choose|y: int| 0 <= y < front_b.len() && front_b[y] == e;
                assert(b[y] == e);
                assert(precedes(b[y].0, b[b.len() - 1].0));
                assert(b.contains(e));
                assert(a.contains(e));
                let x = choose|x: int| 0 <= x < a.len() && a[x] == e;
                assert(x < a.len() - 1);
                assert(front_a[x] == e);
            }
        }
        lemma_ordered_unique(front_a, front_b);
        assert(a =~= front_a.push(top));
        assert(b =~= front_b.push(top));
    }
}

/// The parameters of an extension: each key once, with its value, the keys
/// in the order of strings.
#[derive(Debug)]
pub struct Params {
    entries: Vec<(String, String)>,
}

impl View for Params {
    type V = Entries;

    closed spec fn view(&self) -> Entries {
        Self::listed(self.entries@)
    }
}

impl Params {
    spec fn listed(e: Seq<(String, String)>) -> Entries {
        Seq::new(e.len(), |i: int| (e[i].0@, e[i].1@))
    }

    #[verifier::type_invariant]
    spec fn well_formed(&self) -> bool {
        ordered(self@)
    }

    /// No parameters.
    pub fn new() -> (p: Params)
        ensures
            p@ == Entries::empty(),
    {
        assert(Self::listed(Seq::<(String, String)>::empty()) =~= Entries::empty());
        Params { entries: Vec::new() }
    }

    /// The number of parameters; they stand in the order of their keys,
    /// each key once.
    pub fn len(&self) -> (n: usize)
        ensures
            n == self@.len(),
            ordered(self@),
    {
        proof {
            use_type_invariant(self);
        }
        self.entries.len()
    }

    /// The key of the parameter at `i`.
    pub fn key(&self, i: usize) -> (k: &String)
        requires
            i < self@.len(),
        ensures
            k@ == self@[i as int].0,
    {
        &self.entries[i].0
    }

    /// The value of the parameter at `i`.
    pub fn value(&self, i: usize) -> (v: &String)
        requires
            i < self@.len(),
        ensures
            v@ == self@[i as int].1,
    {
        &self.entries[i].1
    }

    /// The value bound to `key`.
    pub fn get(&self, key: &str) -> (r: Option<&String>)
        ensures
            match r {
                Some(v) => value_of(self@, key@) == Some(v@),
                None => value_of(self@, key@) is None,
            },
    {
        proof {
            use_type_invariant(self);
        }
        let k = to_chars(key);
        let mut i: usize = 0;
        while i < self.entries.len()
            invariant
                i <= self.entries.len(),
                k@ == key@,
                ordered(self@),
                forall|j: int| 0 <= j < i ==> (#[trigger] self@[j]).0 != key@,
            decreases self.entries.len() - i,
        {
            let here = to_chars(self.entries[i].0.as_str());
            match rank(&here, &k) {
                Rank::Same => {
                    proof {
                        lemma_with_entry_present(self@, key@, key@, i as int);
                    }
                    return Some(&self.entries[i].1);
                },
                _ => {
                    proof {
                        lemma_precedes_irreflexive(key@);
                    }
                },
            }
            i += 1;
        }
        None
    }

    /// Binds `key` to `value` unless `key` is bound already.
    pub fn add(&mut self, key: &str, value: &str)
        ensures
            final(self)@ == with_entry(old(self)@, key@, value@),
    {
        proof {
            use_type_invariant(&*self);
        }
        let k = to_chars(key);
        let mut i: usize = 0;
        while i < self.entries.len()
            invariant
                i <= self.entries.len(),
                k@ == key@,
                *self == *old(self),
                ordered(self@),
                forall|j: int| 0 <= j < i ==> precedes((#[trigger] self@[j]).0, key@),
            ensures
                i <= self.entries.len(),
                *self == *old(self),
                ordered(self@),
                forall|j: int| 0 <= j < i ==> precedes((#[trigger] self@[j]).0, key@),
                i < self.entries.len() ==> precedes(key@, self@[i as int].0),
            decreases self.entries.len() - i,
        {
            let here = to_chars(self.entries[i].0.as_str());
            match rank(&here, &k) {
                Rank::Before => {},
                Rank::Same => {
                    proof {
                        lemma_with_entry_present(self@, key@, value@, i as int);
                    }
                    return ;
                },
                Rank::After => {
                    break ;
                },
            }
            i += 1;
        }
        let k_owned = key.to_owned();
        let v_owned = value.to_owned();
        proof {
            lemma_with_entry_at(self@, key@, value@, i as int);
            assert(Self::listed(self.entries@.insert(i as int, (k_owned, v_owned))) =~= self@.insert(
                i as int,
                (key@, value@),
            ));
            assert(Self::listed(Seq::<(String, String)>::empty()) =~= Entries::empty());
        }
        let mut entries: Vec<(String, String)> = Vec::new();
        std::mem::swap(&mut self.entries, &mut entries);
        entries.insert(i, (k_owned, v_owned));
        self.entries = entries;
    }
}


impl Clone for Params {
    fn clone(&self) -> (r: Params)
        ensures
            r@ == self@,
    {
        proof {
            use_type_invariant(self);
        }
        let mut entries: Vec<(String, String)> = Vec::new();
        let mut i: usize = 0;
        while i < self.entries.len()
            invariant
                i <= self.entries.len(),
                Self::listed(entries@) == self@.take(i as int),
            decreases self.entries.len() - i,
        {
            let ghost prev = entries@;
            entries.push((self.entries[i].0.clone(), self.entries[i].1.clone()));
            assert(Self::listed(entries@) =~= Self::listed(prev).push(self@[i as int]));
            assert(self@.take(i + 1) =~= self@.take(i as int).push(self@[i as int]));
            i += 1;
        }
        assert(self@.take(i as int) =~= self@);
        Params { entries }
    }
}

impl PartialEq for Params {
    fn eq(&self, other: &Params) -> (r: bool) {
        if self.entries.len() != other.entries.len() {
            return false;
        }
        let mut i: usize = 0;
        while i < self.entries.len()
            invariant
                i <= self.entries.len(),
                self.entries.len() == other.entries.len(),
                self@.take(i as int) == other@.take(i as int),
            decreases self.entries.len() - i,
        {
            if self.entries[i].0 != other.entries[i].0 || self.entries[i].1 != other.entries[i].1 {
                assert(self@[i as int] != other@[i as int]);
                return false;
            }
            assert(self@.take(i + 1) =~= self@.take(i as int).push(self@[i as int]));
            assert(other@.take(i + 1) =~= other@.take(i as int).push(other@[i as int]));
            i += 1;
        }
        assert(self@.take(i as int) =~= self@);
        assert(other@.take(i as int) =~= other@);
        true
    }
}

impl Eq for Params {

}

impl vstd::std_specs::cmp::PartialEqSpecImpl for Params {
    open spec fn obeys_eq_spec() -> bool {
        true
    }

    open spec fn eq_spec(&self, other: &Params) -> bool {
        self@ == other@
    }
}

/// A message: plain text, an extension (a named unit of rich content with
/// parameters), or a sequence of messages.
#[derive(Debug)]
pub enum Msg {
    Text(String),
    Compound(Vec<Msg>),
    Ext { name: String, params: Params },
}

/// What a message is, apart from how it is stored.
#[verifier::ext_equal]
pub enum MsgView {
    Text(Seq<char>),
    Compound(Seq<MsgView>),
    Ext { name: Seq<char>, params: Entries },
}

impl View for Msg {
    type V = MsgView;

    open spec fn view(&self) -> MsgView
        decreases self,
    {
        match self {
            Msg::Text(content) => MsgView::Text(content@),
            Msg::Compound(parts) => MsgView::Compound(
                Seq::new(
                    parts.len() as nat,
                    |i: int|
                        if 0 <= i < parts.len() {
                            parts[i].view()
                        } else {
                            MsgView::Text(Seq::empty())
                        },
                ),
            ),
            Msg::Ext { name, params } => MsgView::Ext { name: name@, params: params@ },
        }
    }
}

/// What a sequence of messages holds.
pub open spec fn msg_views(msgs: Seq<Msg>) -> Seq<MsgView> {
    Seq::new(msgs.len(), |i: int| msgs[i]@)
}

/// A compound is seen as the views of its parts.
pub proof fn lemma_compound_view(parts: Vec<Msg>)
    ensures
        Msg::Compound(parts)@ == MsgView::Compound(msg_views(parts@)),
{
    assert(Msg::Compound(parts)@->Compound_0 =~= msg_views(parts@));
}

impl MsgView {
    /// A message that is no compound.
    pub open spec fn is_leaf(self) -> bool {
        !(self is Compound)
    }

    /// The text with which the message begins: that of its first part, and
    /// none for an extension or an empty compound.
    pub open spec fn leading_text(self) -> Seq<char>
        decreases self,
    {
        match self {
            MsgView::Text(content) => content,
            MsgView::Compound(parts) => if parts.len() > 0 {
                parts[0].leading_text()
            } else {
                Seq::empty()
            },
            MsgView::Ext { .. } => Seq::empty(),
        }
    }

    /// The texts and extensions of the message from left to right, compounds
    /// opened up at every depth.
    pub open spec fn leaves(self) -> Seq<MsgView>
        decreases self, 0nat,
    {
        match self {
            MsgView::Compound(parts) => Self::leaves_of(parts, parts.len()),
            _ => seq![self],
        }
    }

    /// The leaves of the first `n` of `parts`.
    pub open spec fn leaves_of(parts: Seq<MsgView>, n: nat) -> Seq<MsgView>
        decreases parts, n,
    {
        if n == 0 || n > parts.len() {
            Seq::empty()
        } else {
            Self::leaves_of(parts, (n - 1) as nat) + parts[n - 1].leaves()
        }
    }

    /// A parts list as the builders make it from texts and extensions: no
    /// compound in it, no empty text, no text next to a text.
    pub open spec fn merged(parts: Seq<MsgView>) -> bool {
        &&& forall|i: int| 0 <= i < parts.len() ==> (#[trigger] parts[i]).is_leaf()
        &&& forall|i: int|
            0 <= i < parts.len() ==> !((#[trigger] parts[i]) matches MsgView::Text(content)
                && content.len() == 0)
        &&& forall|i: int|
            0 <= i < parts.len() - 1 ==> !((#[trigger] parts[i]) is Text && parts[i + 1] is Text)
    }

    /// The minimal form of a message: a text, an extension, or a compound
    /// of two or more parts that are merged.
    pub open spec fn normal(self) -> bool {
        match self {
            MsgView::Compound(parts) => parts.len() >= 2 && Self::merged(parts),
            _ => true,
        }
    }

    /// The extension with one more parameter, unless its key is bound.
    pub open spec fn with_param(self, key: Seq<char>, value: Seq<char>) -> MsgView {
        match self {
            MsgView::Ext { name, params } => MsgView::Ext {
                name,
                params: with_entry(params, key, value),
            },
            other => other,
        }
    }

    /// What a builder holds after `m` is appended to `buf`: a text joins a
    /// text at the end, a compound gives its parts, anything else is one
    /// more part.
    pub open spec fn appended(buf: Seq<MsgView>, m: MsgView) -> Seq<MsgView> {
        match m {
            MsgView::Text(content) => if buf.len() > 0 && buf.last() is Text {
                buf.drop_last().push(MsgView::Text(buf.last()->Text_0 + content))
            } else {
                buf.push(m)
            },
            MsgView::Compound(parts) => buf + parts,
            MsgView::Ext { .. } => buf.push(m),
        }
    }

    /// The message that a builder makes of what it holds: the empty text of
    /// nothing, a single part as it is, a compound of more.
    pub open spec fn built(buf: Seq<MsgView>) -> MsgView {
        if buf.len() == 0 {
            MsgView::Text(Seq::empty())
        } else if buf.len() == 1 {
            buf[0]
        } else {
            MsgView::Compound(buf)
        }
    }
}

impl Clone for Msg {
    fn clone(&self) -> (r: Msg)
        ensures
            r@ == self@,
        decreases self,
    {
        match self {
            Msg::Text(content) => Msg::Text(content.clone()),
            Msg::Compound(parts) => {
                let mut out: Vec<Msg> = Vec::new();
                let mut i: usize = 0;
                while i < parts.len()
                    invariant
                        i <= parts.len(),
                        self is Compound,
                        self->Compound_0 == *parts,
                        msg_views(out@) == msg_views(parts@).take(i as int),
                    decreases parts.len() - i,
                {
                    let ghost prev = out@;
                    out.push(parts[i].clone());
                    assert(msg_views(out@) =~= msg_views(prev).push(parts@[i as int]@));
                    assert(msg_views(parts@).take(i + 1) =~= msg_views(parts@).take(i as int).push(
                        parts@[i as int]@,
                    ));
                    i += 1;
                }
                proof {
                    assert(msg_views(parts@).take(i as int) =~= msg_views(parts@));
                    lemma_compound_view(out);
                    lemma_compound_view(*parts);
                }
                Msg::Compound(out)
            },
            Msg::Ext { name, params } => Msg::Ext { name: name.clone(), params: params.clone() },
        }
    }
}

impl PartialEq for Msg {
    fn eq(&self, other: &Msg) -> (r: bool)
        decreases self,
    {
        match self {
            Msg::Text(a) => match other {
                Msg::Text(b) => *a == *b,
                _ => false,
            },
            Msg::Compound(a) => match other {
                Msg::Compound(b) => {
                    proof {
                        lemma_compound_view(*a);
                        lemma_compound_view(*b);
                        assert(msg_views(a@).len() == a.len());
                        assert(msg_views(b@).len() == b.len());
                    }
                    if a.len() != b.len() {
                        return false;
                    }
                    let mut i: usize = 0;
                    while i < a.len()
                        invariant
                            i <= a.len(),
                            a.len() == b.len(),
                            self is Compound,
                            self->Compound_0 == *a,
                            self@ == MsgView::Compound(msg_views(a@)),
                            other@ == MsgView::Compound(msg_views(b@)),
                            msg_views(a@).take(i as int) == msg_views(b@).take(i as int),
                        decreases a.len() - i,
                    {
                        if !a[i].eq(&b[i]) {
                            assert(msg_views(a@)[i as int] != msg_views(b@)[i as int]);
                            return false;
                        }
                        assert(msg_views(a@).take(i + 1) =~= msg_views(a@).take(i as int).push(
                            a@[i as int]@,
                        ));
                        assert(msg_views(b@).take(i + 1) =~= msg_views(b@).take(i as int).push(
                            b@[i as int]@,
                        ));
                        i += 1;
                    }
                    assert(msg_views(a@).take(i as int) =~= msg_views(a@));
                    assert(msg_views(b@).take(i as int) =~= msg_views(b@));
                    true
                },
                _ => false,
            },
            Msg::Ext { name: n1, params: p1 } => match other {
                Msg::Ext { name: n2, params: p2 } => *n1 == *n2 && p1.eq(p2),
                _ => false,
            },
        }
    }
}

impl Eq for Msg {

}

impl vstd::std_specs::cmp::PartialEqSpecImpl for Msg {
    open spec fn obeys_eq_spec() -> bool {
        true
    }

    open spec fn eq_spec(&self, other: &Msg) -> bool {
        self@ == other@
    }
}

impl Msg {
    /// The message that the parts make: the empty text of none, a single
    /// part as it is, a compound of more.
    pub fn of_parts(parts: Vec<Msg>) -> (m: Msg)
        ensures
            m@ == MsgView::built(msg_views(parts@)),
    {
        let mut parts = parts;
        if parts.len() == 0 {
            empty()
        } else if parts.len() == 1 {
            match parts.pop() {
                Some(only) => only,
                None => empty(),
            }
        } else {
            proof {
                lemma_compound_view(parts);
            }
            Msg::Compound(parts)
        }
    }

    /// Whether the text with which the message begins starts with `pat`.
    pub fn starts_with(&self, pat: &str) -> (b: bool)
        ensures
            b == pat@.is_prefix_of(self@.leading_text()),
        decreases self,
    {
        proof {
            reveal_strlit("");
            assert(""@ =~= Seq::<char>::empty());
        }
        match self {
            Msg::Text(content) => starts_with(content.as_str(), pat),
            Msg::Compound(parts) => {
                if parts.len() > 0 {
                    assert(self@->Compound_0[0] == parts[0]@);
                    parts[0].starts_with(pat)
                } else {
                    starts_with("", pat)
                }
            },
            Msg::Ext { .. } => starts_with("", pat),
        }
    }
}


impl From<&str> for Msg {
    /// The text message that holds the given text.
    fn from(content: &str) -> (m: Msg)
        ensures
            m@ == MsgView::Text(content@),
    {
        Msg::Text(content.to_owned())
    }
}

/// What `from` gives is stated by its view; no value is singled out for it.
impl vstd::std_specs::convert::FromSpecImpl<&str> for Msg {
    open spec fn obeys_from_spec() -> bool {
        false
    }

    open spec fn from_spec(content: &str) -> Msg {
        arbitrary()
    }
}

impl From<String> for Msg {
    /// The text message that holds the given text.
    fn from(content: String) -> (m: Msg)
        ensures
            m@ == MsgView::Text(content@),
    {
        Msg::Text(content)
    }
}

impl vstd::std_specs::convert::FromSpecImpl<String> for Msg {
    open spec fn obeys_from_spec() -> bool {
        true
    }

    open spec fn from_spec(content: String) -> Msg {
        Msg::Text(content)
    }
}

/// Builds an extension parameter by parameter.
pub struct ExtBuilder {
    name: String,
    params: Params,
}

impl View for ExtBuilder {
    type V = MsgView;

    /// The extension that `build` gives.
    closed spec fn view(&self) -> MsgView {
        MsgView::Ext { name: self.name@, params: self.params@ }
    }
}

impl ExtBuilder {
    /// An extension of the given name without parameters.
    pub fn new(name: &str) -> (b: ExtBuilder)
        ensures
            b@ == (MsgView::Ext { name: name@, params: Entries::empty() }),
    {
        ExtBuilder { name: name.to_owned(), params: Params::new() }
    }

    /// Binds `key` to `value`; a key that is bound keeps its value.
    pub fn add_param(&mut self, key: &str, value: &str)
        ensures
            final(self)@ == old(self)@.with_param(key@, value@),
    {
        self.params.add(key, value);
    }

    /// The builder with `key` bound to `value`, as `add_param` binds it.
    pub fn with_param(self, key: &str, value: &str) -> (b: ExtBuilder)
        ensures
            b@ == self@.with_param(key@, value@),
    {
        let mut b = self;
        b.add_param(key, value);
        b
    }

    /// The extension.
    pub fn build(self) -> (m: Msg)
        ensures
            m@ == self@,
    {
        Msg::Ext { name: self.name, params: self.params }
    }
}

/// The empty text.
pub fn empty() -> (m: Msg)
    ensures
        m@ == MsgView::Text(Seq::empty()),
{
    Msg::Text(String::new())
}

/// A text message.
pub fn text(content: &str) -> (m: Msg)
    ensures
        m@ == MsgView::Text(content@),
{
    Msg::Text(content.to_owned())
}

/// The extension that one parameter makes.
pub open spec fn unit(name: Seq<char>, key: Seq<char>, value: Seq<char>) -> MsgView {
    MsgView::Ext { name, params: seq![(key, value)] }
}

/// A mention of the account `qq`: the extension `at` with the account
/// number in decimal as its parameter `qq`.
pub fn at(qq: i64) -> (m: Msg)
    ensures
        m@ == unit("at"@, "qq"@, signed_decimal(qq as int)),
{
    let mut number = String::new();
    push_signed_decimal(&mut number, qq);
    assert(number@ =~= signed_decimal(qq as int));
    ExtBuilder::new("at").with_param("qq", number.as_str()).build()
}

/// A picture: the extension `image` with the path as its parameter `file`.
pub fn image(path: &str) -> (m: Msg)
    ensures
        m@ == unit("image"@, "file"@, path@),
{
    ExtBuilder::new("image").with_param("file", path).build()
}

/// A sound recording: the extension `record` with the path as its
/// parameter `file`.
pub fn record(path: &str) -> (m: Msg)
    ensures
        m@ == unit("record"@, "file"@, path@),
{
    ExtBuilder::new("record").with_param("file", path).build()
}

/// Collects messages into one that is as flat as its parts allow.
pub struct MsgBuilder(Vec<Msg>);

impl View for MsgBuilder {
    type V = Seq<MsgView>;

    /// The parts collected so far.
    closed spec fn view(&self) -> Seq<MsgView> {
        msg_views(self.0@)
    }
}

impl MsgBuilder {
    /// A builder that holds nothing.
    pub fn new() -> (b: MsgBuilder)
        ensures
            b@ == Seq::<MsgView>::empty(),
    {
        assert(msg_views(Seq::<Msg>::empty()) =~= Seq::<MsgView>::empty());
        MsgBuilder(Vec::new())
    }

    /// Appends a message: a text joins a text at the end, a compound gives
    /// its parts, an extension is one more part.
    pub fn add_msg(&mut self, msg: Msg)
        ensures
            final(self)@ == MsgView::appended(old(self)@, msg@),
    {
        let ghost before = self@;
        match msg {
            Msg::Text(content) => {
                match self.0.pop() {
                    Some(Msg::Text(last)) => {
                        let mut joined = last;
                        joined.append(content.as_str());
                        self.0.push(Msg::Text(joined));
                        assert(self@ =~= before.drop_last().push(
                            MsgView::Text(before.last()->Text_0 + content@),
                        ));
                    },
                    Some(other) => {
                        self.0.push(other);
                        self.0.push(Msg::Text(content));
                        assert(self@ =~= before.push(msg@));
                    },
                    None => {
                        self.0.push(Msg::Text(content));
                        assert(self@ =~= before.push(msg@));
                    },
                }
            },
            Msg::Compound(parts) => {
                proof {
                    lemma_compound_view(parts);
                }
                let mut parts = parts;
                let ghost added = msg_views(parts@);
                self.0.append(&mut parts);
                assert(self@ =~= before + added);
            },
            Msg::Ext { name, params } => {
                let ghost v = msg@;
                self.0.push(Msg::Ext { name, params });
                assert(self@ =~= before.push(v));
            },
        }
    }

    /// The builder with `msg` appended, as `add_msg` appends it.
    pub fn with_msg(self, msg: Msg) -> (b: MsgBuilder)
        ensures
            b@ == MsgView::appended(self@, msg@),
    {
        let mut b = self;
        b.add_msg(msg);
        b
    }

    /// The message: the empty text of nothing, a single part as it is, a
    /// compound of more.
    pub fn build(self) -> (m: Msg)
        ensures
            m@ == MsgView::built(self@),
    {
        Msg::of_parts(self.0)
    }
}

/// Appending a text and then another to a builder is appending the two
/// texts joined.
pub proof fn lemma_texts_merge(buf: Seq<MsgView>, a: Seq<char>, b: Seq<char>)
    ensures
        MsgView::appended(MsgView::appended(buf, MsgView::Text(a)), MsgView::Text(b))
            == MsgView::appended(buf, MsgView::Text(a + b)),
        MsgView::built(
            MsgView::appended(
                MsgView::appended(Seq::empty(), MsgView::Text(a)),
                MsgView::Text(b),
            ),
        ) == MsgView::Text(a + b),
{
    let one = MsgView::appended(buf, MsgView::Text(a));
    let two = MsgView::appended(one, MsgView::Text(b));
    if buf.len() > 0 && buf.last() is Text {
        assert(one.drop_last() =~= buf.drop_last());
        assert((buf.last()->Text_0 + a) + b =~= buf.last()->Text_0 + (a + b));
    } else {
        assert(one.drop_last() =~= buf);
    }
    assert(two =~= MsgView::appended(buf, MsgView::Text(a + b)));
    let first = MsgView::appended(Seq::empty(), MsgView::Text(a));
    assert(first.drop_last() =~= Seq::<MsgView>::empty());
    assert(MsgView::appended(first, MsgView::Text(b)) =~= seq![MsgView::Text(a + b)]);
}

/// A builder that is given texts which are not empty and extensions holds
/// merged parts, and what it builds of merged parts is in minimal form.
pub proof fn lemma_builder_normal(buf: Seq<MsgView>, m: MsgView)
    requires
        MsgView::merged(buf),
        m.is_leaf(),
        !(m matches MsgView::Text(content) && content.len() == 0),
    ensures
        MsgView::merged(MsgView::appended(buf, m)),
        MsgView::built(buf).normal(),
        MsgView::built(MsgView::appended(buf, m)).normal(),
{
    let next = MsgView::appended(buf, m);
    assert forall|i: int| 0 <= i < next.len() implies (#[trigger] next[i]).is_leaf() && !(
    next[i] matches MsgView::Text(c) && c.len() == 0) by {
        if i < next.len() - 1 {
            assert(next[i] == buf[i]);
        }
    }
    assert forall|i: int| 0 <= i < next.len() - 1 implies !((#[trigger] next[i]) is Text
        && next[i + 1] is Text) by {
        assert(next[i] == buf[i]);
        if i + 1 < buf.len() {
            assert(!(buf[i] is Text && buf[i + 1] is Text));
        }
    }
    if buf.len() == 1 {
        assert(buf[0].is_leaf());
    }
    if next.len() == 1 {
        assert(next[0].is_leaf());
    }
}

/// An inbound message with where it came from.
pub enum MsgIn {
    /// From one account, in private.
    Private { qq: i64, alias: String, content: Msg },
    /// From an account in a group.
    Group { grp: i64, qq: i64, alias: String, grp_alias: String, content: Msg },
}

/// What an inbound message is, apart from how it is stored.
pub enum MsgInView {
    Private { qq: i64, alias: Seq<char>, content: MsgView },
    Group { grp: i64, qq: i64, alias: Seq<char>, grp_alias: Seq<char>, content: MsgView },
}

impl View for MsgIn {
    type V = MsgInView;

    open spec fn view(&self) -> MsgInView {
        match self {
            MsgIn::Private { qq, alias, content } => MsgInView::Private {
                qq: *qq,
                alias: alias@,
                content: content@,
            },
            MsgIn::Group { grp, qq, alias, grp_alias, content } => MsgInView::Group {
                grp: *grp,
                qq: *qq,
                alias: alias@,
                grp_alias: grp_alias@,
                content: content@,
            },
        }
    }
}

impl MsgIn {
    /// Whether the message came in private.
    pub fn is_priv(&self) -> (b: bool)
        ensures
            b == (self@ is Private),
    {
        match self {
            MsgIn::Private { .. } => true,
            _ => false,
        }
    }

    /// Whether the message came from a group.
    pub fn is_grp(&self) -> (b: bool)
        ensures
            b == (self@ is Group),
    {
        match self {
            MsgIn::Group { .. } => true,
            _ => false,
        }
    }
}

} // verus!
