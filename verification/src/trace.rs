use crate::router::{
    lemma_apply_facts, lemma_reposition, lemma_run_facts, pend, Action, Awaiting, Event,
    RoutePoll, RouterModel,
};
use vstd::prelude::*;

verus! {

/// What drives a router: the start of a poll at a source, the outcome of
/// the outside work it asked for, a new source with its name, or a sink
/// registered under a key.
pub enum Input<A> {
    Start(nat),
    Report(Event<A>),
    AddSource(nat),
    AddSink(u64),
}

/// The router's state after one input, and the action it leads to, if any.
pub open spec fn next<A>(m: RouterModel<A>, input: Input<A>) -> (RouterModel<A>, Option<Action<A>>) {
    match input {
        Input::Start(first) => (m.start(first).0, Some(m.start(first).1)),
        Input::Report(e) => (m.step(e).0, Some(m.step(e).1)),
        Input::AddSource(_) => (m.add_source(), None),
        Input::AddSink(k) => (m.add_sink(k), None),
    }
}

/// The input is one the router accepts in state `m`.
pub open spec fn allowed<A>(m: RouterModel<A>, input: Input<A>) -> bool {
    match input {
        Input::Start(first) => m.awaiting == Awaiting::Idle && (m.streams.len() > 0 ==> first
            < m.streams.len()),
        Input::Report(e) => m.expects(e),
        Input::AddSource(_) => m.streams.len() < usize::MAX,
        Input::AddSink(_) => true,
    }
}

/// The values of a record of handled values, in order.
pub open spec fn values<A>(h: Seq<(A, bool)>) -> Seq<A>
    decreases h.len(),
{
    if h.len() == 0 {
        Seq::empty()
    } else {
        values(h.drop_last()).push(h.last().0)
    }
}

/// No source name occurs twice.
pub open spec fn distinct(ids: Seq<nat>) -> bool {
    forall|a: int, b: int| 0 <= a < b < ids.len() ==> ids[a] != ids[b]
}

/// No source holds a value.
pub open spec fn clean<A>(m: RouterModel<A>) -> bool {
    forall|i: int| 0 <= i < m.streams.len() ==> (#[trigger] m.streams[i]).pending_item is None
}

/// A router driven by a sequence of inputs from `start`, whose sources are
/// named, in order, by `ids`.
pub struct Trace<A> {
    pub start: RouterModel<A>,
    pub inputs: Seq<Input<A>>,
    pub ids: Seq<nat>,
}

impl<A> Trace<A> {
    /// The state after the first `j` inputs.
    pub open spec fn state(self, j: nat) -> RouterModel<A>
        decreases j,
    {
        if j == 0 {
            self.start
        } else {
            next(self.state((j - 1) as nat), self.inputs[j - 1]).0
        }
    }

    /// The action that input `j` leads to, if any.
    pub open spec fn action(self, j: nat) -> Option<Action<A>> {
        next(self.state(j), self.inputs[j as int]).1
    }

    /// Every input is accepted when it comes, and a new source gets a name
    /// that no source has at that time.
    pub open spec fn valid(self) -> bool {
        forall|j: nat|
            j < self.inputs.len() ==> allowed(#[trigger] self.state(j), self.inputs[j as int]) && (
            self.inputs[j as int] matches Input::AddSource(d) ==> !self.ids_at(j).contains(d))
    }

    /// No source or sink is added by the first `j` inputs.
    pub open spec fn fixed_setup(self, j: nat) -> bool {
        forall|i: int|
            0 <= i < j ==> (#[trigger] self.inputs[i] is Start || self.inputs[i] is Report)
    }

    /// The names of the sources after the first `j` inputs: an ended source
    /// is replaced by the last one, as in the router.
    pub open spec fn ids_at(self, j: nat) -> Seq<nat>
        decreases j,
    {
        if j == 0 {
            self.ids
        } else {
            let p = self.ids_at((j - 1) as nat);
            let c = self.state((j - 1) as nat).cursor as int;
            match self.inputs[j - 1] {
                Input::Report(Event::StreamEnded) => p.update(c, p.last()).drop_last(),
                Input::AddSource(d) => p.push(d),
                _ => p,
            }
        }
    }

    /// The source that input `j` concerns: the one at the cursor before it.
    pub open spec fn source_at(self, j: nat) -> nat {
        self.ids_at(j)[self.state(j).cursor as int]
    }

    /// The source that the action of input `j` concerns: the one at the cursor after it.
    pub open spec fn actor_at(self, j: nat) -> nat {
        self.ids_at(j + 1)[self.state(j + 1).cursor as int]
    }

    /// The value that input `j` routes from source `d` to sink `k`.
    pub open spec fn routed_at(self, j: nat, d: nat, k: u64) -> Seq<A> {
        match self.inputs[j as int] {
            Input::Report(Event::TaggerReady(v, t)) => if self.source_at(j) == d && t == Some(k)
                && self.state(j).sinks.contains_key(k) {
                seq![v]
            } else {
                Seq::empty()
            },
            _ => Seq::empty(),
        }
    }

    /// The value of source `d` whose tag, at input `j`, names no sink.
    pub open spec fn unrouted_at(self, j: nat, d: nat) -> Seq<A> {
        match self.inputs[j as int] {
            Input::Report(Event::TaggerReady(v, t)) => if self.source_at(j) == d
                && !self.state(j).registered(t) {
                seq![v]
            } else {
                Seq::empty()
            },
            _ => Seq::empty(),
        }
    }

    /// The value that the router yields for source `d` at input `j`.
    pub open spec fn yielded_at(self, j: nat, d: nat) -> Seq<A> {
        match self.action(j) {
            Some(Action::Finish(RoutePoll::Item(x))) => if self.source_at(j) == d {
                seq![x]
            } else {
                Seq::empty()
            },
            _ => Seq::empty(),
        }
    }

    /// The values of source `d` for sink `k` that input `j` settles: one the
    /// sink failed to get ready for is dropped (`false`), one handed to the
    /// sink is sent (`true`).
    pub open spec fn handled_at(self, j: nat, d: nat, k: u64) -> Seq<(A, bool)> {
        let s = self.state(j);
        let dropped = match self.inputs[j as int] {
            Input::Report(Event::SinkFailed) => if self.source_at(j) == d && s.slot().pending_sink
                == Some(k) {
                seq![(s.slot().pending_item->0, false)]
            } else {
                Seq::empty()
            },
            _ => Seq::empty(),
        };
        let sent = match self.action(j) {
            Some(Action::StartSend(k2, x)) => if k2 == k && self.actor_at(j) == d {
                seq![(x, true)]
            } else {
                Seq::empty()
            },
            _ => Seq::empty(),
        };
        dropped + sent
    }

    /// The values routed from source `d` to sink `k` by the first `j` inputs, in order.
    pub open spec fn routed(self, j: nat, d: nat, k: u64) -> Seq<A>
        decreases j,
    {
        if j == 0 {
            Seq::empty()
        } else {
            self.routed((j - 1) as nat, d, k) + self.routed_at((j - 1) as nat, d, k)
        }
    }

    /// The values of source `d` whose tags named no sink, over the first `j` inputs.
    pub open spec fn unrouted(self, j: nat, d: nat) -> Seq<A>
        decreases j,
    {
        if j == 0 {
            Seq::empty()
        } else {
            self.unrouted((j - 1) as nat, d) + self.unrouted_at((j - 1) as nat, d)
        }
    }

    /// The values yielded for source `d` over the first `j` inputs.
    pub open spec fn yielded(self, j: nat, d: nat) -> Seq<A>
        decreases j,
    {
        if j == 0 {
            Seq::empty()
        } else {
            self.yielded((j - 1) as nat, d) + self.yielded_at((j - 1) as nat, d)
        }
    }

    /// The values of source `d` for sink `k` settled over the first `j` inputs.
    pub open spec fn handled(self, j: nat, d: nat, k: u64) -> Seq<(A, bool)>
        decreases j,
    {
        if j == 0 {
            Seq::empty()
        } else {
            self.handled((j - 1) as nat, d, k) + self.handled_at((j - 1) as nat, d, k)
        }
    }

    /// The value and tag that input `j` reports for source `d`'s routing computation.
    pub open spec fn tagged_at(self, j: nat, d: nat) -> Seq<(A, Option<u64>)> {
        match self.inputs[j as int] {
            Input::Report(Event::TaggerReady(v, t)) => if self.source_at(j) == d {
                seq![(v, t)]
            } else {
                Seq::empty()
            },
            _ => Seq::empty(),
        }
    }

    /// The values and tags of source `d`'s routing computations over the first `j` inputs.
    pub open spec fn tagged(self, j: nat, d: nat) -> Seq<(A, Option<u64>)>
        decreases j,
    {
        if j == 0 {
            Seq::empty()
        } else {
            self.tagged((j - 1) as nat, d) + self.tagged_at((j - 1) as nat, d)
        }
    }

    /// Every value the router yields over the first `j` inputs.
    pub open spec fn items(self, j: nat) -> Seq<A>
        decreases j,
    {
        if j == 0 {
            Seq::empty()
        } else {
            let i = (j - 1) as nat;
            match self.action(i) {
                Some(Action::Finish(RoutePoll::Item(x))) => self.items(i).push(x),
                _ => self.items(i),
            }
        }
    }

    /// Every value handed to sink `k` over the first `j` inputs.
    pub open spec fn sends(self, j: nat, k: u64) -> Seq<A>
        decreases j,
    {
        if j == 0 {
            Seq::empty()
        } else {
            let i = (j - 1) as nat;
            match self.action(i) {
                Some(Action::StartSend(k2, x)) => if k2 == k {
                    self.sends(i, k).push(x)
                } else {
                    self.sends(i, k)
                },
                _ => self.sends(i, k),
            }
        }
    }

    /// After `j` inputs: the router is well formed, with the sink keys it
    /// started with when none was added; every source's values for each sink, settled and then
    /// held, are the values routed to that sink; and every source's yielded
    /// values are its values whose tags named no sink.
    pub open spec fn ledger(self, j: nat) -> bool {
        let m = self.state(j);
        let p = self.ids_at(j);
        &&& m.wf()
        &&& self.fixed_setup(j) ==> m.sinks.dom() == self.start.sinks.dom()
        &&& p.len() == m.streams.len()
        &&& distinct(p)
        &&& forall|i: int, k: u64|
            0 <= i < p.len() ==> values(#[trigger] self.handled(j, p[i], k)) + pend(m.streams[i], k)
                == self.routed(j, p[i], k)
        &&& forall|d: nat, k: u64|
            !p.contains(d) ==> values(#[trigger] self.handled(j, d, k)) == self.routed(j, d, k)
        &&& forall|d: nat| #[trigger] self.yielded(j, d) == self.unrouted(j, d)
    }
}

pub proof fn lemma_values_add<A>(a: Seq<(A, bool)>, b: Seq<(A, bool)>)
    ensures
        values(a + b) == values(a) + values(b),
    decreases b.len(),
{
    if b.len() == 0 {
        assert(a + b =~= a);
        assert(values(a) + values(b) =~= values(a));
    } else {
        assert((a + b).drop_last() =~= a + b.drop_last());
        lemma_values_add(a, b.drop_last());
        assert(values(a) + values(b) =~= (values(a) + values(b.drop_last())).push(b.last().0));
    }
}

pub proof fn lemma_values_one<A>(x: A, b: bool)
    ensures
        values(seq![(x, b)]) == seq![x],
{
    let h = seq![(x, b)];
    assert(h.drop_last() =~= Seq::<(A, bool)>::empty());
    assert(values(h.drop_last()) =~= Seq::<A>::empty());
    assert(values(h) =~= seq![x]);
}

proof fn lemma_distinct_swap_remove(p: Seq<nat>, c: int)
    requires
        distinct(p),
        0 <= c < p.len(),
    ensures
        distinct(p.update(c, p.last()).drop_last()),
        !p.update(c, p.last()).drop_last().contains(p[c]),
        forall|d: nat| #[trigger] p.update(c, p.last()).drop_last().contains(d) ==> p.contains(d),
        forall|d: nat|
            p.contains(d) && d != p[c] ==> #[trigger] p.update(c, p.last()).drop_last().contains(d),
{
    let q = p.update(c, p.last()).drop_last();
    assert forall|a: int, b: int| 0 <= a < b < q.len() implies q[a] != q[b] by {
        let l = p.len() - 1;
        if a == c {
            assert(p[l] != p[b]);
        } else if b == c {
            assert(p[a] != p[l]);
        } else {
            assert(p[a] != p[b]);
        }
    }
    assert forall|i: int| 0 <= i < q.len() implies q[i] != p[c] by {
        let l = p.len() - 1;
        if i == c {
            assert(p[c] != p[l]);
        } else if i < c {
            assert(p[i] != p[c]);
        } else {
            assert(p[c] != p[i]);
        }
    }
    assert forall|d: nat| p.contains(d) && d != p[c] implies #[trigger] q.contains(d) by {
        let i = choose|i: int| 0 <= i < p.len() && p[i] == d;
        if i == p.len() - 1 {
            assert(q[c] == d);
        } else {
            assert(q[i] == d);
        }
    }
    assert forall|d: nat| #[trigger] q.contains(d) implies p.contains(d) by {
        let i = choose|i: int| 0 <= i < q.len() && q[i] == d;
        if i == c {
            assert(p[p.len() - 1] == d);
        } else {
            assert(p[i] == d);
        }
    }
}

/// A poll's start keeps the ledger.
proof fn lemma_ledger_start<A>(t: Trace<A>, j: nat, first: nat)
    requires
        t.valid(),
        j < t.inputs.len(),
        t.inputs[j as int] == Input::<A>::Start(first),
        t.ledger(j),
    ensures
        t.ledger(j + 1),
{
    let m = t.state(j);
    let p = t.ids_at(j);
    assert(allowed(t.state(j), t.inputs[j as int]));
    let q = RouterModel { cursor: first, remaining: m.streams.len(), ..m.idle() };
    lemma_reposition(m, first, m.streams.len());
    lemma_run_facts(q);
    let n = t.state(j + 1);
    let p2 = t.ids_at(j + 1);
    assert(n == q.run().0);
    let a = q.run().1;
    assert(t.action(j) == Some(a));
    assert(p2 == p);
    assert(t.fixed_setup(j + 1) ==> t.fixed_setup(j)) by {
        if t.fixed_setup(j + 1) {
            assert forall|i: int| 0 <= i < j implies (#[trigger] t.inputs[i] is Start
                || t.inputs[i] is Report) by {
                assert(t.inputs[i] is Start || t.inputs[i] is Report);
            }
        }
    }
    assert forall|i: int, k: u64| 0 <= i < p2.len() implies values(
        #[trigger] t.handled(j + 1, p2[i], k),
    ) + pend(n.streams[i], k) == t.routed(j + 1, p2[i], k) by {
        let d = p[i];
        lemma_values_add(t.handled(j, d, k), t.handled_at(j, d, k));
        assert(t.routed_at(j, d, k) =~= Seq::<A>::empty());
        assert(t.routed(j + 1, d, k) =~= t.routed(j, d, k));
        assert(values(t.handled(j, d, k)) + pend(m.streams[i], k) == t.routed(j, d, k));
        if a is StartSend && i == first {
            let k2 = a->StartSend_0;
            assert(pend(n.streams[i], k) == Seq::<A>::empty());
            if k2 == k {
                let x = a->StartSend_1;
                assert(t.actor_at(j) == d);
                assert(t.handled_at(j, d, k) =~= seq![(x, true)]);
                lemma_values_one(x, true);
                assert(pend(m.streams[i], k) =~= seq![x]);
            } else {
                assert(pend(q.slot(), k2).len() == 1);
                assert(pend(m.streams[i], k) =~= Seq::<A>::empty());
                assert(values(t.handled_at(j, d, k)) =~= Seq::<A>::empty());
            }
        } else {
            if a is StartSend {
                assert(p[i] != p[first as int]);
            }
            assert(t.handled_at(j, d, k) =~= Seq::<(A, bool)>::empty());
            assert(pend(n.streams[i], k) == pend(m.streams[i], k));
        }
        assert(values(t.handled(j + 1, d, k)) + pend(n.streams[i], k) =~= t.routed(j + 1, d, k));
    }
    assert forall|d: nat, k: u64| !p2.contains(d) implies values(#[trigger] t.handled(j + 1, d, k))
        == t.routed(j + 1, d, k) by {
        lemma_values_add(t.handled(j, d, k), t.handled_at(j, d, k));
        assert(t.routed_at(j, d, k) =~= Seq::<A>::empty());
        if a is StartSend {
            assert(p.contains(p[first as int]));
        }
        assert(t.handled_at(j, d, k) =~= Seq::<(A, bool)>::empty());
        assert(values(t.handled(j + 1, d, k)) =~= t.routed(j + 1, d, k));
    }
    assert forall|d: nat| #[trigger] t.yielded(j + 1, d) == t.unrouted(j + 1, d) by {
        assert(t.yielded(j, d) == t.unrouted(j, d));
        assert(t.yielded_at(j, d) =~= Seq::<A>::empty());
        assert(t.unrouted_at(j, d) =~= Seq::<A>::empty());
        assert(t.yielded(j + 1, d) =~= t.unrouted(j + 1, d));
    }
}

/// The outcome of outside work keeps the ledger.
proof fn lemma_ledger_report<A>(t: Trace<A>, j: nat, e: Event<A>)
    requires
        t.valid(),
        j < t.inputs.len(),
        t.inputs[j as int] == Input::<A>::Report(e),
        t.ledger(j),
    ensures
        t.ledger(j + 1),
{
    let m = t.state(j);
    let p = t.ids_at(j);
    assert(allowed(t.state(j), t.inputs[j as int]));
    lemma_apply_facts(m, e);
    let c = m.cursor as int;
    let q = m.settled(e);
    let flow = m.apply(e).1;
    let yields = flow is Yield;
    if !yields {
        lemma_run_facts(q);
    }
    let n = t.state(j + 1);
    let p2 = t.ids_at(j + 1);
    let a = m.step(e).1;
    assert(t.action(j) == Some(a));
    assert(n == m.step(e).0);
    assert(t.fixed_setup(j + 1) ==> t.fixed_setup(j)) by {
        if t.fixed_setup(j + 1) {
            assert forall|i: int| 0 <= i < j implies (#[trigger] t.inputs[i] is Start
                || t.inputs[i] is Report) by {
                assert(t.inputs[i] is Start || t.inputs[i] is Report);
            }
        }
    }
    assert(yields ==> n == q && a == Action::Finish(RoutePoll::Item(flow->Yield_0)));
    assert(!yields ==> n == q.run().0 && a == q.run().1);
    let ended = e is StreamEnded;
    if ended {
        lemma_distinct_swap_remove(p, c);
        assert(p2 == p.update(c, p.last()).drop_last());
    } else {
        assert(p2 == p);
    }
    assert(t.source_at(j) == p[c]);
    // Where slot `i` of the new state came from.
    let from = |i: int| if ended && i == c { p.len() - 1 } else { i };
    assert forall|i: int| 0 <= i < p2.len() implies p2[i] == p[from(i)] && ((ended || i != c)
        ==> q.streams[i] == m.streams[from(i)]) by {}
    // The action hands over a value only from the slot at the cursor after it.
    if a is StartSend {
        assert(n.cursor == q.cursor);
        assert(t.actor_at(j) == p2[q.cursor as int]);
    }
    assert forall|i: int, k: u64| 0 <= i < p2.len() implies values(
        #[trigger] t.handled(j + 1, p2[i], k),
    ) + pend(n.streams[i], k) == t.routed(j + 1, p2[i], k) by {
        let o = from(i);
        let d = p2[i];
        assert(d == p[o]);
        lemma_values_add(t.handled(j, d, k), t.handled_at(j, d, k));
        assert(values(t.handled(j, d, k)) + pend(m.streams[o], k) == t.routed(j, d, k));
        assert(t.routed(j + 1, d, k) == t.routed(j, d, k) + t.routed_at(j, d, k));
        assert(t.handled(j + 1, d, k) == t.handled(j, d, k) + t.handled_at(j, d, k));
        if o != c {
            assert(p[o] != p[c]);
        }
        // what the slot holds after the event and before the router goes on
        let before = pend(q.streams[i], k);
        if a is StartSend && i == q.cursor {
            let k2 = a->StartSend_0;
            let x = a->StartSend_1;
            assert(pend(n.streams[i], k) == Seq::<A>::empty());
            assert(pend(q.slot(), k2) == seq![x]);
            if k2 == k {
                lemma_values_one(x, true);
                assert(before == seq![x]);
            } else {
                assert(before =~= Seq::<A>::empty());
            }
        } else {
            if a is StartSend {
                assert(p2[i] != p2[q.cursor as int]);
            }
            assert(pend(n.streams[i], k) == before);
        }
        if o != c {
            assert(t.routed_at(j, d, k) =~= Seq::<A>::empty());
            assert(before == pend(m.streams[o], k));
        } else {
            match e {
                Event::TaggerReady(v, tg) => {},
                Event::SinkFailed => {
                    assert(crate::router::slot_ok(m.streams[c], m.handed_out(c), m.sinks));
                    if m.slot().pending_sink == Some(k) {
                        lemma_values_one(m.slot().pending_item->0, false);
                    }
                },
                _ => {},
            }
        }
        assert(values(t.handled(j + 1, d, k)) + pend(n.streams[i], k) =~= t.routed(j + 1, d, k));
    }
    assert forall|d: nat, k: u64| !p2.contains(d) implies values(#[trigger] t.handled(j + 1, d, k))
        == t.routed(j + 1, d, k) by {
        lemma_values_add(t.handled(j, d, k), t.handled_at(j, d, k));
        assert(t.routed(j + 1, d, k) == t.routed(j, d, k) + t.routed_at(j, d, k));
        assert(t.handled(j + 1, d, k) == t.handled(j, d, k) + t.handled_at(j, d, k));
        if a is StartSend {
            assert(p2.contains(p2[q.cursor as int]));
        }
        if ended && d == p[c] {
            assert(values(t.handled(j, d, k)) + pend(m.streams[c], k) == t.routed(j, d, k));
            assert(pend(m.slot(), k) == Seq::<A>::empty());
        } else {
            assert(!p.contains(d));
            assert(p.contains(p[c]));
            assert(values(t.handled(j, d, k)) == t.routed(j, d, k));
        }
        assert(t.routed_at(j, d, k) =~= Seq::<A>::empty());
        assert(t.handled_at(j, d, k) =~= Seq::<(A, bool)>::empty());
        assert(values(t.handled(j + 1, d, k)) =~= t.routed(j + 1, d, k));
    }
    assert forall|d: nat| #[trigger] t.yielded(j + 1, d) == t.unrouted(j + 1, d) by {
        assert(t.yielded(j, d) == t.unrouted(j, d));
        assert(t.yielded(j + 1, d) == t.yielded(j, d) + t.yielded_at(j, d));
        assert(t.unrouted(j + 1, d) == t.unrouted(j, d) + t.unrouted_at(j, d));
        assert(t.yielded_at(j, d) =~= t.unrouted_at(j, d));
    }
}

/// Adding a source keeps the ledger: the new source holds nothing, and its
/// fresh name has no values yet that are not settled.
proof fn lemma_ledger_add_source<A>(t: Trace<A>, j: nat, d0: nat)
    requires
        t.valid(),
        j < t.inputs.len(),
        t.inputs[j as int] == Input::<A>::AddSource(d0),
        t.ledger(j),
    ensures
        t.ledger(j + 1),
{
    let m = t.state(j);
    let p = t.ids_at(j);
    assert(allowed(t.state(j), t.inputs[j as int]));
    assert(!p.contains(d0));
    crate::router::lemma_add_source_wf(m);
    let n = t.state(j + 1);
    let p2 = t.ids_at(j + 1);
    assert(n == m.add_source());
    assert(p2 == p.push(d0));
    assert(t.action(j) is None);
    assert(!t.fixed_setup(j + 1)) by {
        assert(!(t.inputs[j as int] is Start || t.inputs[j as int] is Report));
    }
    assert forall|a: int, b: int| 0 <= a < b < p2.len() implies p2[a] != p2[b] by {
        if b == p.len() {
            assert(p.contains(p[a]));
        } else {
            assert(p[a] != p[b]);
        }
    }
    assert forall|d: nat, k: u64| #![trigger t.handled(j + 1, d, k)]
        t.handled(j + 1, d, k) == t.handled(j, d, k) && t.routed(j + 1, d, k) == t.routed(j, d, k) by {
        assert(t.handled_at(j, d, k) =~= Seq::<(A, bool)>::empty());
        assert(t.routed_at(j, d, k) =~= Seq::<A>::empty());
        assert(t.handled(j + 1, d, k) =~= t.handled(j, d, k));
        assert(t.routed(j + 1, d, k) =~= t.routed(j, d, k));
    }
    assert forall|i: int, k: u64| 0 <= i < p2.len() implies values(
        #[trigger] t.handled(j + 1, p2[i], k),
    ) + pend(n.streams[i], k) == t.routed(j + 1, p2[i], k) by {
        assert(t.handled(j + 1, p2[i], k) == t.handled(j, p2[i], k));
        if i < p.len() {
            assert(values(t.handled(j, p[i], k)) + pend(m.streams[i], k) == t.routed(j, p[i], k));
        } else {
            assert(values(t.handled(j, d0, k)) == t.routed(j, d0, k));
            assert(pend(n.streams[i], k) =~= Seq::<A>::empty());
            assert(values(t.handled(j, d0, k)) + pend(n.streams[i], k) =~= t.routed(j, d0, k));
        }
    }
    assert forall|d: nat, k: u64| !p2.contains(d) implies values(#[trigger] t.handled(j + 1, d, k))
        == t.routed(j + 1, d, k) by {
        assert(t.handled(j + 1, d, k) == t.handled(j, d, k));
        if p.contains(d) {
            let i = choose|i: int| 0 <= i < p.len() && p[i] == d;
            assert(p2[i] == d);
        }
    }
    assert forall|d: nat| #[trigger] t.yielded(j + 1, d) == t.unrouted(j + 1, d) by {
        assert(t.yielded(j, d) == t.unrouted(j, d));
        assert(t.yielded_at(j, d) =~= Seq::<A>::empty());
        assert(t.unrouted_at(j, d) =~= Seq::<A>::empty());
        assert(t.yielded(j + 1, d) =~= t.unrouted(j + 1, d));
    }
}

/// Adding a sink keeps the ledger: nothing any source holds or has settled changes.
proof fn lemma_ledger_add_sink<A>(t: Trace<A>, j: nat, k0: u64)
    requires
        t.valid(),
        j < t.inputs.len(),
        t.inputs[j as int] == Input::<A>::AddSink(k0),
        t.ledger(j),
    ensures
        t.ledger(j + 1),
{
    let m = t.state(j);
    let p = t.ids_at(j);
    crate::router::lemma_add_sink_wf(m, k0);
    let n = t.state(j + 1);
    assert(n == m.add_sink(k0));
    assert(n.streams == m.streams);
    assert(t.ids_at(j + 1) == p);
    assert(t.action(j) is None);
    assert(!t.fixed_setup(j + 1)) by {
        assert(!(t.inputs[j as int] is Start || t.inputs[j as int] is Report));
    }
    assert forall|d: nat, k: u64| #![trigger t.handled(j + 1, d, k)]
        t.handled(j + 1, d, k) == t.handled(j, d, k) && t.routed(j + 1, d, k) == t.routed(j, d, k) by {
        assert(t.handled_at(j, d, k) =~= Seq::<(A, bool)>::empty());
        assert(t.routed_at(j, d, k) =~= Seq::<A>::empty());
        assert(t.handled(j + 1, d, k) =~= t.handled(j, d, k));
        assert(t.routed(j + 1, d, k) =~= t.routed(j, d, k));
    }
    assert forall|i: int, k: u64| 0 <= i < p.len() implies values(
        #[trigger] t.handled(j + 1, p[i], k),
    ) + pend(n.streams[i], k) == t.routed(j + 1, p[i], k) by {
        assert(t.handled(j + 1, p[i], k) == t.handled(j, p[i], k));
        assert(values(t.handled(j, p[i], k)) + pend(m.streams[i], k) == t.routed(j, p[i], k));
    }
    assert forall|d: nat, k: u64| !p.contains(d) implies values(#[trigger] t.handled(j + 1, d, k))
        == t.routed(j + 1, d, k) by {
        assert(t.handled(j + 1, d, k) == t.handled(j, d, k));
    }
    assert forall|d: nat| #[trigger] t.yielded(j + 1, d) == t.unrouted(j + 1, d) by {
        assert(t.yielded(j, d) == t.unrouted(j, d));
        assert(t.yielded_at(j, d) =~= Seq::<A>::empty());
        assert(t.unrouted_at(j, d) =~= Seq::<A>::empty());
        assert(t.yielded(j + 1, d) =~= t.unrouted(j + 1, d));
    }
}

/// Every input keeps the ledger.
proof fn lemma_ledger_step<A>(t: Trace<A>, j: nat)
    requires
        t.valid(),
        j < t.inputs.len(),
        t.ledger(j),
    ensures
        t.ledger(j + 1),
{
    match t.inputs[j as int] {
        Input::Start(first) => lemma_ledger_start(t, j, first),
        Input::Report(e) => lemma_ledger_report(t, j, e),
        Input::AddSource(d) => lemma_ledger_add_source(t, j, d),
        Input::AddSink(k) => lemma_ledger_add_sink(t, j, k),
    }
}

/// The trace starts from a well formed router whose sources hold no value
/// and are named by distinct names.
pub open spec fn well_started<A>(t: Trace<A>) -> bool {
    &&& t.valid()
    &&& t.start.wf()
    &&& clean(t.start)
    &&& t.ids.len() == t.start.streams.len()
    &&& distinct(t.ids)
}

/// Along any accepted sequence of inputs, the ledger holds after each one.
pub proof fn lemma_ledger<A>(t: Trace<A>, j: nat)
    requires
        well_started(t),
        j <= t.inputs.len(),
    ensures
        t.ledger(j),
    decreases j,
{
    if j == 0 {
        let m = t.start;
        assert forall|i: int, k: u64| 0 <= i < t.ids.len() implies values(
            #[trigger] t.handled(0, t.ids[i], k),
        ) + pend(m.streams[i], k) == t.routed(0, t.ids[i], k) by {
            assert(m.streams[i].pending_item is None);
            assert(values(t.handled(0, t.ids[i], k)) + pend(m.streams[i], k) =~= Seq::<A>::empty());
        }
        assert forall|d: nat, k: u64| !t.ids.contains(d) implies values(
            #[trigger] t.handled(0, d, k),
        ) == t.routed(0, d, k) by {}
    } else {
        lemma_ledger(t, (j - 1) as nat);
        lemma_ledger_step(t, (j - 1) as nat);
    }
}

/// Across any number of polls, a value whose tag names a registered sink
/// reaches that sink only and is never yielded: for each source, the
/// values the router yields are exactly, in order, its values whose tags
/// named no sink; and for each sink, the source's values handed to that sink
/// or dropped because it failed to get ready, followed by the one value the
/// source may still hold for it, are exactly, in order, its values routed
/// to that sink.
pub proof fn law_routed_values_reach_only_their_sink<A>(t: Trace<A>, j: nat)
    requires
        well_started(t),
        j <= t.inputs.len(),
    ensures
        forall|d: nat| #[trigger] t.yielded(j, d) == t.unrouted(j, d),
        forall|d: nat, k: u64|
            values(#[trigger] t.handled(j, d, k)) == t.routed(j, d, k).take(
                values(t.handled(j, d, k)).len() as int,
            ) && t.routed(j, d, k).len() <= values(t.handled(j, d, k)).len() + 1,
{
    lemma_ledger(t, j);
    let p = t.ids_at(j);
    let m = t.state(j);
    assert forall|d: nat, k: u64|
        values(#[trigger] t.handled(j, d, k)) == t.routed(j, d, k).take(
            values(t.handled(j, d, k)).len() as int,
        ) && t.routed(j, d, k).len() <= values(t.handled(j, d, k)).len() + 1 by {
        let h = values(t.handled(j, d, k));
        let held = if p.contains(d) {
            let i = choose|i: int| 0 <= i < p.len() && p[i] == d;
            assert(values(t.handled(j, p[i], k)) + pend(m.streams[i], k) == t.routed(j, p[i], k));
            pend(m.streams[i], k)
        } else {
            Seq::<A>::empty()
        };
        assert(h + held == t.routed(j, d, k));
        assert((h + held).take(h.len() as int) =~= h);
    }
}

/// Across any number of polls, each source delivers its values one after the
/// other: when the router asks a source for its next value, every value it
/// routed to any sink was already handed to that sink or dropped, in the
/// order the source yielded them.
pub proof fn law_source_delivers_in_order<A>(t: Trace<A>, j: nat)
    requires
        well_started(t),
        j < t.inputs.len(),
    ensures
        t.action(j) matches Some(Action::PollStream(i)) ==> forall|k: u64|
            values(#[trigger] t.handled(j + 1, t.ids_at(j + 1)[i as int], k)) == t.routed(
                j + 1,
                t.ids_at(j + 1)[i as int],
                k,
            ),
{
    lemma_ledger(t, j);
    lemma_ledger(t, j + 1);
    let m = t.state(j + 1);
    let p = t.ids_at(j + 1);
    let input = t.inputs[j as int];
    assert(allowed(t.state(j), input));
    if t.action(j) matches Some(Action::PollStream(_)) {
        let i = t.action(j)->Some_0->PollStream_0 as int;
        let prev = t.state(j);
        match input {
            Input::Start(first) => {
                crate::router::lemma_reposition(prev, first, prev.streams.len());
                lemma_run_facts(RouterModel { cursor: first, remaining: prev.streams.len(), ..prev.idle() });
            },
            Input::Report(e) => {
                lemma_apply_facts(prev, e);
                if !(prev.apply(e).1 is Yield) {
                    lemma_run_facts(prev.settled(e));
                }
            },
            _ => {},
        }
        assert(m.awaiting == Awaiting::Stream);
        assert(i == m.cursor);
        assert(crate::router::slot_ok(m.streams[i], m.handed_out(i), m.sinks));
        assert forall|k: u64| values(#[trigger] t.handled(j + 1, p[i], k)) == t.routed(j + 1, p[i], k) by {
            assert(values(t.handled(j + 1, p[i], k)) + pend(m.streams[i], k) == t.routed(j + 1, p[i], k));
            assert(values(t.handled(j + 1, p[i], k)) + pend(m.streams[i], k) =~= values(t.handled(j + 1, p[i], k)));
        }
    }
}

/// The values, in order, whose tags name none of the sinks in `dom`.
pub open spec fn pick_unrouted<A>(tags: Seq<(A, Option<u64>)>, dom: Set<u64>) -> Seq<A>
    decreases tags.len(),
{
    if tags.len() == 0 {
        Seq::empty()
    } else {
        let rest = pick_unrouted(tags.drop_last(), dom);
        let (v, t) = tags.last();
        if t matches Some(k) && dom.contains(k) {
            rest
        } else {
            rest.push(v)
        }
    }
}

/// The values, in order, whose tags name sink `k`, which is in `dom`.
pub open spec fn pick_routed<A>(tags: Seq<(A, Option<u64>)>, dom: Set<u64>, k: u64) -> Seq<A>
    decreases tags.len(),
{
    if tags.len() == 0 {
        Seq::empty()
    } else {
        let rest = pick_routed(tags.drop_last(), dom, k);
        let (v, t) = tags.last();
        if t == Some(k) && dom.contains(k) {
            rest.push(v)
        } else {
            rest
        }
    }
}

/// What a source yields and routes is decided by its tags alone.
proof fn lemma_split_by_tags<A>(t: Trace<A>, j: nat, d: nat, k: u64)
    requires
        t.fixed_setup(j),
        well_started(t),
        j <= t.inputs.len(),
    ensures
        t.unrouted(j, d) == pick_unrouted(t.tagged(j, d), t.start.sinks.dom()),
        t.routed(j, d, k) == pick_routed(t.tagged(j, d), t.start.sinks.dom(), k),
    decreases j,
{
    if j > 0 {
        let i = (j - 1) as nat;
        lemma_split_by_tags(t, i, d, k);
        lemma_ledger(t, i);
        let dom = t.start.sinks.dom();
        let tg = t.tagged(j, d);
        match t.inputs[i as int] {
            Input::Report(Event::TaggerReady(v, tt)) => {
                if t.source_at(i) == d {
                    assert(tg.drop_last() =~= t.tagged(i, d));
                    assert(tg.last() == (v, tt));
                    assert(t.unrouted(j, d) =~= pick_unrouted(tg, dom));
                    assert(t.routed(j, d, k) =~= pick_routed(tg, dom, k));
                } else {
                    assert(tg =~= t.tagged(i, d));
                    assert(t.unrouted(j, d) =~= t.unrouted(i, d));
                    assert(t.routed(j, d, k) =~= t.routed(i, d, k));
                }
            },
            _ => {
                assert(tg =~= t.tagged(i, d));
                assert(t.unrouted(j, d) =~= t.unrouted(i, d));
                assert(t.routed(j, d, k) =~= t.routed(i, d, k));
            },
        }
    }
}

/// With a single source, the sources left are it or none.
proof fn lemma_single_source<A>(t: Trace<A>, j: nat)
    requires
        t.fixed_setup(j),
        well_started(t),
        t.ids.len() == 1,
        j <= t.inputs.len(),
    ensures
        t.ids_at(j) == t.ids || t.ids_at(j).len() == 0,
    decreases j,
{
    if j > 0 {
        lemma_single_source(t, (j - 1) as nat);
        lemma_ledger(t, (j - 1) as nat);
        let p = t.ids_at((j - 1) as nat);
        let m = t.state((j - 1) as nat);
        assert(allowed(t.state((j - 1) as nat), t.inputs[j - 1]));
        if p.len() == 1 && t.inputs[j - 1] == Input::<A>::Report(Event::StreamEnded) {
            let c = m.cursor as int;
            assert(c < m.streams.len());
            assert(p.update(c, p.last()).drop_last().len() == 0);
        }
    }
}

/// With a single source, no source or sink added after the start, and sinks
/// that never fail to get ready, the router's output is decided by that
/// source's tags: it yields exactly, in order, the values whose tags name no
/// sink; each sink is handed, in order, the values whose tags name it, but
/// for the last one the source may still hold; and a poll in which the source
/// ends returns `Ended`.
pub proof fn law_single_source_split<A>(t: Trace<A>, j: nat)
    requires
        t.fixed_setup(j),
        well_started(t),
        t.ids.len() == 1,
        j <= t.inputs.len(),
        forall|i: int| 0 <= i < j ==> t.inputs[i] != Input::<A>::Report(Event::SinkFailed),
    ensures
        t.items(j) == pick_unrouted(t.tagged(j, t.ids[0]), t.start.sinks.dom()),
        forall|k: u64|
            #![trigger t.sends(j, k)]
            t.sends(j, k) == pick_routed(t.tagged(j, t.ids[0]), t.start.sinks.dom(), k).take(
                t.sends(j, k).len() as int,
            ) && pick_routed(t.tagged(j, t.ids[0]), t.start.sinks.dom(), k).len() <= t.sends(
                j,
                k,
            ).len() + 1,
        forall|i: nat|
            i < j && t.inputs[i as int] == Input::<A>::Report(Event::StreamEnded) ==> #[trigger] t.action(i)
                == Some(Action::<A>::Finish(RoutePoll::Ended)),
    decreases j,
{
    let d = t.ids[0];
    lemma_items_and_sends(t, j);
    law_routed_values_reach_only_their_sink(t, j);
    lemma_split_by_tags(t, j, d, 0);
    assert forall|k: u64|
        #![trigger t.sends(j, k)]
        t.sends(j, k) == pick_routed(t.tagged(j, d), t.start.sinks.dom(), k).take(
            t.sends(j, k).len() as int,
        ) && pick_routed(t.tagged(j, d), t.start.sinks.dom(), k).len() <= t.sends(j, k).len()
            + 1 by {
        lemma_split_by_tags(t, j, d, k);
        assert(values(t.handled(j, d, k)) == t.routed(j, d, k).take(
            values(t.handled(j, d, k)).len() as int,
        ));
    }
    assert forall|i: nat|
        i < j && t.inputs[i as int] == Input::<A>::Report(Event::StreamEnded) implies #[trigger] t.action(i)
        == Some(Action::<A>::Finish(RoutePoll::Ended)) by {
        lemma_ledger(t, i);
        lemma_single_source(t, i);
        let m = t.state(i);
        assert(allowed(t.state(i), t.inputs[i as int]));
        lemma_apply_facts(m, Event::StreamEnded);
        let q = m.settled(Event::StreamEnded);
        assert(q.remaining == 0);
        assert(q.streams.len() == 0);
    }
}

/// With a single source whose sink never fails to get ready, every yielded
/// value and every value handed to a sink is that source's.
proof fn lemma_items_and_sends<A>(t: Trace<A>, j: nat)
    requires
        t.fixed_setup(j),
        well_started(t),
        t.ids.len() == 1,
        j <= t.inputs.len(),
        forall|i: int| 0 <= i < j ==> t.inputs[i] != Input::<A>::Report(Event::SinkFailed),
    ensures
        t.items(j) == t.yielded(j, t.ids[0]),
        forall|k: u64| #[trigger] t.sends(j, k) == values(t.handled(j, t.ids[0], k)),
    decreases j,
{
    let d = t.ids[0];
    if j > 0 {
        let i = (j - 1) as nat;
        lemma_items_and_sends(t, i);
        lemma_ledger(t, i);
        lemma_ledger(t, j);
        lemma_single_source(t, i);
        lemma_single_source(t, j);
        let m = t.state(i);
        let n = t.state(j);
        assert(t.inputs[i as int] is Start || t.inputs[i as int] is Report);
        let a = t.action(i)->Some_0;
        assert(t.action(i) == Some(a));
        assert(allowed(t.state(i), t.inputs[i as int]));
        match t.inputs[i as int] {
            Input::Start(first) => {
                lemma_reposition(m, first, m.streams.len());
                lemma_run_facts(RouterModel { cursor: first, remaining: m.streams.len(), ..m.idle() });
            },
            Input::Report(e) => {
                lemma_apply_facts(m, e);
                if !(m.apply(e).1 is Yield) {
                    lemma_run_facts(m.settled(e));
                }
            },
            _ => {},
        }
        if a is Finish && a->Finish_0 is Item {
            assert(m.cursor < m.streams.len());
            assert(t.source_at(i) == d);
        }
        assert(t.items(j) =~= t.yielded(j, d));
        assert forall|k: u64| #[trigger] t.sends(j, k) == values(t.handled(j, d, k)) by {
            assert(t.sends(i, k) == values(t.handled(i, d, k)));
            lemma_values_add(t.handled(i, d, k), t.handled_at(i, d, k));
            if a is StartSend {
                assert(n.cursor < n.streams.len());
                assert(t.actor_at(i) == d);
                if a->StartSend_0 == k {
                    lemma_values_one(a->StartSend_1, true);
                    assert(t.handled_at(i, d, k) =~= seq![(a->StartSend_1, true)]);
                } else {
                    assert(t.handled_at(i, d, k) =~= Seq::<(A, bool)>::empty());
                }
            } else {
                assert(t.handled_at(i, d, k) =~= Seq::<(A, bool)>::empty());
            }
            assert(t.sends(j, k) =~= values(t.handled(j, d, k)));
        }
    }
}

/// `f` applied, in order, to the elements of `xs` that `keep` accepts.
pub open spec fn filter_map<X, A>(xs: Seq<X>, keep: spec_fn(X) -> bool, f: spec_fn(X) -> A) -> Seq<A>
    decreases xs.len(),
{
    if xs.len() == 0 {
        Seq::empty()
    } else {
        let rest = filter_map(xs.drop_last(), keep, f);
        if keep(xs.last()) {
            rest.push(f(xs.last()))
        } else {
            rest
        }
    }
}

/// The tag names no sink in `dom`.
pub open spec fn names_no_sink(t: Option<u64>, dom: Set<u64>) -> bool {
    !(t matches Some(k) && dom.contains(k))
}

proof fn lemma_pick_filter_map<X, A>(
    xs: Seq<X>,
    f: spec_fn(X) -> A,
    tag: spec_fn(X) -> Option<u64>,
    dom: Set<u64>,
    k: u64,
)
    ensures
        pick_unrouted(xs.map_values(|x: X| (f(x), tag(x))), dom) == filter_map(
            xs,
            |x: X| names_no_sink(tag(x), dom),
            f,
        ),
        pick_routed(xs.map_values(|x: X| (f(x), tag(x))), dom, k) == filter_map(
            xs,
            |x: X| tag(x) == Some(k) && dom.contains(k),
            f,
        ),
    decreases xs.len(),
{
    if xs.len() > 0 {
        lemma_pick_filter_map(xs.drop_last(), f, tag, dom, k);
        assert(xs.map_values(|x: X| (f(x), tag(x))).drop_last() =~= xs.drop_last().map_values(
            |x: X| (f(x), tag(x)),
        ));
    } else {
        assert(xs.map_values(|x: X| (f(x), tag(x))) =~= Seq::<(A, Option<u64>)>::empty());
    }
}

/// One source, with no source or sink added after the start, whose routing
/// computations give, for its successive values `xs`, the value `f(x)` with
/// the tag `tag(x)`, and sinks that never fail to get ready: the router
/// yields exactly `f(x)`, in order, for the `x` whose tags name no sink, and
/// hands each sink `k`, in order, `f(x)` for the `x` whose tags name `k`,
/// but for the last one the source may still hold.
pub proof fn law_single_source_filter_map<A, X>(
    t: Trace<A>,
    j: nat,
    xs: Seq<X>,
    f: spec_fn(X) -> A,
    tag: spec_fn(X) -> Option<u64>,
)
    requires
        t.fixed_setup(j),
        well_started(t),
        t.ids.len() == 1,
        j <= t.inputs.len(),
        forall|i: int| 0 <= i < j ==> t.inputs[i] != Input::<A>::Report(Event::SinkFailed),
        t.tagged(j, t.ids[0]) == xs.map_values(|x: X| (f(x), tag(x))),
    ensures
        t.items(j) == filter_map(xs, |x: X| names_no_sink(tag(x), t.start.sinks.dom()), f),
        forall|k: u64|
            #![trigger t.sends(j, k)]
            t.sends(j, k) == filter_map(
                xs,
                |x: X| tag(x) == Some(k) && t.start.sinks.dom().contains(k),
                f,
            ).take(t.sends(j, k).len() as int) && filter_map(
                xs,
                |x: X| tag(x) == Some(k) && t.start.sinks.dom().contains(k),
                f,
            ).len() <= t.sends(j, k).len() + 1,
{
    law_single_source_split(t, j);
    let dom = t.start.sinks.dom();
    lemma_pick_filter_map(xs, f, tag, dom, 0);
    assert forall|k: u64|
        #![trigger t.sends(j, k)]
        t.sends(j, k) == filter_map(xs, |x: X| tag(x) == Some(k) && dom.contains(k), f).take(
            t.sends(j, k).len() as int,
        ) && filter_map(xs, |x: X| tag(x) == Some(k) && dom.contains(k), f).len() <= t.sends(
            j,
            k,
        ).len() + 1 by {
        lemma_pick_filter_map(xs, f, tag, dom, k);
    }
}

} // verus!
