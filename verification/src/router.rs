use std::collections::HashMap;
use vstd::prelude::*;

verus! {

broadcast use vstd::std_specs::hash::group_hash_axioms;

/// Where a source stands in delivering its current value.
#[derive(Clone, Copy, PartialEq, Eq, Debug)]
pub enum StreamState {
    /// Ready to take the next value from the source.
    StreamActive,
    /// A value was taken; its routing computation is under way.
    TaggerActive,
    /// The value was routed to a sink that nobody is writing to; the sink must
    /// first report that it is ready.
    SinkPending,
    /// The value is being handed to its sink.
    SinkActive,
    /// The value was handed over; the sink is to be flushed.
    SinkFlushing,
}

/// One source, as the router sees it: its state, the sink its current value
/// is routed to and the value itself while it waits for that sink.
pub struct StreamSlot<A> {
    pub state: StreamState,
    pub pending_sink: Option<u64>,
    pub pending_item: Option<A>,
}

impl<A> StreamSlot<A> {
    /// A source that has delivered nothing yet.
    pub fn new() -> (slot: StreamSlot<A>)
        ensures
            slot.state == StreamState::StreamActive,
            slot.pending_sink is None,
            slot.pending_item is None,
    {
        StreamSlot { state: StreamState::StreamActive, pending_sink: None, pending_item: None }
    }
}

/// The outside work whose outcome the router is waiting for.
#[derive(Clone, Copy, PartialEq, Eq, Debug)]
pub enum Awaiting {
    Idle,
    Stream,
    Tagger,
    SinkReady,
    Send,
    Flush,
}

/// What the outside work reported.
#[derive(Debug, PartialEq)]
pub enum Event<A> {
    /// The source yielded a value, which was handed to its tagger.
    StreamItem,
    /// The source is exhausted.
    StreamEnded,
    /// The source has no value yet.
    StreamPending,
    /// The routing computation finished with a value and the sink key of its
    /// tag, if a sink was ever registered under that tag.
    TaggerReady(A, Option<u64>),
    /// The routing computation is not finished.
    TaggerPending,
    /// The sink is ready to take a value.
    SinkReady,
    /// The sink failed while getting ready.
    SinkFailed,
    /// The sink is not ready yet.
    SinkNotReady,
    /// The sink took the value.
    SendAccepted,
    /// The sink refused the value.
    SendFailed,
    /// The sink was flushed.
    FlushDone,
    /// The sink failed while flushing.
    FlushFailed,
    /// The flush is not finished.
    FlushPending,
}

/// What one poll of the router yields.
#[derive(Debug, PartialEq)]
pub enum RoutePoll<A> {
    /// A value whose tag names no sink.
    Item(A),
    /// Every source is exhausted.
    Ended,
    /// Nothing to yield now.
    Pending,
}

/// The next piece of outside work, or the end of the poll.
#[derive(Debug, PartialEq)]
pub enum Action<A> {
    /// Poll source number `i` for its next value.
    PollStream(usize),
    /// Poll the routing computation of source number `i`.
    PollTagger(usize),
    /// Ask the sink with this key whether it is ready.
    PollSinkReady(u64),
    /// Hand the value to the sink with this key.
    StartSend(u64, A),
    /// Flush the sink with this key.
    PollFlush(u64),
    /// The poll is over with this result.
    Finish(RoutePoll<A>),
}

/// How the handling of an event goes on.
pub enum Flow<A> {
    /// Go on with the same source.
    Continue,
    /// Go on with the next source.
    Break,
    /// End the poll, yielding the value.
    Yield(A),
}

/// The mathematical state of a router.
pub struct RouterModel<A> {
    pub streams: Seq<StreamSlot<A>>,
    /// For each registered sink, the number of sources handing it a value.
    pub sinks: Map<u64, usize>,
    /// The source the current poll is at.
    pub cursor: nat,
    /// The number of turns the current poll has left.
    pub remaining: nat,
    pub awaiting: Awaiting,
}

/// The slot is handing its value to sink `s` or flushing it.
pub open spec fn delivering_to<A>(slot: StreamSlot<A>, s: u64) -> bool {
    &&& (slot.state == StreamState::SinkActive || slot.state == StreamState::SinkFlushing)
    &&& slot.pending_sink == Some(s)
}

pub open spec fn delivers<A>(slot: StreamSlot<A>, s: u64) -> int {
    if delivering_to(slot, s) {
        1
    } else {
        0
    }
}

/// The number of sources that are handing a value to sink `s` or flushing it.
pub open spec fn senders<A>(streams: Seq<StreamSlot<A>>, s: u64) -> nat
    decreases streams.len(),
{
    if streams.len() == 0 {
        0
    } else {
        (senders(streams.drop_last(), s) + delivers(streams.last(), s)) as nat
    }
}

/// What a slot holds in each state. `handed_out` is set while the slot's
/// value is with its sink.
pub open spec fn slot_ok<A>(slot: StreamSlot<A>, handed_out: bool, sinks: Map<u64, usize>) -> bool {
    match slot.state {
        StreamState::StreamActive => slot.pending_item is None && slot.pending_sink is None,
        StreamState::TaggerActive => slot.pending_item is None && slot.pending_sink is None,
        StreamState::SinkPending => {
            &&& slot.pending_item is Some
            &&& slot.pending_sink matches Some(s) && sinks.contains_key(s)
        },
        StreamState::SinkActive => {
            &&& (slot.pending_item is Some) == !handed_out
            &&& slot.pending_sink matches Some(s) && sinks.contains_key(s)
        },
        StreamState::SinkFlushing => {
            &&& slot.pending_item is None
            &&& slot.pending_sink matches Some(s) && sinks.contains_key(s)
        },
    }
}

pub open spec fn set_state<A>(slot: StreamSlot<A>, state: StreamState) -> StreamSlot<A> {
    StreamSlot { state, ..slot }
}

/// The slot goes back to taking values from its source.
pub open spec fn reset<A>(slot: StreamSlot<A>) -> StreamSlot<A> {
    StreamSlot { state: StreamState::StreamActive, pending_sink: None, pending_item: None }
}

impl<A> RouterModel<A> {
    pub open spec fn slot(self) -> StreamSlot<A> {
        self.streams[self.cursor as int]
    }

    pub open spec fn handed_out(self, i: int) -> bool {
        self.awaiting == Awaiting::Send && self.cursor == i
    }

    /// Every slot holds what its state says, and the count of each sink
    /// is the number of sources handing it a value.
    pub open spec fn consistent(self) -> bool {
        &&& forall|i: int|
            0 <= i < self.streams.len() ==> #[trigger] slot_ok(
                self.streams[i],
                self.handed_out(i),
                self.sinks,
            )
        &&& forall|s: u64| #[trigger]
            self.sinks.contains_key(s) ==> self.sinks[s] == senders(self.streams, s)
    }

    /// The outside work being waited for fits the slot at the cursor.
    pub open spec fn awaiting_ok(self) -> bool {
        self.awaiting != Awaiting::Idle ==> {
            &&& self.cursor < self.streams.len()
            &&& self.remaining > 0
            &&& match self.awaiting {
                Awaiting::Stream => self.slot().state == StreamState::StreamActive,
                Awaiting::Tagger => self.slot().state == StreamState::TaggerActive,
                Awaiting::SinkReady => {
                    &&& self.slot().state == StreamState::SinkPending
                    &&& self.slot().pending_sink matches Some(s) && self.sinks.contains_key(s)
                        && self.sinks[s] == 0
                },
                Awaiting::Send => self.slot().state == StreamState::SinkActive,
                Awaiting::Flush => {
                    &&& self.slot().state == StreamState::SinkFlushing
                    &&& self.slot().pending_sink matches Some(s) && self.sinks[s] == 1
                },
                Awaiting::Idle => true,
            }
        }
    }

    /// The poll has no more turns than there are sources, and there are no
    /// more sources than a `usize` counts.
    pub open spec fn bounded(self) -> bool {
        self.remaining <= self.streams.len() <= usize::MAX
    }

    pub open spec fn wf(self) -> bool {
        self.consistent() && self.awaiting_ok() && self.bounded()
    }

    /// A state from which the router can decide its next action.
    pub open spec fn runnable(self) -> bool {
        &&& self.consistent()
        &&& self.awaiting == Awaiting::Idle
        &&& self.bounded()
        &&& self.remaining > 0 ==> self.cursor < self.streams.len()
    }

    pub open spec fn idle(self) -> RouterModel<A> {
        RouterModel { awaiting: Awaiting::Idle, ..self }
    }

    pub open spec fn with_slot(self, slot: StreamSlot<A>) -> RouterModel<A> {
        RouterModel { streams: self.streams.update(self.cursor as int, slot), ..self }
    }

    pub open spec fn with_count(self, s: u64, n: int) -> RouterModel<A> {
        RouterModel { sinks: self.sinks.insert(s, n as usize), ..self }
    }

    pub open spec fn awaiting(self, w: Awaiting) -> RouterModel<A> {
        RouterModel { awaiting: w, ..self }
    }

    /// Moves to the next source, using up one turn.
    pub open spec fn advance(self) -> RouterModel<A> {
        RouterModel {
            cursor: ((self.cursor + 1) % self.streams.len()) as nat,
            remaining: (self.remaining - 1) as nat,
            ..self
        }
    }

    pub open spec fn rank(self) -> nat {
        if self.cursor < self.streams.len() {
            match self.slot().state {
                StreamState::SinkPending => 2,
                StreamState::SinkFlushing => 1,
                _ => 0,
            }
        } else {
            0
        }
    }

    /// The sink key `t` names a registered sink.
    pub open spec fn registered(self, t: Option<u64>) -> bool {
        t matches Some(s) && self.sinks.contains_key(s)
    }

    /// The router decides what to do at the cursor, going on by itself for
    /// as long as no outside work is needed.
    pub open spec fn run(self) -> (RouterModel<A>, Action<A>)
        decreases self.remaining, self.rank(),
    {
        if self.remaining == 0 {
            if self.streams.len() == 0 {
                (self.idle(), Action::Finish(RoutePoll::Ended))
            } else {
                (self.idle(), Action::Finish(RoutePoll::Pending))
            }
        } else if self.cursor >= self.streams.len() {
            (self.idle(), Action::Finish(RoutePoll::Pending))
        } else {
            let i = self.cursor;
            let slot = self.slot();
            let s = slot.pending_sink->0;
            match slot.state {
                StreamState::StreamActive => (
                    self.awaiting(Awaiting::Stream),
                    Action::PollStream(i as usize),
                ),
                StreamState::TaggerActive => (
                    self.awaiting(Awaiting::Tagger),
                    Action::PollTagger(i as usize),
                ),
                StreamState::SinkPending => {
                    if self.registered(slot.pending_sink) {
                        if self.sinks[s] != 0 {
                            self.with_slot(set_state(slot, StreamState::SinkActive)).with_count(
                                s,
                                self.sinks[s] + 1,
                            ).run()
                        } else {
                            (self.awaiting(Awaiting::SinkReady), Action::PollSinkReady(s))
                        }
                    } else {
                        self.with_slot(reset(slot)).advance().run()
                    }
                },
                StreamState::SinkActive => (
                    self.with_slot(StreamSlot { pending_item: None, ..slot }).awaiting(
                        Awaiting::Send,
                    ),
                    Action::StartSend(s, slot.pending_item->0),
                ),
                StreamState::SinkFlushing => {
                    if self.sinks[s] > 1 {
                        self.with_slot(reset(slot)).with_count(s, self.sinks[s] - 1).run()
                    } else {
                        (self.awaiting(Awaiting::Flush), Action::PollFlush(s))
                    }
                },
            }
        }
    }

    /// The outside work that was asked for reported `e`.
    pub open spec fn expects(self, e: Event<A>) -> bool {
        match e {
            Event::StreamItem | Event::StreamEnded | Event::StreamPending => self.awaiting
                == Awaiting::Stream,
            Event::TaggerReady(..) | Event::TaggerPending => self.awaiting == Awaiting::Tagger,
            Event::SinkReady | Event::SinkFailed | Event::SinkNotReady => self.awaiting
                == Awaiting::SinkReady,
            Event::SendAccepted | Event::SendFailed => self.awaiting == Awaiting::Send,
            Event::FlushDone | Event::FlushFailed | Event::FlushPending => self.awaiting
                == Awaiting::Flush,
        }
    }

    /// A source that has delivered nothing yet added after the others.
    pub open spec fn add_source(self) -> RouterModel<A> {
        RouterModel {
            streams: self.streams.push(
                StreamSlot {
                    state: StreamState::StreamActive,
                    pending_sink: None,
                    pending_item: None,
                },
            ),
            ..self
        }
    }

    /// The sink with key `k` registered, with no sender when it is new.
    pub open spec fn add_sink(self, k: u64) -> RouterModel<A> {
        if self.sinks.contains_key(k) {
            self
        } else {
            RouterModel { sinks: self.sinks.insert(k, 0), ..self }
        }
    }

    /// The state right after `e`, and how the poll goes on.
    pub open spec fn apply(self, e: Event<A>) -> (RouterModel<A>, Flow<A>) {
        let m = self.idle();
        let slot = self.slot();
        let s = slot.pending_sink->0;
        match e {
            Event::StreamItem => (
                m.with_slot(set_state(slot, StreamState::TaggerActive)),
                Flow::Continue,
            ),
            Event::StreamEnded => (
                RouterModel {
                    streams: self.streams.update(
                        self.cursor as int,
                        self.streams.last(),
                    ).drop_last(),
                    remaining: (self.remaining - 1) as nat,
                    cursor: if self.cursor + 1 < self.streams.len() {
                        self.cursor
                    } else {
                        0
                    },
                    ..m
                },
                Flow::Continue,
            ),
            Event::StreamPending => (m, Flow::Break),
            Event::TaggerReady(v, t) => {
                if self.registered(t) {
                    let k = t->0;
                    let routed = StreamSlot {
                        state: StreamState::SinkPending,
                        pending_sink: t,
                        pending_item: Some(v),
                    };
                    if self.sinks[k] == 0 {
                        (m.with_slot(routed), Flow::Continue)
                    } else {
                        (
                            m.with_slot(set_state(routed, StreamState::SinkActive)).with_count(
                                k,
                                self.sinks[k] + 1,
                            ),
                            Flow::Continue,
                        )
                    }
                } else {
                    (m.with_slot(set_state(slot, StreamState::StreamActive)), Flow::Yield(v))
                }
            },
            Event::TaggerPending => (m, Flow::Break),
            Event::SinkReady => (
                m.with_slot(set_state(slot, StreamState::SinkActive)).with_count(
                    s,
                    self.sinks[s] + 1,
                ),
                Flow::Continue,
            ),
            Event::SinkFailed => (m.with_slot(reset(slot)), Flow::Break),
            Event::SinkNotReady => (m, Flow::Break),
            Event::SendAccepted => (
                m.with_slot(set_state(slot, StreamState::SinkFlushing)),
                Flow::Continue,
            ),
            Event::SendFailed => (
                m.with_slot(reset(slot)).with_count(s, self.sinks[s] - 1),
                Flow::Break,
            ),
            Event::FlushDone | Event::FlushFailed => (
                m.with_slot(reset(slot)).with_count(s, self.sinks[s] - 1),
                Flow::Continue,
            ),
            Event::FlushPending => (m, Flow::Break),
        }
    }

    /// The state from which the router goes on deciding by itself after `e`.
    pub open spec fn settled(self, e: Event<A>) -> RouterModel<A> {
        let (m, flow) = self.apply(e);
        match flow {
            Flow::Break => m.advance(),
            _ => m,
        }
    }

    /// Applies `e`, then goes on until the next outside work or the end of the poll.
    pub open spec fn step(self, e: Event<A>) -> (RouterModel<A>, Action<A>) {
        let (m, flow) = self.apply(e);
        match flow {
            Flow::Continue => m.run(),
            Flow::Break => m.advance().run(),
            Flow::Yield(v) => (m, Action::Finish(RoutePoll::Item(v))),
        }
    }

    /// Starts a poll at source `first`, with one turn per source.
    pub open spec fn start(self, first: nat) -> (RouterModel<A>, Action<A>) {
        RouterModel { cursor: first, remaining: self.streams.len(), ..self.idle() }.run()
    }
}

proof fn lemma_senders_update<A>(streams: Seq<StreamSlot<A>>, i: int, x: StreamSlot<A>, s: u64)
    requires
        0 <= i < streams.len(),
    ensures
        senders(streams.update(i, x), s) == senders(streams, s) - delivers(streams[i], s)
            + delivers(x, s),
    decreases streams.len(),
{
    let u = streams.update(i, x);
    if i == streams.len() - 1 {
        assert(u.drop_last() =~= streams.drop_last());
    } else {
        assert(u.drop_last() =~= streams.drop_last().update(i, x));
        lemma_senders_update(streams.drop_last(), i, x, s);
    }
}

proof fn lemma_senders_bound<A>(streams: Seq<StreamSlot<A>>, s: u64)
    ensures
        senders(streams, s) <= streams.len(),
    decreases streams.len(),
{
    if streams.len() > 0 {
        lemma_senders_bound(streams.drop_last(), s);
    }
}

proof fn lemma_senders_none<A>(streams: Seq<StreamSlot<A>>, s: u64)
    requires
        forall|i: int| 0 <= i < streams.len() ==> !delivering_to(#[trigger] streams[i], s),
    ensures
        senders(streams, s) == 0,
    decreases streams.len(),
{
    if streams.len() > 0 {
        assert(!delivering_to(streams[streams.len() - 1], s));
        lemma_senders_none(streams.drop_last(), s);
    }
}

/// A sink that some source is handing a value to counts at least one sender.
pub proof fn lemma_senders_some<A>(streams: Seq<StreamSlot<A>>, i: int, s: u64)
    requires
        0 <= i < streams.len(),
        delivering_to(streams[i], s),
    ensures
        senders(streams, s) >= 1,
    decreases streams.len(),
{
    if i < streams.len() - 1 {
        lemma_senders_some(streams.drop_last(), i, s);
    }
}

/// Replacing the slot at `i` changes each count by what the two slots deliver.
proof fn lemma_counts_after_update<A>(m: RouterModel<A>, x: StreamSlot<A>)
    requires
        m.cursor < m.streams.len(),
    ensures
        forall|s: u64| #[trigger]
            senders(m.streams.update(m.cursor as int, x), s) == senders(m.streams, s)
                - delivers(m.slot(), s) + delivers(x, s),
{
    assert forall|s: u64| #[trigger]
        senders(m.streams.update(m.cursor as int, x), s) == senders(m.streams, s) - delivers(
            m.slot(),
            s,
        ) + delivers(x, s) by {
        lemma_senders_update(m.streams, m.cursor as int, x, s);
    }
}

/// Removing a slot that delivers nothing, by moving the last one in its place,
/// leaves every count as it was.
proof fn lemma_counts_after_removal<A>(streams: Seq<StreamSlot<A>>, i: int)
    requires
        0 <= i < streams.len(),
        forall|s: u64| !delivering_to(#[trigger] streams[i], s),
    ensures
        forall|s: u64| #[trigger]
            senders(streams.update(i, streams.last()).drop_last(), s) == senders(streams, s),
{
    assert forall|s: u64| #[trigger]
        senders(streams.update(i, streams.last()).drop_last(), s) == senders(streams, s) by {
        let u = streams.update(i, streams.last());
        lemma_senders_update(streams, i, streams.last(), s);
        assert(!delivering_to(streams[i], s));
        assert(u.last() == streams.last());
    }
}

/// Replacing the slot at the cursor keeps the router consistent when the new
/// slot holds what its state says and the counts follow the change.
proof fn lemma_slot_change<A>(
    m: RouterModel<A>,
    x: StreamSlot<A>,
    sinks: Map<u64, usize>,
    w: Awaiting,
)
    requires
        m.consistent(),
        m.cursor < m.streams.len(),
        sinks.dom() == m.sinks.dom(),
        slot_ok(x, w == Awaiting::Send, sinks),
        forall|s: u64| #[trigger]
            sinks.contains_key(s) ==> sinks[s] == senders(m.streams, s) - delivers(m.slot(), s)
                + delivers(x, s),
    ensures
        (RouterModel {
            streams: m.streams.update(m.cursor as int, x),
            sinks,
            awaiting: w,
            ..m
        }).consistent(),
{
    let n = RouterModel { streams: m.streams.update(m.cursor as int, x), sinks, awaiting: w, ..m };
    lemma_counts_after_update(m, x);
    assert forall|i: int| 0 <= i < n.streams.len() implies #[trigger] slot_ok(
        n.streams[i],
        n.handed_out(i),
        n.sinks,
    ) by {
        if i != m.cursor {
            assert(slot_ok(m.streams[i], m.handed_out(i), m.sinks));
        }
    }
}

/// Handing the value of the slot at the cursor to its sink keeps the router consistent.
proof fn lemma_hand_out<A>(m: RouterModel<A>)
    requires
        m.consistent(),
        m.awaiting == Awaiting::Idle,
        m.cursor < m.streams.len(),
        m.slot().state == StreamState::SinkActive,
    ensures
        m.with_slot(StreamSlot { pending_item: None, ..m.slot() }).awaiting(
            Awaiting::Send,
        ).consistent(),
{
    let x = StreamSlot { pending_item: None, ..m.slot() };
    let n = m.with_slot(x).awaiting(Awaiting::Send);
    lemma_counts_after_update(m, x);
    assert(slot_ok(m.streams[m.cursor as int], m.handed_out(m.cursor as int), m.sinks));
    assert forall|i: int| 0 <= i < n.streams.len() implies #[trigger] slot_ok(
        n.streams[i],
        n.handed_out(i),
        n.sinks,
    ) by {
        if i != m.cursor {
            assert(slot_ok(m.streams[i], m.handed_out(i), m.sinks));
        }
    }
}

/// Moving on to the next source keeps the router consistent.
proof fn lemma_advance_keeps<A>(m: RouterModel<A>)
    requires
        m.consistent(),
        m.awaiting == Awaiting::Idle,
        m.streams.len() > 0,
    ensures
        m.advance().consistent(),
{
    let n = m.advance();
    assert forall|i: int| 0 <= i < n.streams.len() implies #[trigger] slot_ok(
        n.streams[i],
        n.handed_out(i),
        n.sinks,
    ) by {
        assert(slot_ok(m.streams[i], m.handed_out(i), m.sinks));
    }
}

/// Removing a source that holds no value, by moving the last one in its
/// place, keeps the router consistent.
proof fn lemma_removal_keeps<A>(m: RouterModel<A>)
    requires
        m.consistent(),
        m.awaiting != Awaiting::Send,
        m.cursor < m.streams.len(),
        m.slot().state == StreamState::StreamActive,
    ensures
        (RouterModel {
            streams: m.streams.update(m.cursor as int, m.streams.last()).drop_last(),
            remaining: (m.remaining - 1) as nat,
            ..m.idle()
        }).consistent(),
{
    let i = m.cursor as int;
    let n = RouterModel {
        streams: m.streams.update(i, m.streams.last()).drop_last(),
        remaining: (m.remaining - 1) as nat,
        ..m.idle()
    };
    lemma_counts_after_removal(m.streams, i);
    assert forall|j: int| 0 <= j < n.streams.len() implies #[trigger] slot_ok(
        n.streams[j],
        n.handed_out(j),
        n.sinks,
    ) by {
        if j == i {
            let l = m.streams.len() - 1;
            assert(slot_ok(m.streams[l], m.handed_out(l), m.sinks));
        } else {
            assert(slot_ok(m.streams[j], m.handed_out(j), m.sinks));
        }
    }
}

/// While nothing is being waited for, where the poll stands does not matter
/// to consistency.
pub proof fn lemma_reposition<A>(m: RouterModel<A>, cursor: nat, remaining: nat)
    requires
        m.consistent(),
        m.awaiting == Awaiting::Idle,
    ensures
        (RouterModel { cursor, remaining, ..m }).consistent(),
{
    let n = RouterModel { cursor, remaining, ..m };
    assert forall|i: int| 0 <= i < n.streams.len() implies #[trigger] slot_ok(
        n.streams[i],
        n.handed_out(i),
        n.sinks,
    ) by {
        assert(slot_ok(m.streams[i], m.handed_out(i), m.sinks));
    }
}

/// Replacing the slot at the cursor by `x`, which holds what its state says,
/// and setting the count of sink `s`, the only sink either slot names, to its
/// new number of senders keeps the router consistent.
proof fn lemma_recount<A>(m: RouterModel<A>, x: StreamSlot<A>, s: u64)
    requires
        m.consistent(),
        m.cursor < m.streams.len(),
        m.streams.len() <= usize::MAX,
        m.sinks.contains_key(s),
        slot_ok(x, false, m.sinks),
        m.slot().pending_sink is None || m.slot().pending_sink == Some(s),
        x.pending_sink is None || x.pending_sink == Some(s),
    ensures
        0 <= m.sinks[s] - delivers(m.slot(), s) + delivers(x, s) <= usize::MAX,
        (RouterModel {
            streams: m.streams.update(m.cursor as int, x),
            sinks: m.sinks.insert(
                s,
                (m.sinks[s] - delivers(m.slot(), s) + delivers(x, s)) as usize,
            ),
            awaiting: Awaiting::Idle,
            ..m
        }).consistent(),
{
    let n = m.sinks[s] - delivers(m.slot(), s) + delivers(x, s);
    let sinks = m.sinks.insert(s, n as usize);
    lemma_counts_after_update(m, x);
    lemma_senders_bound(m.streams.update(m.cursor as int, x), s);
    assert forall|s2: u64| #[trigger] sinks.contains_key(s2) implies sinks[s2] == senders(
        m.streams,
        s2,
    ) - delivers(m.slot(), s2) + delivers(x, s2) by {
        if s2 != s {
            assert(m.sinks.contains_key(s2));
        }
    }
    assert(sinks.dom() =~= m.sinks.dom());
    lemma_slot_change(m, x, sinks, Awaiting::Idle);
}

/// Waiting for outside work other than a send changes nothing that the slots hold.
proof fn lemma_await_keeps<A>(m: RouterModel<A>, w: Awaiting)
    requires
        m.consistent(),
        m.awaiting != Awaiting::Send,
        w != Awaiting::Send,
    ensures
        m.awaiting(w).consistent(),
{
    let n = m.awaiting(w);
    assert forall|i: int| 0 <= i < n.streams.len() implies #[trigger] slot_ok(
        n.streams[i],
        n.handed_out(i),
        n.sinks,
    ) by {
        assert(slot_ok(m.streams[i], m.handed_out(i), m.sinks));
    }
}

/// The value a slot holds for sink `k`, if any.
pub open spec fn pend<A>(slot: StreamSlot<A>, k: u64) -> Seq<A> {
    if slot.pending_item is Some && slot.pending_sink == Some(k) {
        seq![slot.pending_item->0]
    } else {
        Seq::empty()
    }
}

/// What deciding by itself does to a router: it stays well formed, keeps its
/// sources, its sink keys, its cursor and its turns, never yields a value,
/// and changes what a slot holds only when it hands the value at the cursor
/// to its sink.
pub proof fn lemma_run_facts<A>(m: RouterModel<A>)
    requires
        m.runnable(),
    ensures
        m.run().0.wf(),
        m.run().0.sinks.dom() == m.sinks.dom(),
        m.run().0.streams.len() == m.streams.len(),
        m.run().0.cursor == m.cursor,
        m.run().0.remaining == m.remaining,
        m.run().1 is Finish ==> m.remaining == 0 && m.run().0 == m,
        !(m.run().1 matches Action::Finish(RoutePoll::Item(_))),
        m.run().1 is PollStream ==> m.run().0.awaiting == Awaiting::Stream
            && m.run().1->PollStream_0 == m.cursor,
        m.run().1 is PollTagger ==> m.run().0.awaiting == Awaiting::Tagger
            && m.run().1->PollTagger_0 == m.cursor,
        forall|i: int|
            0 <= i < m.streams.len() && i != m.cursor ==> #[trigger] m.run().0.streams[i]
                == m.streams[i],
        forall|i: int, k: u64|
            0 <= i < m.streams.len() && !(m.run().1 is StartSend && i == m.cursor) ==> #[trigger] pend(
                m.run().0.streams[i],
                k,
            ) == pend(m.streams[i], k),
        m.run().1 matches Action::StartSend(k, x) ==> {
            &&& m.cursor < m.streams.len()
            &&& pend(m.slot(), k) == seq![x]
            &&& forall|k2: u64| #[trigger] pend(m.run().0.slot(), k2) == Seq::<A>::empty()
        },
    decreases m.remaining, m.rank(),
{
    if m.remaining == 0 {
        assert(m.idle() == m);
        return;
    }
    let i = m.cursor as int;
    let slot = m.slot();
    let s = slot.pending_sink->0;
    assert(slot_ok(m.streams[i], m.handed_out(i), m.sinks));
    match slot.state {
        StreamState::StreamActive => {
            lemma_await_keeps(m, Awaiting::Stream);
        },
        StreamState::TaggerActive => {
            lemma_await_keeps(m, Awaiting::Tagger);
        },
        StreamState::SinkPending => {
            let c = m.sinks[s];
            if c != 0 {
                let x = set_state(slot, StreamState::SinkActive);
                assert(delivers(x, s) == 1);
                assert(delivers(slot, s) == 0);
                lemma_recount(m, x, s);
                let n = m.with_slot(x).with_count(s, c + 1);
                assert(n == RouterModel {
                    streams: m.streams.update(i, x),
                    sinks: m.sinks.insert(s, (c + 1) as usize),
                    awaiting: Awaiting::Idle,
                    ..m
                });
                lemma_run_facts(n);
                assert forall|j: int, k: u64|
                    0 <= j < m.streams.len() && !(m.run().1 is StartSend && j == m.cursor) implies #[trigger] pend(
                    m.run().0.streams[j],
                    k,
                ) == pend(m.streams[j], k) by {
                    assert(pend(n.streams[j], k) == pend(m.streams[j], k));
                }
                if m.run().1 is StartSend {
                    assert(pend(n.slot(), s) == pend(m.slot(), s));
                    assert forall|k2: u64| #[trigger] pend(n.slot(), k2) == pend(m.slot(), k2) by {}
                }
            } else {
                lemma_await_keeps(m, Awaiting::SinkReady);
            }
        },
        StreamState::SinkActive => {
            lemma_hand_out(m);
        },
        StreamState::SinkFlushing => {
            let c = m.sinks[s];
            lemma_senders_some(m.streams, i, s);
            if c > 1 {
                let x = reset(slot);
                lemma_recount(m, x, s);
                let n = m.with_slot(x).with_count(s, c - 1);
                assert(n == RouterModel {
                    streams: m.streams.update(i, x),
                    sinks: m.sinks.insert(s, (c - 1) as usize),
                    awaiting: Awaiting::Idle,
                    ..m
                });
                lemma_run_facts(n);
                assert forall|j: int, k: u64|
                    0 <= j < m.streams.len() && !(m.run().1 is StartSend && j == m.cursor) implies #[trigger] pend(
                    m.run().0.streams[j],
                    k,
                ) == pend(m.streams[j], k) by {
                    assert(pend(n.streams[j], k) == pend(m.streams[j], k));
                }
            } else {
                lemma_await_keeps(m, Awaiting::Flush);
            }
        },
    }
}

/// What an event does before the router goes on by itself: the state is
/// ready to run (or well formed, when a value is yielded), the sink keys stay,
/// an ended source is swapped out, and of the other slots only the one at the
/// cursor changes what it holds, as the event says.
pub proof fn lemma_apply_facts<A>(m: RouterModel<A>, e: Event<A>)
    requires
        m.wf(),
        m.expects(e),
    ensures
        m.apply(e).1 is Yield ==> m.settled(e).wf() && m.settled(e).cursor == m.cursor,
        !(m.apply(e).1 is Yield) ==> m.settled(e).runnable(),
        m.settled(e).sinks.dom() == m.sinks.dom(),
        m.cursor < m.streams.len(),
        e is StreamEnded ==> {
            &&& m.settled(e).streams == m.streams.update(m.cursor as int, m.streams.last()).drop_last()
            &&& forall|k: u64| #[trigger] pend(m.slot(), k) == Seq::<A>::empty()
        },
        !(e is StreamEnded) ==> {
            &&& m.settled(e).streams.len() == m.streams.len()
            &&& forall|i: int|
                0 <= i < m.streams.len() && i != m.cursor ==> #[trigger] m.settled(e).streams[i]
                    == m.streams[i]
        },
        e matches Event::TaggerReady(v, t) ==> {
            &&& forall|k: u64| #[trigger] pend(m.slot(), k) == Seq::<A>::empty()
            &&& forall|k: u64|
                #[trigger] pend(m.settled(e).streams[m.cursor as int], k) == if m.registered(t)
                    && t == Some(k) {
                    seq![v]
                } else {
                    Seq::<A>::empty()
                }
        },
        e is SinkFailed ==> forall|k: u64| #[trigger]
            pend(m.settled(e).streams[m.cursor as int], k) == Seq::<A>::empty(),
        !(e is StreamEnded || e is TaggerReady || e is SinkFailed) ==> forall|k: u64| #[trigger]
            pend(m.settled(e).streams[m.cursor as int], k) == pend(m.slot(), k),
        m.apply(e).1 is Break ==> m.settled(e).cursor == (m.cursor + 1) % m.streams.len(),
        !(m.apply(e).1 is Break) && !(e is StreamEnded) ==> m.settled(e).cursor == m.cursor,
{
    let i = m.cursor as int;
    let slot = m.slot();
    let s = slot.pending_sink->0;
    assert(slot_ok(m.streams[i], m.handed_out(i), m.sinks));
    let q = m.settled(e);
    match e {
        Event::StreamItem => {
            lemma_slot_change(m, set_state(slot, StreamState::TaggerActive), m.sinks, Awaiting::Idle);
            assert(q == RouterModel {
                streams: m.streams.update(i, set_state(slot, StreamState::TaggerActive)),
                sinks: m.sinks,
                awaiting: Awaiting::Idle,
                ..m
            });
        },
        Event::StreamEnded => {
            lemma_removal_keeps(m);
            let r = RouterModel {
                streams: m.streams.update(m.cursor as int, m.streams.last()).drop_last(),
                remaining: (m.remaining - 1) as nat,
                ..m.idle()
            };
            lemma_reposition(r, q.cursor, r.remaining);
        },
        Event::StreamPending | Event::TaggerPending | Event::SinkNotReady | Event::FlushPending => {
            lemma_await_keeps(m, Awaiting::Idle);
            lemma_advance_keeps(m.idle());
        },
        Event::TaggerReady(v, t) => {
            if m.registered(t) {
                let k = t->0;
                let c = m.sinks[k];
                if c == 0 {
                    let x = StreamSlot {
                        state: StreamState::SinkPending,
                        pending_sink: t,
                        pending_item: Some(v),
                    };
                    lemma_slot_change(m, x, m.sinks, Awaiting::Idle);
                    assert(q == RouterModel {
                        streams: m.streams.update(i, x),
                        sinks: m.sinks,
                        awaiting: Awaiting::Idle,
                        ..m
                    });
                } else {
                    let x = StreamSlot {
                        state: StreamState::SinkActive,
                        pending_sink: t,
                        pending_item: Some(v),
                    };
                    assert(delivers(x, k) == 1);
                    assert(delivers(slot, k) == 0);
                    lemma_recount(m, x, k);
                    assert(q == RouterModel {
                        streams: m.streams.update(i, x),
                        sinks: m.sinks.insert(k, (c + 1) as usize),
                        awaiting: Awaiting::Idle,
                        ..m
                    });
                }
            } else {
                lemma_slot_change(m, set_state(slot, StreamState::StreamActive), m.sinks, Awaiting::Idle);
                assert(q == RouterModel {
                    streams: m.streams.update(i, set_state(slot, StreamState::StreamActive)),
                    sinks: m.sinks,
                    awaiting: Awaiting::Idle,
                    ..m
                });
            }
        },
        Event::SinkReady => {
            let c = m.sinks[s];
            let x = set_state(slot, StreamState::SinkActive);
            lemma_recount(m, x, s);
            assert(q == RouterModel {
                streams: m.streams.update(i, x),
                sinks: m.sinks.insert(s, (c + 1) as usize),
                awaiting: Awaiting::Idle,
                ..m
            });
        },
        Event::SinkFailed => {
            lemma_slot_change(m, reset(slot), m.sinks, Awaiting::Idle);
            lemma_advance_keeps(m.idle().with_slot(reset(slot)));
        },
        Event::SendAccepted => {
            let x = set_state(slot, StreamState::SinkFlushing);
            lemma_slot_change(m, x, m.sinks, Awaiting::Idle);
            assert(q == RouterModel {
                streams: m.streams.update(i, x),
                sinks: m.sinks,
                awaiting: Awaiting::Idle,
                ..m
            });
        },
        Event::SendFailed => {
            let c = m.sinks[s];
            lemma_senders_some(m.streams, i, s);
            let x = reset(slot);
            lemma_recount(m, x, s);
            lemma_advance_keeps(m.idle().with_slot(x).with_count(s, c - 1));
        },
        Event::FlushDone | Event::FlushFailed => {
            let c = m.sinks[s];
            let x = reset(slot);
            lemma_recount(m, x, s);
            assert(q == RouterModel {
                streams: m.streams.update(i, x),
                sinks: m.sinks.insert(s, (c - 1) as usize),
                awaiting: Awaiting::Idle,
                ..m
            });
        },
    }
}

/// What a router does on `e`: it stays well formed and keeps its sink keys.
pub proof fn lemma_step_wf<A>(m: RouterModel<A>, e: Event<A>)
    requires
        m.wf(),
        m.expects(e),
    ensures
        m.step(e).0.wf(),
        m.step(e).0.sinks.dom() == m.sinks.dom(),
{
    lemma_apply_facts(m, e);
    if !(m.apply(e).1 is Yield) {
        lemma_run_facts(m.settled(e));
    }
}

/// Starting a poll keeps a router well formed and keeps its sink keys.
pub proof fn lemma_start_wf<A>(m: RouterModel<A>, first: nat)
    requires
        m.wf(),
        m.awaiting == Awaiting::Idle,
        m.streams.len() > 0 ==> first < m.streams.len(),
    ensures
        m.start(first).0.wf(),
        m.start(first).0.sinks.dom() == m.sinks.dom(),
{
    lemma_reposition(m, first, m.streams.len());
    lemma_run_facts(RouterModel { cursor: first, remaining: m.streams.len(), ..m.idle() });
}

/// Adding a source keeps a router well formed.
pub proof fn lemma_add_source_wf<A>(m: RouterModel<A>)
    requires
        m.wf(),
        m.streams.len() < usize::MAX,
    ensures
        m.add_source().wf(),
{
    let n = m.add_source();
    assert forall|i: int| 0 <= i < n.streams.len() implies #[trigger] slot_ok(
        n.streams[i],
        n.handed_out(i),
        n.sinks,
    ) by {
        if i < m.streams.len() {
            assert(slot_ok(m.streams[i], m.handed_out(i), m.sinks));
        }
    }
    assert forall|s: u64| #[trigger] n.sinks.contains_key(s) implies n.sinks[s] == senders(
        n.streams,
        s,
    ) by {
        assert(n.streams.drop_last() =~= m.streams);
    }
}

/// Adding a sink keeps a router well formed.
pub proof fn lemma_add_sink_wf<A>(m: RouterModel<A>, key: u64)
    requires
        m.wf(),
    ensures
        m.add_sink(key).wf(),
{
    if !m.sinks.contains_key(key) {
        assert forall|i: int| 0 <= i < m.streams.len() implies !delivering_to(
            #[trigger] m.streams[i],
            key,
        ) by {
            assert(slot_ok(m.streams[i], m.handed_out(i), m.sinks));
        }
        lemma_senders_none(m.streams, key);
        let n = m.add_sink(key);
        assert forall|i: int| 0 <= i < n.streams.len() implies #[trigger] slot_ok(
            n.streams[i],
            n.handed_out(i),
            n.sinks,
        ) by {
            assert(slot_ok(m.streams[i], m.handed_out(i), m.sinks));
        }
    }
}

/// The routing state of a router: its sources, the count of sources handing a
/// value to each registered sink, and where the current poll stands.
pub struct RouterCore<A> {
    streams: Vec<StreamSlot<A>>,
    sinks: HashMap<u64, usize>,
    cursor: usize,
    remaining: usize,
    awaiting: Awaiting,
}

impl<A> View for RouterCore<A> {
    type V = RouterModel<A>;

    closed spec fn view(&self) -> RouterModel<A> {
        RouterModel {
            streams: self.streams@,
            sinks: self.sinks@,
            cursor: self.cursor as nat,
            remaining: self.remaining as nat,
            awaiting: self.awaiting,
        }
    }
}

impl<A> RouterCore<A> {
    /// A router with no sources and no sinks.
    pub fn new() -> (core: RouterCore<A>)
        ensures
            core@.wf(),
            core@ == (RouterModel::<A> {
                streams: Seq::empty(),
                sinks: Map::empty(),
                cursor: 0,
                remaining: 0,
                awaiting: Awaiting::Idle,
            }),
    {
        RouterCore {
            streams: Vec::new(),
            sinks: HashMap::new(),
            cursor: 0,
            remaining: 0,
            awaiting: Awaiting::Idle,
        }
    }
    /// The number of sources.
    pub fn stream_count(&self) -> (n: usize)
        ensures
            n == self@.streams.len(),
    {
        self.streams.len()
    }

    /// Whether a poll is waiting for outside work.
    pub fn is_idle(&self) -> (b: bool)
        ensures
            b == (self@.awaiting == Awaiting::Idle),
    {
        match self.awaiting {
            Awaiting::Idle => true,
            _ => false,
        }
    }

    /// Whether some source is handing a value to the sink with this key.
    pub fn sink_busy(&self, key: u64) -> (b: bool)
        ensures
            b == (self@.sinks.contains_key(key) && self@.sinks[key] != 0),
    {
        match self.sinks.get(&key) {
            Some(c) => *c != 0,
            None => false,
        }
    }

    /// Whether `event` reports on the outside work that was asked for.
    pub fn expects(&self, event: &Event<A>) -> (b: bool)
        ensures
            b == self@.expects(*event),
    {
        match event {
            Event::StreamItem | Event::StreamEnded | Event::StreamPending => match self.awaiting {
                Awaiting::Stream => true,
                _ => false,
            },
            Event::TaggerReady(..) | Event::TaggerPending => match self.awaiting {
                Awaiting::Tagger => true,
                _ => false,
            },
            Event::SinkReady | Event::SinkFailed | Event::SinkNotReady => match self.awaiting {
                Awaiting::SinkReady => true,
                _ => false,
            },
            Event::SendAccepted | Event::SendFailed => match self.awaiting {
                Awaiting::Send => true,
                _ => false,
            },
            Event::FlushDone | Event::FlushFailed | Event::FlushPending => match self.awaiting {
                Awaiting::Flush => true,
                _ => false,
            },
        }
    }

    /// Adds a source that has delivered nothing yet, after the others.
    pub fn add_source(&mut self)
        requires
            old(self)@.wf(),
        ensures
            final(self)@.wf(),
            final(self)@ == old(self)@.add_source(),
    {
        let ghost m = self@;
        self.streams.push(StreamSlot::new());
        let count = self.streams.len();
        assert(self@.streams.len() == count);
        proof {
            lemma_add_source_wf(m);
            assert(self@ == m.add_source());
        }
    }

    /// Registers the sink with this key, with nobody handing it a value; a
    /// sink already registered under it keeps its count of senders.
    pub fn add_sink(&mut self, key: u64)
        requires
            old(self)@.wf(),
        ensures
            final(self)@.wf(),
            final(self)@ == old(self)@.add_sink(key),
    {
        proof {
            lemma_add_sink_wf(self@, key);
        }
        if !self.sinks.contains_key(&key) {
            self.sinks.insert(key, 0);
        }
    }

    /// Starts a poll at source `first`, with one turn per source, and goes on
    /// until the first outside work or the end of the poll.
    pub fn start(&mut self, first: usize) -> (action: Action<A>)
        requires
            old(self)@.wf(),
            old(self)@.awaiting == Awaiting::Idle,
            old(self)@.streams.len() > 0 ==> first < old(self)@.streams.len(),
        ensures
            final(self)@.wf(),
            (final(self)@, action) == old(self)@.start(first as nat),
            final(self)@.sinks.dom() == old(self)@.sinks.dom(),
    {
        proof {
            lemma_start_wf(self@, first as nat);
            lemma_reposition(self@, first as nat, self@.streams.len());
        }
        self.cursor = first;
        self.remaining = self.streams.len();
        self.run()
    }

    /// Decides what to do at the cursor, going on by itself for as long as no
    /// outside work is needed.
    fn run(&mut self) -> (action: Action<A>)
        requires
            old(self)@.runnable(),
        ensures
            final(self)@.wf(),
            (final(self)@, action) == old(self)@.run(),
    {
        let ghost target = self@.run();
        loop
            invariant
                self@.runnable(),
                self@.run() == target,
                target == old(self)@.run(),
            decreases self.remaining, self@.rank(),
        {
            if self.remaining == 0 {
                assert(self@.idle() == self@);
                if self.streams.len() == 0 {
                    return Action::Finish(RoutePoll::Ended);
                } else {
                    return Action::Finish(RoutePoll::Pending);
                }
            }
            let i = self.cursor;
            let ghost m = self@;
            assert(slot_ok(m.streams[i as int], m.handed_out(i as int), m.sinks));
            match self.streams[i].state {
                StreamState::StreamActive => {
                    self.awaiting = Awaiting::Stream;
                    proof { lemma_await_keeps(m, Awaiting::Stream); }
                    return Action::PollStream(i);
                },
                StreamState::TaggerActive => {
                    self.awaiting = Awaiting::Tagger;
                    proof { lemma_await_keeps(m, Awaiting::Tagger); }
                    return Action::PollTagger(i);
                },
                StreamState::SinkPending => {
                    let s = self.streams[i].pending_sink.unwrap();
                    let count = self.sinks.get(&s);
                    match count {
                        Some(c) => {
                            let c = *c;
                            if c != 0 {
                                let ghost x = set_state(m.slot(), StreamState::SinkActive);
                                proof {
                                    assert(delivers(x, s) == 1);
                                    assert(delivers(m.slot(), s) == 0);
                                    lemma_recount(m, x, s);
                                }
                                self.streams[i].state = StreamState::SinkActive;
                                self.sinks.insert(s, c + 1);
                                proof {
                                    assert(self@ == m.with_slot(x).with_count(s, c + 1));
                                }
                            } else {
                                self.awaiting = Awaiting::SinkReady;
                                proof { lemma_await_keeps(m, Awaiting::SinkReady); }
                                return Action::PollSinkReady(s);
                            }
                        },
                        None => {
                            proof {
                                lemma_slot_change(m, reset(m.slot()), m.sinks, Awaiting::Idle);
                            }
                            self.streams.set(i, StreamSlot::new());
                            let n = self.streams.len();
                            self.cursor = (i + 1) % n;
                            self.remaining = self.remaining - 1;
                            proof {
                                assert(self@ == m.with_slot(reset(m.slot())).advance());
                                lemma_advance_keeps(m.with_slot(reset(m.slot())));
                            }
                        },
                    }
                },
                StreamState::SinkActive => {
                    let s = self.streams[i].pending_sink.unwrap();
                    let item = self.streams[i].pending_item.take().unwrap();
                    self.awaiting = Awaiting::Send;
                    proof {
                        assert(self@ == m.with_slot(
                            StreamSlot { pending_item: None, ..m.slot() },
                        ).awaiting(Awaiting::Send));
                        lemma_hand_out(m);
                    }
                    return Action::StartSend(s, item);
                },
                StreamState::SinkFlushing => {
                    let s = self.streams[i].pending_sink.unwrap();
                    let c = *self.sinks.get(&s).unwrap();
                    if c > 1 {
                        proof {
                            lemma_senders_some(m.streams, i as int, s);
                            lemma_recount(m, reset(m.slot()), s);
                        }
                        self.streams.set(i, StreamSlot::new());
                        self.sinks.insert(s, c - 1);
                        proof {
                            assert(self@ == m.with_slot(reset(m.slot())).with_count(s, c - 1));
                            assert(self@.consistent());
                        }
                    } else {
                        self.awaiting = Awaiting::Flush;
                        proof { lemma_await_keeps(m, Awaiting::Flush); }
                        proof {
                            lemma_senders_some(m.streams, i as int, s);
                        }
                        return Action::PollFlush(s);
                    }
                },
            }
        }
    }
    /// Applies the outcome of the outside work that was asked for, then goes
    /// on until the next outside work or the end of the poll.
    pub fn step(&mut self, event: Event<A>) -> (action: Action<A>)
        requires
            old(self)@.wf(),
            old(self)@.expects(event),
        ensures
            final(self)@.wf(),
            (final(self)@, action) == old(self)@.step(event),
            final(self)@.sinks.dom() == old(self)@.sinks.dom(),
    {
        let ghost m = self@;
        proof {
            lemma_step_wf(m, event);
        }
        let i = self.cursor;
        proof {
            assert(slot_ok(m.streams[i as int], m.handed_out(i as int), m.sinks));
        }
        self.awaiting = Awaiting::Idle;
        match event {
            Event::StreamItem => {
                proof {
                    lemma_slot_change(
                        m,
                        set_state(m.slot(), StreamState::TaggerActive),
                        m.sinks,
                        Awaiting::Idle,
                    );
                }
                self.streams[i].state = StreamState::TaggerActive;
                proof {
                    assert(self@ == m.idle().with_slot(
                        set_state(m.slot(), StreamState::TaggerActive),
                    ));
                }
                self.run()
            },
            Event::StreamEnded => {
                proof {
                    lemma_removal_keeps(m);
                    let r = RouterModel {
                        streams: m.streams.update(m.cursor as int, m.streams.last()).drop_last(),
                        remaining: (m.remaining - 1) as nat,
                        ..m.idle()
                    };
                    lemma_reposition(r, m.apply(event).0.cursor, r.remaining);
                }
                let _ended = self.streams.swap_remove(i);
                self.remaining = self.remaining - 1;
                if self.cursor >= self.streams.len() {
                    self.cursor = 0;
                }
                self.run()
            },
            Event::StreamPending | Event::TaggerPending | Event::SinkNotReady
            | Event::FlushPending => {
                proof {
                    lemma_await_keeps(m, Awaiting::Idle);
                    lemma_advance_keeps(m.idle());
                }
                let n = self.streams.len();
                self.cursor = (i + 1) % n;
                self.remaining = self.remaining - 1;
                self.run()
            },
            Event::TaggerReady(v, t) => {
                if let Some(k) = t {
                    if let Some(c) = self.sinks.get(&k) {
                        let c = *c;
                        if c == 0 {
                            let ghost x = StreamSlot {
                                state: StreamState::SinkPending,
                                pending_sink: t,
                                pending_item: Some(v),
                            };
                            proof {
                                lemma_slot_change(m, x, m.sinks, Awaiting::Idle);
                            }
                            self.streams.set(
                                i,
                                StreamSlot {
                                    state: StreamState::SinkPending,
                                    pending_sink: Some(k),
                                    pending_item: Some(v),
                                },
                            );
                            proof {
                                assert(self@ == m.idle().with_slot(x));
                            }
                        } else {
                            let ghost x = StreamSlot {
                                state: StreamState::SinkActive,
                                pending_sink: t,
                                pending_item: Some(v),
                            };
                            let n = self.streams.len();
                            proof {
                                assert(delivers(m.slot(), k) == 0);
                                assert(delivers(x, k) == 1);
                                lemma_recount(m, x, k);
                            }
                            self.streams.set(
                                i,
                                StreamSlot {
                                    state: StreamState::SinkActive,
                                    pending_sink: Some(k),
                                    pending_item: Some(v),
                                },
                            );
                            self.sinks.insert(k, c + 1);
                            proof {
                                assert(self@ == m.idle().with_slot(x).with_count(k, c + 1));
                            }
                        }
                        return self.run();
                    }
                }
                proof {
                    lemma_slot_change(
                        m,
                        set_state(m.slot(), StreamState::StreamActive),
                        m.sinks,
                        Awaiting::Idle,
                    );
                }
                self.streams[i].state = StreamState::StreamActive;
                proof {
                    assert(self@ == m.idle().with_slot(
                        set_state(m.slot(), StreamState::StreamActive),
                    ));
                }
                Action::Finish(RoutePoll::Item(v))
            },
            Event::SinkReady => {
                let k = self.streams[i].pending_sink.unwrap();
                let c = *self.sinks.get(&k).unwrap();
                let ghost x = set_state(m.slot(), StreamState::SinkActive);
                proof {
                    lemma_recount(m, x, k);
                }
                self.streams[i].state = StreamState::SinkActive;
                self.sinks.insert(k, c + 1);
                proof {
                    assert(self@ == m.idle().with_slot(x).with_count(k, c + 1));
                }
                self.run()
            },
            Event::SinkFailed => {
                proof {
                    lemma_slot_change(m, reset(m.slot()), m.sinks, Awaiting::Idle);
                    lemma_advance_keeps(m.idle().with_slot(reset(m.slot())));
                }
                self.streams.set(i, StreamSlot::new());
                let n = self.streams.len();
                self.cursor = (i + 1) % n;
                self.remaining = self.remaining - 1;
                proof {
                    assert(self@ == m.idle().with_slot(reset(m.slot())).advance());
                }
                self.run()
            },
            Event::SendAccepted => {
                let ghost x = set_state(m.slot(), StreamState::SinkFlushing);
                proof {
                    lemma_slot_change(m, x, m.sinks, Awaiting::Idle);
                }
                self.streams[i].state = StreamState::SinkFlushing;
                proof {
                    assert(self@ == m.idle().with_slot(x));
                }
                self.run()
            },
            Event::SendFailed => {
                let k = self.streams[i].pending_sink.unwrap();
                let c = *self.sinks.get(&k).unwrap();
                proof {
                    lemma_senders_some(m.streams, i as int, k);
                    lemma_recount(m, reset(m.slot()), k);
                    lemma_advance_keeps(m.idle().with_slot(reset(m.slot())).with_count(k, c - 1));
                }
                self.streams.set(i, StreamSlot::new());
                self.sinks.insert(k, c - 1);
                let n = self.streams.len();
                self.cursor = (i + 1) % n;
                self.remaining = self.remaining - 1;
                proof {
                    assert(self@ == m.idle().with_slot(reset(m.slot())).with_count(k, c - 1).advance());
                }
                self.run()
            },
            Event::FlushDone | Event::FlushFailed => {
                let k = self.streams[i].pending_sink.unwrap();
                let c = *self.sinks.get(&k).unwrap();
                proof {
                    lemma_recount(m, reset(m.slot()), k);
                }
                self.streams.set(i, StreamSlot::new());
                self.sinks.insert(k, c - 1);
                proof {
                    assert(self@ == m.idle().with_slot(reset(m.slot())).with_count(k, c - 1));
                }
                self.run()
            },
        }
    }
}

} // verus!
