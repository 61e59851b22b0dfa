use crate::router::{
    delivering_to, senders, Action, Awaiting, Event, RoutePoll, RouterModel, StreamState,
};
use vstd::prelude::*;

verus! {

/// A router yields a value only when the routing computation of a source
/// finished with that value and a tag that names no registered sink; and
/// such a value is yielded at once.
pub proof fn law_yield_only_unrouted<A>(m: RouterModel<A>, e: Event<A>)
    requires
        m.wf(),
        m.expects(e),
    ensures
        m.step(e).1 matches Action::Finish(RoutePoll::Item(v)) ==> (e matches Event::TaggerReady(
            w,
            t,
        ) && w == v && !m.registered(t)),
        e matches Event::TaggerReady(v, t) ==> (!m.registered(t) ==> m.step(e).1
            == Action::Finish(RoutePoll::Item(v))),
{
    crate::router::lemma_apply_facts(m, e);
    if !(m.apply(e).1 is Yield) {
        crate::router::lemma_run_facts(m.settled(e));
    }
}

/// A value whose tag names a registered sink is never yielded: the sink is
/// asked whether it is ready when nobody is writing to it, and otherwise
/// the value is handed to it at once.
pub proof fn law_routed_value_goes_to_its_sink<A>(m: RouterModel<A>, v: A, k: u64)
    requires
        m.wf(),
        m.awaiting == Awaiting::Tagger,
        m.sinks.contains_key(k),
    ensures
        m.step(Event::TaggerReady(v, Some(k))).1 == if m.sinks[k] == 0 {
            Action::PollSinkReady(k)
        } else {
            Action::StartSend(k, v)
        },
        m.step(Event::TaggerReady(v, Some(k))).0.slot().pending_sink == Some(k),
{
}

/// A sink that reports it is ready receives the very value that was routed
/// to it, and counts one source handing it a value.
pub proof fn law_ready_sink_receives_routed_value<A>(m: RouterModel<A>)
    requires
        m.wf(),
        m.awaiting == Awaiting::SinkReady,
    ensures
        m.step(Event::SinkReady).1 == Action::StartSend(
            m.slot().pending_sink->0,
            m.slot().pending_item->0,
        ),
        m.step(Event::SinkReady).0.sinks[m.slot().pending_sink->0] == 1,
{
}

/// A source is asked for its next value only when it holds no earlier value
/// and no sink counts it among the sources handing it a value: each source
/// delivers its values one after the other, in the order it yields them.
pub proof fn law_source_polled_only_when_clear<A>(m: RouterModel<A>)
    requires
        m.wf(),
        m.awaiting == Awaiting::Stream,
    ensures
        m.slot().state == StreamState::StreamActive,
        m.slot().pending_item is None,
        m.slot().pending_sink is None,
        forall|s: u64| !delivering_to(#[trigger] m.slot(), s),
{
    assert(crate::router::slot_ok(m.slot(), m.handed_out(m.cursor as int), m.sinks));
}

proof fn lemma_two_senders<A>(streams: Seq<crate::router::StreamSlot<A>>, i: int, j: int, s: u64)
    requires
        0 <= i < streams.len(),
        0 <= j < streams.len(),
        i != j,
        delivering_to(streams[i], s),
        delivering_to(streams[j], s),
    ensures
        senders(streams, s) >= 2,
    decreases streams.len(),
{
    let l = streams.len() - 1;
    if i == l {
        assert(streams.drop_last()[j] == streams[j]);
        crate::router::lemma_senders_some(streams.drop_last(), j, s);
    } else if j == l {
        assert(streams.drop_last()[i] == streams[i]);
        crate::router::lemma_senders_some(streams.drop_last(), i, s);
    } else {
        assert(streams.drop_last()[i] == streams[i]);
        assert(streams.drop_last()[j] == streams[j]);
        lemma_two_senders(streams.drop_last(), i, j, s);
    }
}

/// A sink is flushed only by the last source handing it a value: while the
/// router waits for a flush, no other source is writing to that sink.
pub proof fn law_only_last_sender_flushes<A>(m: RouterModel<A>)
    requires
        m.wf(),
        m.awaiting == Awaiting::Flush,
    ensures
        senders(m.streams, m.slot().pending_sink->0) == 1,
        forall|j: int|
            0 <= j < m.streams.len() && j != m.cursor ==> !delivering_to(
                #[trigger] m.streams[j],
                m.slot().pending_sink->0,
            ),
{
    let s = m.slot().pending_sink->0;
    let i = m.cursor as int;
    assert(crate::router::slot_ok(m.streams[i], m.handed_out(i), m.sinks));
    assert forall|j: int| 0 <= j < m.streams.len() && j != m.cursor implies !delivering_to(
        #[trigger] m.streams[j],
        s,
    ) by {
        if delivering_to(m.streams[j], s) {
            lemma_two_senders(m.streams, i, j, s);
        }
    }
}

/// A poll ends with `Ended` exactly when the router has no sources left;
/// a poll that ends with `Pending` leaves some.
pub proof fn law_poll_ends_when_sources_do<A>(m: RouterModel<A>, e: Event<A>, first: nat)
    requires
        m.wf(),
    ensures
        m.awaiting == Awaiting::Idle && (m.streams.len() > 0 ==> first < m.streams.len()) ==> {
            &&& m.start(first).0.streams.len() == m.streams.len()
            &&& (m.start(first).1 == Action::<A>::Finish(RoutePoll::Ended)) <==> m.streams.len()
                == 0
        },
        m.expects(e) ==> {
            &&& (m.step(e).1 == Action::<A>::Finish(RoutePoll::Ended)) <==> m.step(
                e,
            ).0.streams.len() == 0
        },
{
    let started = RouterModel { cursor: first, remaining: m.streams.len(), ..m.idle() };
    if m.awaiting == Awaiting::Idle && (m.streams.len() > 0 ==> first < m.streams.len()) {
        crate::router::lemma_reposition(m, first, m.streams.len());
        crate::router::lemma_run_facts(started);
    }
    if m.expects(e) {
        crate::router::lemma_apply_facts(m, e);
        if !(m.apply(e).1 is Yield) {
            crate::router::lemma_run_facts(m.settled(e));
        }
    }
}

/// Every answer that is not "ready" uses up one of the poll's turns, and a
/// poll with no turns left ends: a poll ends once the outside work has
/// answered "not ready", or failed, as many times as there were sources
/// when it started.
pub proof fn law_waiting_uses_a_turn<A>(m: RouterModel<A>, e: Event<A>)
    requires
        m.wf(),
        m.expects(e),
    ensures
        (e is StreamPending || e is TaggerPending || e is SinkNotReady || e is FlushPending
            || e is SinkFailed || e is SendFailed || e is StreamEnded) ==> m.step(e).0.remaining
            == m.remaining - 1,
        m.step(e).0.remaining <= m.remaining,
        m.step(e).0.remaining == 0 ==> m.step(e).1 is Finish,
{
    crate::router::lemma_apply_facts(m, e);
    if !(m.apply(e).1 is Yield) {
        crate::router::lemma_run_facts(m.settled(e));
    }
}

/// Whenever the router asks for a source or its routing computation to be
/// polled, it names the source at the cursor: the one whose turn it is, and
/// whose value was just taken when a routing computation is polled. In
/// particular, right after a source yields a value, its own routing
/// computation is polled.
pub proof fn law_polls_name_the_source_at_the_cursor<A>(m: RouterModel<A>, e: Event<A>)
    requires
        m.wf(),
        m.expects(e),
    ensures
        m.step(e).1 matches Action::PollStream(i) ==> i == m.step(e).0.cursor,
        m.step(e).1 matches Action::PollTagger(i) ==> i == m.step(e).0.cursor,
        e is StreamItem ==> m.step(e).1 == Action::<A>::PollTagger(m.cursor as usize)
            && m.step(e).0.cursor == m.cursor,
{
    crate::router::lemma_apply_facts(m, e);
    if !(m.apply(e).1 is Yield) {
        crate::router::lemma_run_facts(m.settled(e));
    }
}

/// The same holds when a poll starts.
pub proof fn law_start_polls_the_source_at_the_cursor<A>(m: RouterModel<A>, first: nat)
    requires
        m.wf(),
        m.awaiting == Awaiting::Idle,
        m.streams.len() > 0 ==> first < m.streams.len(),
    ensures
        m.start(first).0.cursor == first,
        m.start(first).1 matches Action::PollStream(i) ==> i == first,
        m.start(first).1 matches Action::PollTagger(i) ==> i == first,
        m.streams.len() > 0 && m.streams[first as int].state == StreamState::StreamActive
            ==> m.start(first).1 == Action::<A>::PollStream(first as usize),
{
    let started = RouterModel { cursor: first, remaining: m.streams.len(), ..m.idle() };
    crate::router::lemma_reposition(m, first, m.streams.len());
    crate::router::lemma_run_facts(started);
}

/// Registering a sink makes its key registered, and keeps every sink that was
/// registered before with its count; the sources and the poll are untouched.
/// A new key starts with no sender.
pub proof fn law_add_sink_registers<A>(m: RouterModel<A>, k: u64)
    ensures
        m.add_sink(k).sinks.contains_key(k),
        !m.sinks.contains_key(k) ==> m.add_sink(k).sinks[k] == 0,
        forall|k2: u64| #[trigger]
            m.sinks.contains_key(k2) ==> m.add_sink(k).sinks.contains_key(k2) && m.add_sink(
                k,
            ).sinks[k2] == m.sinks[k2],
        forall|k2: u64| #[trigger] m.add_sink(k).sinks.contains_key(k2) ==> k2 == k
            || m.sinks.contains_key(k2),
        m.add_sink(k).streams == m.streams,
        m.add_sink(k).cursor == m.cursor,
        m.add_sink(k).remaining == m.remaining,
        m.add_sink(k).awaiting == m.awaiting,
{
}

/// Adding a source puts, after the existing ones, a fresh source that holds
/// nothing and is ready to be asked for its first value; nothing else
/// changes. The next poll that reaches it asks its stream for a value.
pub proof fn law_add_source_is_fresh<A>(m: RouterModel<A>)
    ensures
        m.add_source().streams.len() == m.streams.len() + 1,
        forall|i: int| 0 <= i < m.streams.len() ==> #[trigger] m.add_source().streams[i] == m.streams[i],
        m.add_source().streams.last().state == StreamState::StreamActive,
        m.add_source().streams.last().pending_sink is None,
        m.add_source().streams.last().pending_item is None,
        m.add_source().sinks == m.sinks,
        m.add_source().cursor == m.cursor,
        m.add_source().remaining == m.remaining,
        m.add_source().awaiting == m.awaiting,
{
}

/// When a source ends, it is replaced by the last source, the poll uses up
/// one turn, and it goes on at the same place, which now holds the moved
/// source (or at the first source, when the ended one was the last): no
/// source that the poll has not reached yet loses its turn, and the other
/// sources are left as they were.
pub proof fn law_ended_source_is_replaced<A>(m: RouterModel<A>)
    requires
        m.wf(),
        m.awaiting == Awaiting::Stream,
    ensures
        m.step(Event::StreamEnded).0.streams.len() == m.streams.len() - 1,
        m.step(Event::StreamEnded).0.remaining == m.remaining - 1,
        m.step(Event::StreamEnded).0.cursor == if m.cursor + 1 < m.streams.len() {
            m.cursor
        } else {
            0
        },
        forall|i: int|
            0 <= i < m.streams.len() - 1 && i != m.cursor && i != m.step(Event::StreamEnded).0.cursor
                ==> #[trigger] m.step(Event::StreamEnded).0.streams[i] == m.streams[i],
        m.remaining > 1 && m.cursor + 1 < m.streams.len() && m.streams.last().state
            == StreamState::StreamActive ==> m.step(Event::StreamEnded).1 == Action::<A>::PollStream(
            m.cursor as usize,
        ),
        m.remaining > 1 && m.cursor + 1 < m.streams.len() && m.streams.last().state
            == StreamState::TaggerActive ==> m.step(Event::StreamEnded).1 == Action::<A>::PollTagger(
            m.cursor as usize,
        ),
{
    crate::router::lemma_apply_facts(m, Event::StreamEnded);
    let q = m.settled(Event::StreamEnded);
    crate::router::lemma_run_facts(q);
}

} // verus!
