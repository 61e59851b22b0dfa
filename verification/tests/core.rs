use stream_router::hints::combine_size_hints;
use stream_router::router::{Action, Event, RoutePoll, RouterCore, StreamSlot, StreamState};
use stream_router::tagger::StreamTagger;

#[test]
fn empty_router_ends_at_once() {
    let mut core: RouterCore<u32> = RouterCore::new();
    assert_eq!(core.stream_count(), 0);
    assert_eq!(core.start(0), Action::Finish(RoutePoll::Ended));
    assert!(core.is_idle());
}

#[test]
fn fresh_slot_takes_values() {
    let slot: StreamSlot<u32> = StreamSlot::new();
    assert_eq!(slot.state, StreamState::StreamActive);
    assert!(slot.pending_sink.is_none());
    assert!(slot.pending_item.is_none());
}

#[test]
fn unrouted_value_is_yielded() {
    let mut core: RouterCore<u32> = RouterCore::new();
    core.add_source();
    assert_eq!(core.start(0), Action::PollStream(0));
    assert!(!core.is_idle());
    assert!(core.expects(&Event::StreamItem));
    assert!(!core.expects(&Event::SinkReady));
    assert_eq!(core.step(Event::StreamItem), Action::PollTagger(0));
    assert_eq!(core.step(Event::TaggerReady(7, None)), Action::Finish(RoutePoll::Item(7)));
    assert!(core.is_idle());
}

#[test]
fn tag_without_registered_sink_is_yielded() {
    let mut core: RouterCore<u32> = RouterCore::new();
    core.add_source();
    core.add_sink(1);
    core.start(0);
    core.step(Event::StreamItem);
    assert_eq!(core.step(Event::TaggerReady(9, Some(2))), Action::Finish(RoutePoll::Item(9)));
}

#[test]
fn routed_value_waits_for_ready_sink_then_is_flushed() {
    let mut core: RouterCore<u32> = RouterCore::new();
    core.add_source();
    core.add_sink(5);
    core.start(0);
    core.step(Event::StreamItem);
    assert_eq!(core.step(Event::TaggerReady(7, Some(5))), Action::PollSinkReady(5));
    assert!(!core.sink_busy(5));
    assert_eq!(core.step(Event::SinkReady), Action::StartSend(5, 7));
    assert!(core.sink_busy(5));
    assert_eq!(core.step(Event::SendAccepted), Action::PollFlush(5));
    assert_eq!(core.step(Event::FlushDone), Action::PollStream(0));
    assert!(!core.sink_busy(5));
    assert_eq!(core.step(Event::StreamPending), Action::Finish(RoutePoll::Pending));
}

#[test]
fn sink_not_ready_moves_on_and_resumes() {
    let mut core: RouterCore<u32> = RouterCore::new();
    core.add_source();
    core.add_sink(5);
    core.start(0);
    core.step(Event::StreamItem);
    core.step(Event::TaggerReady(7, Some(5)));
    assert_eq!(core.step(Event::SinkNotReady), Action::Finish(RoutePoll::Pending));
    // The next poll resumes with the same sink and the same value.
    assert_eq!(core.start(0), Action::PollSinkReady(5));
    assert_eq!(core.step(Event::SinkReady), Action::StartSend(5, 7));
}

#[test]
fn second_sender_skips_readiness_and_first_does_not_flush() {
    let mut core: RouterCore<u32> = RouterCore::new();
    core.add_source();
    core.add_source();
    core.add_sink(5);
    assert_eq!(core.start(0), Action::PollStream(0));
    core.step(Event::StreamItem);
    core.step(Event::TaggerReady(1, Some(5)));
    assert_eq!(core.step(Event::SinkReady), Action::StartSend(5, 1));
    assert_eq!(core.step(Event::SendAccepted), Action::PollFlush(5));
    assert_eq!(core.step(Event::FlushPending), Action::PollStream(1));
    core.step(Event::StreamItem);
    // The sink already has a sender, so the value is handed over at once.
    assert_eq!(core.step(Event::TaggerReady(2, Some(5))), Action::StartSend(5, 2));
    // Another source is still writing, so this one does not flush and
    // goes back to its own source.
    assert_eq!(core.step(Event::SendAccepted), Action::PollStream(1));
    assert!(core.sink_busy(5));
    assert_eq!(core.step(Event::StreamPending), Action::Finish(RoutePoll::Pending));
    // The first source is now the last sender and flushes.
    assert_eq!(core.start(0), Action::PollFlush(5));
    assert_eq!(core.step(Event::FlushFailed), Action::PollStream(0));
    assert!(!core.sink_busy(5));
}

#[test]
fn sink_errors_drop_the_value() {
    let mut core: RouterCore<u32> = RouterCore::new();
    core.add_source();
    core.add_sink(3);
    core.start(0);
    core.step(Event::StreamItem);
    core.step(Event::TaggerReady(4, Some(3)));
    assert_eq!(core.step(Event::SinkFailed), Action::Finish(RoutePoll::Pending));
    assert_eq!(core.start(0), Action::PollStream(0));
    core.step(Event::StreamItem);
    core.step(Event::TaggerReady(5, Some(3)));
    core.step(Event::SinkReady);
    assert!(core.sink_busy(3));
    assert_eq!(core.step(Event::SendFailed), Action::Finish(RoutePoll::Pending));
    assert!(!core.sink_busy(3));
    assert_eq!(core.start(0), Action::PollStream(0));
}

#[test]
fn pending_tagger_moves_on() {
    let mut core: RouterCore<u32> = RouterCore::new();
    core.add_source();
    core.add_source();
    core.start(1);
    core.step(Event::StreamItem);
    assert_eq!(core.step(Event::TaggerPending), Action::PollStream(0));
    assert_eq!(core.step(Event::StreamPending), Action::Finish(RoutePoll::Pending));
    assert_eq!(core.start(1), Action::PollTagger(1));
}

#[test]
fn ended_source_is_replaced_by_the_last() {
    let mut core: RouterCore<u32> = RouterCore::new();
    core.add_source();
    core.add_source();
    core.add_source();
    assert_eq!(core.start(0), Action::PollStream(0));
    // Source 2 moves into place 0 and is polled in the same turn's place.
    assert_eq!(core.step(Event::StreamEnded), Action::PollStream(0));
    assert_eq!(core.stream_count(), 2);
    assert_eq!(core.step(Event::StreamPending), Action::PollStream(1));
    assert_eq!(core.step(Event::StreamPending), Action::Finish(RoutePoll::Pending));
}

#[test]
fn all_sources_ending_ends_the_poll() {
    let mut core: RouterCore<u32> = RouterCore::new();
    core.add_source();
    core.add_source();
    core.start(0);
    assert_eq!(core.step(Event::StreamEnded), Action::PollStream(0));
    assert_eq!(core.step(Event::StreamEnded), Action::Finish(RoutePoll::Ended));
    assert_eq!(core.stream_count(), 0);
}

#[test]
fn last_source_ending_goes_on_with_the_first() {
    let mut core: RouterCore<u32> = RouterCore::new();
    core.add_source();
    core.add_source();
    assert_eq!(core.start(1), Action::PollStream(1));
    // The last source ends with a turn left: the poll goes on with source 0.
    assert_eq!(core.step(Event::StreamEnded), Action::PollStream(0));
    assert_eq!(core.stream_count(), 1);
    assert_eq!(core.step(Event::StreamPending), Action::Finish(RoutePoll::Pending));
}

#[test]
fn re_registering_a_busy_sink_keeps_its_count() {
    let mut core: RouterCore<u32> = RouterCore::new();
    core.add_source();
    core.add_sink(5);
    core.start(0);
    core.step(Event::StreamItem);
    core.step(Event::TaggerReady(7, Some(5)));
    core.step(Event::SinkReady);
    assert_eq!(core.step(Event::SendAccepted), Action::PollFlush(5));
    assert_eq!(core.step(Event::FlushPending), Action::Finish(RoutePoll::Pending));
    core.add_sink(5);
    assert!(core.sink_busy(5));
    assert_eq!(core.start(0), Action::PollFlush(5));
    assert_eq!(core.step(Event::FlushDone), Action::PollStream(0));
    assert!(!core.sink_busy(5));
}

#[test]
fn re_registering_an_idle_sink_is_allowed() {
    let mut core: RouterCore<u32> = RouterCore::new();
    core.add_sink(8);
    core.add_sink(8);
    assert!(!core.sink_busy(8));
    assert!(!core.sink_busy(9));
}

#[test]
fn size_hints_add_up() {
    assert_eq!(combine_size_hints(&vec![]), Some((0, Some(0))));
    assert_eq!(combine_size_hints(&vec![(1, Some(2)), (3, Some(4))]), Some((4, Some(6))));
    assert_eq!(combine_size_hints(&vec![(1, Some(2)), (3, None), (5, Some(6))]), Some((9, None)));
}

#[test]
fn size_hints_overflow_is_reported() {
    assert_eq!(combine_size_hints(&vec![(usize::MAX, None), (1, None)]), None);
    assert_eq!(combine_size_hints(&vec![(0, Some(usize::MAX)), (0, Some(1))]), None);
    // An upper bound that is already unknown is not added up.
    assert_eq!(
        combine_size_hints(&vec![(0, None), (0, Some(usize::MAX)), (0, Some(1))]),
        Some((0, None))
    );
}

#[test]
fn tagger_keeps_the_computation_until_taken() {
    let mut tagger: StreamTagger<(u32, bool), u32, _> =
        StreamTagger::new(|x: u32| (x + 1, x % 2 == 0));
    assert_eq!(tagger.take_pending(), None);
    tagger.start_map(4);
    assert_eq!(tagger.take_pending(), Some((5, true)));
    assert_eq!(tagger.take_pending(), None);
    tagger.resume((9, false));
    assert_eq!(tagger.take_pending(), Some((9, false)));
}
