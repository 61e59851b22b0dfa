use futures::future::{ready, Future};
use futures::sink::{drain, Sink, SinkExt};
use futures::stream::{self, Stream};
use futures::task::Poll;
use futures_test::stream::StreamTestExt;
use futures_test::task::noop_context;
use std::collections::HashMap;
use std::pin::Pin;
use std::task::Context;
use stream_router::router::{Action, Event, RoutePoll, RouterCore};
use stream_router::tagger::StreamTagger;

type MapFn<F, A> = Box<dyn Fn(A) -> F>;

/// A small driver that runs the router's decisions against real futures
/// sources and sinks, polling from source 0.
struct Harness<F, T, A> {
    core: RouterCore<A>,
    sources: Vec<(Pin<Box<dyn Stream<Item = A>>>, StreamTagger<F, A, MapFn<F, A>>)>,
    tags: Vec<(T, u64)>,
    sinks: HashMap<u64, Pin<Box<dyn Sink<A, Error = ()>>>>,
}

impl<F, T, A> Harness<F, T, A>
where
    F: Future<Output = (A, T)> + Unpin,
    T: PartialEq,
{
    fn new() -> Self {
        Harness { core: RouterCore::new(), sources: vec![], tags: vec![], sinks: HashMap::new() }
    }

    fn add_source<S, M>(&mut self, stream: S, transform: M)
    where
        S: Stream<Item = A> + 'static,
        M: Fn(A) -> F + 'static,
    {
        let map: MapFn<F, A> = Box::new(transform);
        self.sources.push((Box::pin(stream), StreamTagger::new(map)));
        self.core.add_source();
    }

    fn add_sink<S>(&mut self, sink: S, tag: T)
    where
        S: Sink<A> + 'static,
        A: 'static,
    {
        let key = match self.tags.iter().find(|(t, _)| *t == tag) {
            Some((_, k)) => *k,
            None => {
                let k = self.tags.len() as u64;
                self.tags.push((tag, k));
                k
            }
        };
        self.core.add_sink(key);
        self.sinks.insert(key, Box::pin(sink.sink_map_err(|_| ())));
    }

    fn key_of(&self, tag: &T) -> Option<u64> {
        self.tags.iter().find(|(t, _)| t == tag).map(|(_, k)| *k)
    }

    fn poll_next(&mut self, cx: &mut Context<'_>) -> Poll<Option<A>> {
        let mut action = self.core.start(0);
        loop {
            let event = match action {
                Action::Finish(RoutePoll::Item(v)) => return Poll::Ready(Some(v)),
                Action::Finish(RoutePoll::Ended) => return Poll::Ready(None),
                Action::Finish(RoutePoll::Pending) => return Poll::Pending,
                Action::PollStream(i) => match self.sources[i].0.as_mut().poll_next(cx) {
                    Poll::Ready(Some(v)) => {
                        self.sources[i].1.start_map(v);
                        Event::StreamItem
                    }
                    Poll::Ready(None) => {
                        self.sources.swap_remove(i);
                        Event::StreamEnded
                    }
                    Poll::Pending => Event::StreamPending,
                },
                Action::PollTagger(i) => match self.sources[i].1.take_pending() {
                    None => Event::TaggerPending,
                    Some(mut fut) => match Pin::new(&mut fut).poll(cx) {
                        Poll::Ready((v, tag)) => Event::TaggerReady(v, self.key_of(&tag)),
                        Poll::Pending => {
                            self.sources[i].1.resume(fut);
                            Event::TaggerPending
                        }
                    },
                },
                Action::PollSinkReady(k) => {
                    match self.sinks.get_mut(&k).unwrap().as_mut().poll_ready(cx) {
                        Poll::Ready(Ok(())) => Event::SinkReady,
                        Poll::Ready(Err(())) => Event::SinkFailed,
                        Poll::Pending => Event::SinkNotReady,
                    }
                }
                Action::StartSend(k, v) => {
                    if self.sinks.get_mut(&k).unwrap().as_mut().start_send(v).is_ok() {
                        Event::SendAccepted
                    } else {
                        Event::SendFailed
                    }
                }
                Action::PollFlush(k) => {
                    match self.sinks.get_mut(&k).unwrap().as_mut().poll_flush(cx) {
                        Poll::Ready(Ok(())) => Event::FlushDone,
                        Poll::Ready(Err(())) => Event::FlushFailed,
                        Poll::Pending => Event::FlushPending,
                    }
                }
            };
            assert!(self.core.expects(&event));
            action = self.core.step(event);
        }
    }
}

#[test]
fn single_poll_no_routing() {
    let nums = stream::iter(vec![1, 2]);
    let mut cx = noop_context();
    let mut router = Harness::new();

    router.add_source(nums, |x| ready((x, ())));

    assert_eq!(router.poll_next(&mut cx), Poll::Ready(Some(1)));
    assert_eq!(router.poll_next(&mut cx), Poll::Ready(Some(2)));
    assert_eq!(router.poll_next(&mut cx), Poll::Ready(None));
}

#[test]
fn handling_pending_no_routing() {
    let nums = stream::iter(vec![1, 2]).interleave_pending();
    let mut cx = noop_context();
    let mut router = Harness::new();

    router.add_source(nums, |x| ready((x, ())));

    assert_eq!(router.poll_next(&mut cx), Poll::Pending);
    assert_eq!(router.poll_next(&mut cx), Poll::Ready(Some(1)));
    assert_eq!(router.poll_next(&mut cx), Poll::Pending);
    assert_eq!(router.poll_next(&mut cx), Poll::Ready(Some(2)));
    assert_eq!(router.poll_next(&mut cx), Poll::Pending);
    assert_eq!(router.poll_next(&mut cx), Poll::Ready(None));
}

#[test]
fn single_poll_routing() {
    let nums = stream::iter(vec![1, 2, 3, 4]);
    let mut cx = noop_context();
    let mut router = Harness::new();
    let black_hole = drain();

    let is_even = |x: i32| {
        let retval = x % 2 == 0;
        ready((x, retval))
    };

    router.add_source(nums, is_even);
    router.add_sink(black_hole, false);

    assert_eq!(router.poll_next(&mut cx), Poll::Ready(Some(2)));
    assert_eq!(router.poll_next(&mut cx), Poll::Ready(Some(4)));
    assert_eq!(router.poll_next(&mut cx), Poll::Ready(None));
}

#[test]
fn handling_pending_routing() {
    let nums = stream::iter(vec![1, 2, 3, 4]).interleave_pending();
    let mut cx = noop_context();
    let mut router = Harness::new();
    let black_hole = drain();

    let is_even = |x: i32| {
        let retval = x % 2 == 0;
        ready((x, retval))
    };

    router.add_source(nums, is_even);
    router.add_sink(black_hole, false);

    assert_eq!(router.poll_next(&mut cx), Poll::Pending);
    // Value `1` goes to `black_hole` on the next poll.
    assert_eq!(router.poll_next(&mut cx), Poll::Pending);
    assert_eq!(router.poll_next(&mut cx), Poll::Ready(Some(2)));
    assert_eq!(router.poll_next(&mut cx), Poll::Pending);
    // Value `3` goes to `black_hole` on the next poll.
    assert_eq!(router.poll_next(&mut cx), Poll::Pending);
    assert_eq!(router.poll_next(&mut cx), Poll::Ready(Some(4)));
    assert_eq!(router.poll_next(&mut cx), Poll::Pending);
    assert_eq!(router.poll_next(&mut cx), Poll::Ready(None));
}

#[test]
fn single_poll_forward() {
    let nums = stream::iter(vec![1, 2, 3, 4]);
    let mut cx = noop_context();
    let mut router = Harness::new();
    let black_hole = drain();

    let is_even = |x: i32| ready((x, true));

    router.add_source(nums, is_even);
    router.add_sink(black_hole, true);

    // This single poll forwards every value into `black_hole` and exhausts
    // the source.
    assert_eq!(router.poll_next(&mut cx), Poll::Ready(None));
}

#[test]
fn values_reach_the_sink_in_order() {
    let nums = stream::iter(vec![1, 2, 3, 4, 5, 6]);
    let mut cx = noop_context();
    let mut router = Harness::new();
    let (tx, mut rx) = futures::channel::mpsc::unbounded();

    router.add_source(nums, |x: i32| ready((x, x % 3 == 0)));
    router.add_sink(tx, true);

    assert_eq!(router.poll_next(&mut cx), Poll::Ready(Some(1)));
    assert_eq!(router.poll_next(&mut cx), Poll::Ready(Some(2)));
    assert_eq!(router.poll_next(&mut cx), Poll::Ready(Some(4)));
    assert_eq!(router.poll_next(&mut cx), Poll::Ready(Some(5)));
    assert_eq!(router.poll_next(&mut cx), Poll::Ready(None));
    assert_eq!(rx.try_next().unwrap(), Some(3));
    assert_eq!(rx.try_next().unwrap(), Some(6));
}
