use vstd::prelude::*;

verus! {

/// Turns each value taken from a source into a routing computation: the user's
/// map function is applied to the value, and the computation it returns is kept
/// until it is polled to completion.
pub struct StreamTagger<F, A, M> {
    map_func: M,
    map_fut: Option<F>,
    item: core::marker::PhantomData<A>,
}

impl<F, A, M> StreamTagger<F, A, M> {
    /// The map function that the tagger applies to each value.
    pub closed spec fn map_func(&self) -> M {
        self.map_func
    }

    /// The computation under way, if any.
    pub closed spec fn pending(&self) -> Option<F> {
        self.map_fut
    }

    /// Creates a tagger around `map_func`, with no computation under way.
    pub fn new(map_func: M) -> (tagger: StreamTagger<F, A, M>)
        ensures
            tagger.map_func() == map_func,
            tagger.pending() is None,
    {
        StreamTagger { map_func, map_fut: None, item: core::marker::PhantomData }
    }

    /// Starts the routing computation for `val`: the map function is applied to
    /// it and what it returns replaces any computation under way.
    pub fn start_map(&mut self, val: A)
        where M: Fn(A) -> F,
        requires
            old(self).map_func().requires((val,)),
        ensures
            final(self).map_func() == old(self).map_func(),
            final(self).pending() matches Some(fut) && old(self).map_func().ensures((val,), fut),
    {
        self.map_fut = Some((self.map_func)(val));
    }

    /// Takes the computation under way out of the tagger, leaving none.
    pub fn take_pending(&mut self) -> (fut: Option<F>)
        ensures
            fut == old(self).pending(),
            final(self).pending() is None,
            final(self).map_func() == old(self).map_func(),
    {
        self.map_fut.take()
    }

    /// Puts back a computation that was polled and is not finished yet.
    pub fn resume(&mut self, fut: F)
        ensures
            final(self).pending() == Some(fut),
            final(self).map_func() == old(self).map_func(),
    {
        self.map_fut = Some(fut);
    }
}

} // verus!
