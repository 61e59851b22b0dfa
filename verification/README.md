# stream_router

Routes the values that any number of streams yield to any number of sinks,
by user-defined tags.

- `src/router.rs`: the routing state machine (`RouterCore`). Each poll of
  the router is a sequence of decisions: which source, routing computation
  or sink to poll next, given what the previous one reported. Its
  mathematical model (`RouterModel`) and the transition functions `start`
  and `step` state every decision exactly; every operation keeps the
  invariant `wf`, under which each sink's count is the number of sources
  handing it a value.
- `src/laws.rs`: properties of one step of the router: what is yielded and
  what is routed, a source is polled only when it holds nothing, flushing by
  the last sender, turns used by answers that are not ready, and when a
  poll ends.
- `src/trace.rs`: properties across any number of polls, over a sequence of
  inputs (`Trace`: starts of polls, outcomes, sources and sinks added): each
  source's yielded values are exactly its values whose tags named no sink; the values it hands to a sink (or drops on a
  readiness failure) are, in order, its values routed to that sink; with a
  single source, the output is the filter and map of its values by their
  tags.
- `src/tagger.rs`: the per-source routing computation holder.
- `src/hints.rs`: combining the sources' size hints.
- `app/lib.rs`: the `StreamRouter` stream on top of `futures`: it performs
  the polls that the router asks for and reports their outcomes.
