# Verified reactive streams

A functional reactive stream library in Verus. Every event a stream takes is
handled synchronously; listeners are pegged to subscriptions; a stream may
remember its last event; imitators let streams be wired in a cycle.

The shared state that the streams of a program hold in common is kept in
explicit tables, so that every change to it is stated and proved:

- `src/peg.rs`: the table of pegged cells and destructor slots (with its
  invariant), pegs with reference-counted handles (`share`, `release`), and
  their laws.
- `src/sub.rs`: the listeners of a stream and subscriptions.
- `src/inner.rs`: the state of a stream (running or ended, listeners, memory),
  the network of streams, and how an event spreads through imitations.
- `src/imit.rs`: imitators and the streams they hand out.
- `src/comb.rs`: the step that decides what a combination of streams emits.

Listeners are plain values: a `Listener::Callback(n)` names a callback that the
caller keeps; `Inner::update_and_imitate` returns the callbacks to call with the
event, in order.
