//! Imitators: streams that repeat the events of a stream chosen after they are made,
//! so that streams can be wired in a cycle.
use crate::inner::{Listener, MemoryMode, Network, NetworkView, SafeInner, InnerView};
use crate::peg::Peg;
use crate::sub::Subscription;
use vstd::multiset::Multiset;
use vstd::prelude::*;

verus! {

/// A stream of a network: a handle on its state, and the peg that keeps what it
/// listens to.
pub struct Stream<T> {
    peg: Peg,
    inner: SafeInner<T>,
}

impl<T> Stream<T> {
    /// The peg of the stream.
    pub closed spec fn peg(&self) -> Peg {
        self.peg
    }

    /// The index of the stream's state in its network.
    pub closed spec fn id(&self) -> usize {
        self.inner.id()
    }

    /// The handle on the stream's state.
    pub fn inner(&self) -> (r: &SafeInner<T>)
        ensures
            r.id() == self.id(),
    {
        &self.inner
    }

    /// Makes the stream `imitator` take every event of this stream, from now on.
    pub(crate) fn imitate(&self, net: &mut Network<T>, imitator: SafeInner<T>) -> (r: Peg)
        requires
            self.id() < old(net)@.inners.len(),
        ensures
            final(net)@ == old(net)@.with_listener(
                self.id() as int,
                Listener::Imitate(imitator.id()),
            ),
            r.slot() == if old(net)@.inners[self.id() as int].alive {
                Some(old(net)@.pegs.slots.len() as usize)
            } else {
                None
            },
            r.uses() == if old(net)@.inners[self.id() as int].alive {
                Multiset::singleton(old(net)@.pegs.slots.len() as int)
            } else {
                Multiset::<int>::empty()
            },
    {
        let (inner, pegs) = self.inner.lock(net);
        let (peg, _replay) = inner.add(pegs, Listener::Imitate(imitator.index()));
        proof {
            let w = old(net)@.with_listener(self.id() as int, Listener::Imitate(imitator.id()));
            if old(net)@.inners[self.id() as int].alive {
                assert(net@.inners =~= w.inners);
                assert(net@.pegs.cells =~= w.pegs.cells);
                assert(net@.pegs.slots =~= w.pegs.slots);
            } else {
                assert(net@.inners =~= old(net)@.inners);
            }
        }
        peg
    }
}

/// A stream that, once told to, repeats the events of another stream; its streams
/// can be used before that, to wire streams in a cycle.
pub struct Imitator<T> {
    inner: SafeInner<T>,
}

impl<T> Imitator<T> {
    /// The index of the imitator's state in its network.
    pub closed spec fn id(&self) -> usize {
        self.inner.id()
    }

    /// A new imitator in `net`: a running stream that remembers nothing.
    pub fn new(net: &mut Network<T>) -> (r: Imitator<T>)
        ensures
            r.id() == old(net)@.inners.len(),
            final(net)@ == (NetworkView {
                inners: old(net)@.inners.push(
                    InnerView {
                        alive: true,
                        listeners: Seq::empty(),
                        memory_mode: MemoryMode::NoMemory,
                        memory: None,
                    },
                ),
                pegs: old(net)@.pegs,
            }),
    {
        Imitator { inner: SafeInner::new(net, MemoryMode::NoMemory, None) }
    }

    /// Starts imitating `other`: from now on every event of `other` is taken by this
    /// imitator and handed to its streams. This consumes the imitator, since it can
    /// imitate one stream only. The imitation outlives the returned subscription and
    /// all its copies: releasing them leaves it in place. Unsubscribing stops it.
    pub fn imitate(self, net: &mut Network<T>, other: &Stream<T>) -> (r: Subscription)
        requires
            other.id() < old(net)@.inners.len(),
        ensures
            final(net)@.inners == old(net)@.with_listener(
                other.id() as int,
                Listener::Imitate(self.id()),
            ).inners,
            final(net)@.pegs == old(net)@.with_listener(
                other.id() as int,
                Listener::Imitate(self.id()),
            ).pegs.kept_until_unpeg(r.peg().slot()),
            r.peg().slot() == if old(net)@.inners[other.id() as int].alive {
                Some(old(net)@.pegs.slots.len() as usize)
            } else {
                None
            },
            r.peg().uses() == if old(net)@.inners[other.id() as int].alive {
                Multiset::singleton(old(net)@.pegs.slots.len() as int)
            } else {
                Multiset::<int>::empty()
            },
    {
        let peg = other.imitate(net, self.inner);
        peg.keep_until_unpeg(net.pegs());
        Subscription::new(peg)
    }

    /// A stream of the events this imitator takes. Each call makes a new stream, and
    /// all of them share the imitator's state, so they all receive its events.
    pub fn stream(&self) -> (r: Stream<T>)
        ensures
            r.id() == self.id(),
            r.peg().slot() is None,
            r.peg().uses() == Multiset::<int>::empty(),
    {
        Stream { peg: Peg::new_fake(), inner: self.inner.clone() }
    }
}

} // verus!
