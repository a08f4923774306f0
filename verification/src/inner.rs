//! The state of a stream (whether it still runs, its listeners, its memory of the
//! last event), the network that holds the streams, and how an event spreads
//! through it.
use crate::peg::{Peg, PegTable, PegTableView, Pegged};
use crate::sub::{live, values, Listeners, lemma_live_contains, lemma_live_idempotent};
use std::marker::PhantomData;
use vstd::multiset::Multiset;
use vstd::prelude::*;

verus! {

/// How much of the last event a stream remembers.
#[derive(Clone, Copy, PartialEq, Eq, Structural, Debug)]
pub enum MemoryMode {
    /// Nothing is remembered.
    NoMemory,
    /// The last event is remembered; the end of the stream forgets it.
    KeepUntilEnd,
    /// The last value is remembered, also after the end of the stream.
    KeepAfterEnd,
}

impl MemoryMode {
    /// Whether the mode remembers anything.
    pub fn is_memory(self) -> (r: bool)
        ensures
            r == (self != MemoryMode::NoMemory),
    {
        match self {
            MemoryMode::NoMemory => false,
            _ => true,
        }
    }
}

/// What a listener that is being added must be told at once.
#[derive(Clone, Copy, PartialEq, Eq, Structural, Debug)]
pub enum Replay {
    /// Nothing: it waits for the next event.
    Nothing,
    /// The stream has ended: the listener receives the end and is not kept.
    End,
    /// The remembered value (see [`Inner::peek_memory`]).
    Memory,
}

/// What listens to a stream: a callback known by its number, or another stream
/// that imitates this one (by its index in the network).
#[derive(Clone, Copy, PartialEq, Eq, Structural, Debug)]
pub enum Listener {
    Callback(u64),
    Imitate(usize),
}

/// The state of a stream.
pub struct Inner<T> {
    alive: bool,
    listeners: Listeners<Listener>,
    memory_mode: MemoryMode,
    memory: Option<T>,
}

/// What an [`Inner`] holds.
pub struct InnerView<T> {
    pub alive: bool,
    pub listeners: Seq<Pegged<Listener>>,
    pub memory_mode: MemoryMode,
    pub memory: Option<T>,
}

impl<T> View for Inner<T> {
    type V = InnerView<T>;

    closed spec fn view(&self) -> InnerView<T> {
        InnerView {
            alive: self.alive,
            listeners: self.listeners@,
            memory_mode: self.memory_mode,
            memory: self.memory,
        }
    }
}

/// The memory of a stream in mode `mode` after the event `t` (`None` ends the stream).
pub open spec fn remembered<T>(mode: MemoryMode, memory: Option<T>, t: Option<T>) -> Option<T> {
    match mode {
        MemoryMode::NoMemory => memory,
        MemoryMode::KeepUntilEnd => t,
        MemoryMode::KeepAfterEnd => if t is Some {
            t
        } else {
            memory
        },
    }
}

impl<T> InnerView<T> {
    /// The listeners that receive the next event: none once the stream has ended,
    /// else those still pegged, in the order they were added.
    pub open spec fn receivers(self, table: PegTableView) -> Seq<Listener> {
        if self.alive {
            values(live(self.listeners, table))
        } else {
            Seq::empty()
        }
    }

    /// The stream after an event (the end when `end`), its memory aside: unpegged
    /// listeners are dropped, and the end drops them all.
    pub open spec fn forwarded(self, table: PegTableView, end: bool) -> InnerView<T> {
        if !self.alive {
            self
        } else if end {
            InnerView { alive: false, listeners: Seq::empty(), ..self }
        } else {
            InnerView { listeners: live(self.listeners, table), ..self }
        }
    }

    /// The stream after it takes the event `t`.
    pub open spec fn updated(self, table: PegTableView, t: Option<T>) -> InnerView<T> {
        if !self.alive {
            self
        } else {
            InnerView {
                memory: remembered(self.memory_mode, self.memory, t),
                ..self.forwarded(table, t is None)
            }
        }
    }
}

impl<T> Inner<T> {
    /// A running stream without listeners.
    pub fn new(memory_mode: MemoryMode, memory: Option<T>) -> (r: Inner<T>)
        ensures
            r@ == (InnerView::<T> {
                alive: true,
                listeners: Seq::empty(),
                memory_mode,
                memory,
            }),
    {
        Inner { alive: true, listeners: Listeners::new(), memory_mode, memory }
    }

    /// The memory mode.
    pub fn memory_mode(&self) -> (r: MemoryMode)
        ensures
            r == self@.memory_mode,
    {
        self.memory_mode
    }

    /// Adds a listener. On an ended stream the listener is not kept: it is to receive
    /// the end at once, and the returned peg has no destructor. On a running stream it
    /// is kept, pegged to the returned peg, and is to receive the remembered value at
    /// once if the stream remembers one.
    pub fn add(&mut self, table: &mut PegTable, listener: Listener) -> (r: (Peg, Replay))
        ensures
            !old(self)@.alive ==> {
                &&& final(self)@ == old(self)@
                &&& final(table)@ == old(table)@
                &&& r.1 == Replay::End
                &&& r.0.slot() is None
                &&& r.0.uses() == Multiset::<int>::empty()
            },
            old(self)@.alive ==> {
                &&& final(self)@ == (InnerView {
                    listeners: old(self)@.listeners.push(
                        Pegged { cell: old(table)@.cells.len() as usize, value: listener },
                    ),
                    ..old(self)@
                })
                &&& final(table)@.cells == old(table)@.cells.push(true)
                &&& final(table)@.slots == old(table)@.slots.push(
                    crate::peg::Slot {
                        target: Some(old(table)@.cells.len() as usize),
                        handles: 1,
                        kept: false,
                    },
                )
                &&& r.0.slot() == Some(old(table)@.slots.len() as usize)
                &&& r.0.uses() == Multiset::singleton(old(table)@.slots.len() as int)
                &&& r.1 == if old(self)@.memory_mode != MemoryMode::NoMemory
                    && old(self)@.memory is Some {
                    Replay::Memory
                } else {
                    Replay::Nothing
                }
            },
    {
        if !self.alive {
            return (Peg::new_fake(), Replay::End);
        }
        let replay = if self.memory_mode.is_memory() && self.memory.is_some() {
            Replay::Memory
        } else {
            Replay::Nothing
        };
        let peg = self.listeners.add(table, listener);
        (peg, replay)
    }

    /// Takes the event `t` (`None` is the end of the stream) and returns the listeners
    /// that receive it, in order; the memory keeps what the memory mode says.
    /// An ended stream ignores it.
    pub fn update_owned(&mut self, table: &PegTable, t: Option<T>) -> (r: Vec<Listener>)
        ensures
            final(self)@ == old(self)@.updated(table@, t),
            r@ == old(self)@.receivers(table@),
    {
        if !self.alive {
            return Vec::new();
        }
        let is_end = t.is_none();
        let ls = self.listeners.iter(table);
        match self.memory_mode {
            MemoryMode::NoMemory => {},
            MemoryMode::KeepUntilEnd => {
                self.memory = t;
            },
            MemoryMode::KeepAfterEnd => {
                if t.is_some() {
                    self.memory = t;
                }
            },
        }
        if is_end {
            self.end();
        }
        ls
    }

    /// Takes the borrowed event `t` and returns the listeners that receive it, in
    /// order; the memory is left alone. An ended stream ignores it.
    pub fn update_borrowed(&mut self, table: &PegTable, t: Option<&T>) -> (r: Vec<Listener>)
        ensures
            final(self)@ == old(self)@.forwarded(table@, t is None),
            r@ == old(self)@.receivers(table@),
    {
        self.forward(table, t.is_none())
    }

    fn forward(&mut self, table: &PegTable, end: bool) -> (r: Vec<Listener>)
        ensures
            final(self)@ == old(self)@.forwarded(table@, end),
            r@ == old(self)@.receivers(table@),
    {
        if !self.alive {
            return Vec::new();
        }
        let ls = self.listeners.iter(table);
        if end {
            self.end();
        }
        ls
    }

    /// Takes the remembered value out, leaving nothing remembered.
    pub fn take_memory(&mut self) -> (r: Option<T>)
        ensures
            r == old(self)@.memory,
            final(self)@ == (InnerView { memory: None, ..old(self)@ }),
    {
        self.memory.take()
    }

    /// The remembered value.
    pub fn peek_memory(&self) -> (r: &Option<T>)
        ensures
            *r == self@.memory,
    {
        &self.memory
    }

    fn end(&mut self)
        ensures
            final(self)@ == (InnerView { alive: false, listeners: Seq::empty(), ..old(self)@ }),
    {
        self.alive = false;
        self.listeners.clear();
    }
}

/// A handle on a stream of a [`Network`].
pub struct SafeInner<T> {
    id: usize,
    marker: PhantomData<T>,
}

impl<T> Clone for SafeInner<T> {
    fn clone(&self) -> (r: Self)
        ensures
            r == *self,
    {
        SafeInner { id: self.id, marker: PhantomData }
    }
}

/// The streams, and the pegs of their listeners.
pub struct Network<T> {
    inners: Vec<Inner<T>>,
    pegs: PegTable,
}

/// What a [`Network`] holds.
pub struct NetworkView<T> {
    pub inners: Seq<InnerView<T>>,
    pub pegs: PegTableView,
}

impl<T> NetworkView<T> {
    /// The network after `listener` is added to stream `j`: kept, pegged to a new
    /// slot, while the stream runs; nothing changes once it has ended.
    pub open spec fn with_listener(self, j: int, listener: Listener) -> NetworkView<T> {
        let v = self.inners[j];
        if !v.alive {
            self
        } else {
            NetworkView {
                inners: self.inners.update(
                    j,
                    InnerView {
                        listeners: v.listeners.push(
                            Pegged { cell: self.pegs.cells.len() as usize, value: listener },
                        ),
                        ..v
                    },
                ),
                pegs: PegTableView {
                    cells: self.pegs.cells.push(true),
                    slots: self.pegs.slots.push(
                        crate::peg::Slot {
                            target: Some(self.pegs.cells.len() as usize),
                            handles: 1,
                            kept: false,
                        },
                    ),
                },
            }
        }
    }
}

impl<T> View for Network<T> {
    type V = NetworkView<T>;

    closed spec fn view(&self) -> NetworkView<T> {
        NetworkView { inners: self.inners@.map_values(|i: Inner<T>| i@), pegs: self.pegs@ }
    }
}

impl<T> SafeInner<T> {
    /// The index of the stream in its network.
    pub closed spec fn id(&self) -> usize {
        self.id
    }

    /// The index of the stream in its network.
    pub fn index(&self) -> (r: usize)
        ensures
            r == self.id(),
    {
        self.id
    }

    /// Adds a running stream without listeners to the network.
    pub fn new(net: &mut Network<T>, memory_mode: MemoryMode, memory: Option<T>) -> (r: SafeInner<T>)
        ensures
            r.id() == old(net)@.inners.len(),
            final(net)@ == (NetworkView {
                inners: old(net)@.inners.push(
                    InnerView { alive: true, listeners: Seq::empty(), memory_mode, memory },
                ),
                pegs: old(net)@.pegs,
            }),
    {
        let id = net.inners.len();
        net.inners.push(Inner::new(memory_mode, memory));
        proof {
            assert(net@.inners =~= old(net)@.inners.push(
                InnerView { alive: true, listeners: Seq::empty(), memory_mode, memory },
            ));
        }
        SafeInner { id, marker: PhantomData }
    }

    /// Access to the stream and to the pegs of the network.
    pub fn lock<'a>(&self, net: &'a mut Network<T>) -> (r: (&'a mut Inner<T>, &'a mut PegTable))
        requires
            self.id() < old(net)@.inners.len(),
        ensures
            r.0@ == old(net)@.inners[self.id() as int],
            r.1@ == old(net)@.pegs,
            final(net)@.inners == old(net)@.inners.update(self.id() as int, final(r.0)@),
            final(net)@.pegs == final(r.1)@,
    {
        net.parts(self.id)
    }
}

impl<T> Network<T> {
    /// A network without streams.
    pub fn new() -> (r: Network<T>)
        ensures
            r@.inners == Seq::<InnerView<T>>::empty(),
            r@.pegs.cells == Seq::<bool>::empty(),
            r@.pegs.slots == Seq::<crate::peg::Slot>::empty(),
    {
        let r = Network { inners: Vec::new(), pegs: PegTable::new() };
        proof {
            assert(r@.inners =~= Seq::<InnerView<T>>::empty());
        }
        r
    }

    /// Access to the pegs of the network.
    pub fn pegs(&mut self) -> (r: &mut PegTable)
        ensures
            r@ == old(self)@.pegs,
            final(self)@.inners == old(self)@.inners,
            final(self)@.pegs == final(r)@,
    {
        &mut self.pegs
    }

    fn parts(&mut self, j: usize) -> (r: (&mut Inner<T>, &mut PegTable))
        requires
            j < old(self)@.inners.len(),
        ensures
            r.0@ == old(self)@.inners[j as int],
            r.1@ == old(self)@.pegs,
            final(self)@.inners == old(self)@.inners.update(j as int, final(r.0)@),
            final(self)@.pegs == final(r.1)@,
    {
        (&mut self.inners[j], &mut self.pegs)
    }
}

/// How far an event has spread: the network so far, and the callbacks that
/// received it, in order.
pub struct Propagation<T> {
    pub net: NetworkView<T>,
    pub delivered: Seq<u64>,
}

/// The numbers of the callbacks among `ls`, in order.
pub open spec fn callbacks(ls: Seq<Listener>) -> Seq<u64>
    decreases ls.len(),
{
    if ls.len() == 0 {
        Seq::empty()
    } else {
        let rest = callbacks(ls.drop_last());
        match ls.last() {
            Listener::Callback(id) => rest.push(id),
            Listener::Imitate(_) => rest,
        }
    }
}

/// The streams that imitate, among `ls`, in order.
pub open spec fn imitators(ls: Seq<Listener>) -> Seq<usize>
    decreases ls.len(),
{
    if ls.len() == 0 {
        Seq::empty()
    } else {
        let rest = imitators(ls.drop_last());
        match ls.last() {
            Listener::Callback(_) => rest,
            Listener::Imitate(j) => rest.push(j),
        }
    }
}

/// Stream `j` takes the event, handed on by an imitation (`end` when the event is
/// the end): its callbacks receive the event, then the streams imitating it take it
/// in turn. Every imitation that reaches a stream hands it the event once. `path`
/// marks the streams that are still taking this event on the way to `j`; a stream
/// on it is left as it is, since reaching it again means a cycle of imitations. An
/// imitating stream remembers nothing, so only its listeners and whether it runs
/// change. `fuel` bounds the nesting; each nested step adds a stream to the path,
/// so a fuel above the number of streams off the path is never used up.
pub open spec fn visit<T>(p: Propagation<T>, path: Seq<bool>, j: int, end: bool, fuel: nat) -> Propagation<T>
    decreases fuel, 0nat,
{
    if fuel == 0 || !(0 <= j < p.net.inners.len()) || path[j] {
        p
    } else {
        let inner = p.net.inners[j];
        let ls = inner.receivers(p.net.pegs);
        let q = Propagation {
            net: NetworkView {
                inners: p.net.inners.update(j, inner.forwarded(p.net.pegs, end)),
                pegs: p.net.pegs,
            },
            delivered: p.delivered + callbacks(ls),
        };
        visit_all(q, path.update(j, true), imitators(ls), end, (fuel - 1) as nat)
    }
}

/// The streams `js` take the event in turn.
pub open spec fn visit_all<T>(
    p: Propagation<T>,
    path: Seq<bool>,
    js: Seq<usize>,
    end: bool,
    fuel: nat,
) -> Propagation<T>
    decreases fuel, js.len() + 1,
{
    if js.len() == 0 {
        p
    } else {
        visit(visit_all(p, path, js.drop_last(), end, fuel), path, js.last() as int, end, fuel)
    }
}

/// The spread of the event `t` once stream `root` has taken it: its callbacks have
/// received it.
pub open spec fn started<T>(net: NetworkView<T>, root: int, t: Option<T>) -> Propagation<T> {
    let inner = net.inners[root];
    Propagation {
        net: NetworkView {
            inners: net.inners.update(root, inner.updated(net.pegs, t)),
            pegs: net.pegs,
        },
        delivered: callbacks(inner.receivers(net.pegs)),
    }
}

/// The path that holds only `root`, among `n` streams.
pub open spec fn root_path(n: nat, root: int) -> Seq<bool> {
    Seq::new(n, |i: int| i == root)
}

/// The network and the callbacks reached, in order, when stream `root` takes the
/// event `t`: its own callbacks first, then the streams that imitate it, each with
/// the streams that imitate those, in the order the imitations were added.
pub open spec fn propagated<T>(net: NetworkView<T>, root: int, t: Option<T>) -> (NetworkView<T>, Seq<u64>) {
    let done = visit_all(
        started(net, root, t),
        root_path(net.inners.len(), root),
        imitators(net.inners[root].receivers(net.pegs)),
        t is None,
        net.inners.len(),
    );
    (done.net, done.delivered)
}

/// The number of streams off the path.
pub open spec fn off_path(s: Seq<bool>) -> nat
    decreases s.len(),
{
    if s.len() == 0 {
        0
    } else {
        off_path(s.drop_last()) + if s.last() {
            0nat
        } else {
            1nat
        }
    }
}

proof fn lemma_off_path_mark(s: Seq<bool>, j: int)
    requires
        0 <= j < s.len(),
        !s[j],
    ensures
        off_path(s.update(j, true)) + 1 == off_path(s),
    decreases s.len(),
{
    if j == s.len() - 1 {
        assert(s.update(j, true).drop_last() =~= s.drop_last());
    } else {
        lemma_off_path_mark(s.drop_last(), j);
        assert(s.update(j, true).drop_last() =~= s.drop_last().update(j, true));
    }
}

proof fn lemma_off_path_len(s: Seq<bool>)
    ensures
        off_path(s) <= s.len(),
    decreases s.len(),
{
    if s.len() > 0 {
        lemma_off_path_len(s.drop_last());
    }
}

impl<T> Network<T> {
    /// Appends the callbacks among `ls` to `out`, and returns the imitating streams.
    fn sort_receivers(ls: &Vec<Listener>, out: &mut Vec<u64>) -> (r: Vec<usize>)
        ensures
            final(out)@ == old(out)@ + callbacks(ls@),
            r@ == imitators(ls@),
    {
        let mut js: Vec<usize> = Vec::new();
        let mut i: usize = 0;
        proof {
            assert(ls@.take(0) =~= Seq::<Listener>::empty());
            assert(out@ =~= old(out)@ + Seq::<u64>::empty());
        }
        while i < ls.len()
            invariant
                0 <= i <= ls@.len(),
                out@ == old(out)@ + callbacks(ls@.take(i as int)),
                js@ == imitators(ls@.take(i as int)),
            decreases ls@.len() - i,
        {
            proof {
                assert(ls@.take(i + 1).drop_last() =~= ls@.take(i as int));
            }
            match ls[i] {
                Listener::Callback(id) => {
                    let ghost before = out@;
                    out.push(id);
                    proof {
                        assert(out@ =~= old(out)@ + callbacks(ls@.take(i + 1)));
                    }
                },
                Listener::Imitate(j) => {
                    js.push(j);
                },
            }
            i += 1;
        }
        proof {
            assert(ls@.take(ls@.len() as int) =~= ls@);
        }
        js
    }

    fn visit(
        &mut self,
        j: usize,
        end: bool,
        path: &mut Vec<bool>,
        out: &mut Vec<u64>,
        Ghost(fuel): Ghost<nat>,
    )
        requires
            old(path)@.len() == old(self)@.inners.len(),
            fuel > off_path(old(path)@),
        ensures
            final(path)@ == old(path)@,
            final(self)@.inners.len() == old(self)@.inners.len(),
            (Propagation { net: final(self)@, delivered: final(out)@ }) == visit(
                Propagation { net: old(self)@, delivered: old(out)@ },
                old(path)@,
                j as int,
                end,
                fuel,
            ),
        decreases fuel, 0nat,
    {
        if j >= self.inners.len() || path[j] {
            return;
        }
        proof {
            lemma_off_path_mark(path@, j as int);
        }
        path.set(j, true);
        let (inner, pegs) = self.parts(j);
        let ls = inner.forward(pegs, end);
        let js = Self::sort_receivers(&ls, out);
        self.visit_all(&js, end, path, out, Ghost((fuel - 1) as nat));
        path.set(j, false);
        proof {
            assert(path@ =~= old(path)@);
        }
    }

    fn visit_all(
        &mut self,
        js: &Vec<usize>,
        end: bool,
        path: &mut Vec<bool>,
        out: &mut Vec<u64>,
        Ghost(fuel): Ghost<nat>,
    )
        requires
            old(path)@.len() == old(self)@.inners.len(),
            fuel > off_path(old(path)@),
        ensures
            final(path)@ == old(path)@,
            final(self)@.inners.len() == old(self)@.inners.len(),
            (Propagation { net: final(self)@, delivered: final(out)@ }) == visit_all(
                Propagation { net: old(self)@, delivered: old(out)@ },
                old(path)@,
                js@,
                end,
                fuel,
            ),
        decreases fuel, 1nat,
    {
        let ghost p0 = Propagation { net: self@, delivered: out@ };
        let ghost path0 = path@;
        let mut i: usize = 0;
        proof {
            assert(js@.take(0) =~= Seq::<usize>::empty());
        }
        while i < js.len()
            invariant
                0 <= i <= js@.len(),
                path@ == path0,
                path0.len() == self@.inners.len(),
                self@.inners.len() == p0.net.inners.len(),
                fuel > off_path(path0),
                (Propagation { net: self@, delivered: out@ }) == visit_all(
                    p0,
                    path0,
                    js@.take(i as int),
                    end,
                    fuel,
                ),
            decreases js@.len() - i,
        {
            proof {
                assert(js@.take(i + 1).drop_last() =~= js@.take(i as int));
            }
            self.visit(js[i], end, path, out, Ghost(fuel));
            i += 1;
        }
        proof {
            assert(js@.take(js@.len() as int) =~= js@);
        }
    }
}

impl<T> Inner<T> {
    /// Stream `inner` of the network takes the event `t` (`None` is the end): its
    /// listeners are called, then the streams imitating it take the event in turn,
    /// each with the streams imitating those. Returns the callbacks that receive the
    /// event, in the order they are to be called. Every imitation that reaches a
    /// stream hands it the event once; a stream reached again through a cycle of
    /// imitations, while it is still taking the event, is left as it is.
    pub fn update_and_imitate(net: &mut Network<T>, inner: &SafeInner<T>, t: Option<T>) -> (delivered: Vec<u64>)
        requires
            inner.id() < old(net)@.inners.len(),
        ensures
            (final(net)@, delivered@) == propagated(old(net)@, inner.id() as int, t),
    {
        let n = net.inners.len();
        let end = t.is_none();
        let mut path: Vec<bool> = Vec::new();
        let mut i: usize = 0;
        while i < n
            invariant
                0 <= i <= n,
                path@ == Seq::new(i as nat, |k: int| false),
            decreases n - i,
        {
            path.push(false);
            proof {
                assert(path@ =~= Seq::new((i + 1) as nat, |k: int| false));
            }
            i += 1;
        }
        proof {
            lemma_off_path_len(path@);
            lemma_off_path_mark(path@, inner.id() as int);
        }
        path.set(inner.id, true);
        let mut out: Vec<u64> = Vec::new();
        let (inr, pegs) = inner.lock(net);
        let ls = inr.update_owned(pegs, t);
        let js = Network::<T>::sort_receivers(&ls, &mut out);
        let ghost net0 = old(net)@;
        let ghost id = inner.id() as int;
        let ghost start = started(net0, id, t);
        proof {
            assert(out@ =~= start.delivered);
            assert(net@.inners =~= start.net.inners);
            assert(path@ =~= root_path(net0.inners.len(), id));
            assert(Propagation { net: net@, delivered: out@ } == start);
        }
        net.visit_all(&js, end, &mut path, &mut out, Ghost(n as nat));
        out
    }
}

/// `a` is `b` followed by more.
pub open spec fn extends<A>(a: Seq<A>, b: Seq<A>) -> bool {
    b.len() <= a.len() && a.take(b.len() as int) == b
}

proof fn lemma_extends_trans<A>(a: Seq<A>, b: Seq<A>, c: Seq<A>)
    requires
        extends(a, b),
        extends(b, c),
    ensures
        extends(a, c),
{
    assert(a.take(c.len() as int) =~= b.take(c.len() as int));
}

proof fn lemma_visit_facts<T>(p: Propagation<T>, path: Seq<bool>, j: int, end: bool, fuel: nat)
    requires
        path.len() == p.net.inners.len(),
    ensures
        visit(p, path, j, end, fuel).net.inners.len() == p.net.inners.len(),
        visit(p, path, j, end, fuel).net.pegs == p.net.pegs,
        forall|i: int| 0 <= i < p.net.inners.len() ==> #[trigger] visit(p, path, j, end, fuel).net.inners[i].memory_mode
            == p.net.inners[i].memory_mode,
        extends(visit(p, path, j, end, fuel).delivered, p.delivered),
        forall|i: int| 0 <= i < p.net.inners.len() ==> #[trigger] visit(p, path, j, end, fuel).net.inners[i].memory
            == p.net.inners[i].memory,
        !end ==> forall|i: int| 0 <= i < p.net.inners.len() ==> (#[trigger] visit(p, path, j, end, fuel).net.inners[i]).alive
            == p.net.inners[i].alive && visit(p, path, j, end, fuel).net.inners[i].receivers(p.net.pegs)
            == p.net.inners[i].receivers(p.net.pegs),
        forall|i: int| 0 <= i < p.net.inners.len() && !p.net.inners[i].alive
            ==> !(#[trigger] visit(p, path, j, end, fuel).net.inners[i]).alive,
        end && fuel > 0 && 0 <= j < p.net.inners.len() && !path[j]
            ==> !visit(p, path, j, end, fuel).net.inners[j].alive,
    decreases fuel, 0nat,
{
    if fuel == 0 || !(0 <= j < p.net.inners.len()) || path[j] {
        assert(p.delivered.take(p.delivered.len() as int) =~= p.delivered);
    } else {
        let inner = p.net.inners[j];
        let ls = inner.receivers(p.net.pegs);
        let q = Propagation {
            net: NetworkView {
                inners: p.net.inners.update(j, inner.forwarded(p.net.pegs, end)),
                pegs: p.net.pegs,
            },
            delivered: p.delivered + callbacks(ls),
        };
        assert(q.delivered.take(p.delivered.len() as int) =~= p.delivered);
        lemma_live_idempotent(inner.listeners, p.net.pegs);
        lemma_visit_all_facts(q, path.update(j, true), imitators(ls), end, (fuel - 1) as nat);
        lemma_extends_trans(visit(p, path, j, end, fuel).delivered, q.delivered, p.delivered);
    }
}

proof fn lemma_visit_all_facts<T>(p: Propagation<T>, path: Seq<bool>, js: Seq<usize>, end: bool, fuel: nat)
    requires
        path.len() == p.net.inners.len(),
    ensures
        visit_all(p, path, js, end, fuel).net.inners.len() == p.net.inners.len(),
        visit_all(p, path, js, end, fuel).net.pegs == p.net.pegs,
        forall|i: int| 0 <= i < p.net.inners.len() ==> #[trigger] visit_all(p, path, js, end, fuel).net.inners[i].memory_mode
            == p.net.inners[i].memory_mode,
        extends(visit_all(p, path, js, end, fuel).delivered, p.delivered),
        forall|i: int| 0 <= i < p.net.inners.len() ==> #[trigger] visit_all(p, path, js, end, fuel).net.inners[i].memory
            == p.net.inners[i].memory,
        !end ==> forall|i: int| 0 <= i < p.net.inners.len() ==> (#[trigger] visit_all(p, path, js, end, fuel).net.inners[i]).alive
            == p.net.inners[i].alive && visit_all(p, path, js, end, fuel).net.inners[i].receivers(p.net.pegs)
            == p.net.inners[i].receivers(p.net.pegs),
        forall|i: int| 0 <= i < p.net.inners.len() && !p.net.inners[i].alive
            ==> !(#[trigger] visit_all(p, path, js, end, fuel).net.inners[i]).alive,
        end && fuel > 0 ==> forall|k: int| 0 <= k < js.len() && js[k] < p.net.inners.len() && !path[js[k] as int]
            ==> !(#[trigger] visit_all(p, path, js, end, fuel).net.inners[js[k] as int]).alive,
    decreases fuel, js.len() + 1,
{
    if js.len() == 0 {
        assert(p.delivered.take(p.delivered.len() as int) =~= p.delivered);
    } else {
        let r = visit_all(p, path, js.drop_last(), end, fuel);
        lemma_visit_all_facts(p, path, js.drop_last(), end, fuel);
        lemma_visit_facts(r, path, js.last() as int, end, fuel);
        lemma_extends_trans(visit(r, path, js.last() as int, end, fuel).delivered, r.delivered, p.delivered);
        if end && fuel > 0 {
            assert forall|k: int| 0 <= k < js.len() && js[k] < p.net.inners.len() && !path[js[k] as int]
                implies !(#[trigger] visit_all(p, path, js, end, fuel).net.inners[js[k] as int]).alive by {
                if k < js.len() - 1 {
                    assert(js.drop_last()[k] == js[k]);
                    assert(!r.net.inners[js[k] as int].alive);
                }
            }
        }
    }
}

/// The callbacks of the stream that takes an event receive it first, in the order
/// they were added; the streams that imitate it come after.
pub proof fn lemma_own_callbacks_first<T>(net: NetworkView<T>, root: int, t: Option<T>)
    requires
        0 <= root < net.inners.len(),
    ensures
        extends(propagated(net, root, t).1, callbacks(net.inners[root].receivers(net.pegs))),
{
    lemma_visit_all_facts(
        started(net, root, t),
        root_path(net.inners.len(), root),
        imitators(net.inners[root].receivers(net.pegs)),
        t is None,
        net.inners.len(),
    );
}

/// Spreading an event changes no peg, adds no stream, and changes no stream's
/// memory mode.
pub proof fn lemma_propagation_keeps_pegs<T>(net: NetworkView<T>, root: int, t: Option<T>)
    requires
        0 <= root < net.inners.len(),
    ensures
        propagated(net, root, t).0.pegs == net.pegs,
        propagated(net, root, t).0.inners.len() == net.inners.len(),
        forall|i: int| 0 <= i < net.inners.len() ==> #[trigger] propagated(net, root, t).0.inners[i].memory_mode
            == net.inners[i].memory_mode,
{
    let p = started(net, root, t);
    assert forall|i: int| 0 <= i < net.inners.len() implies #[trigger] p.net.inners[i].memory_mode
        == net.inners[i].memory_mode by {}
    lemma_visit_all_facts(
        started(net, root, t),
        root_path(net.inners.len(), root),
        imitators(net.inners[root].receivers(net.pegs)),
        t is None,
        net.inners.len(),
    );
}

/// When a running stream ends, a stream that imitates it through a listener still
/// pegged ends too.
pub proof fn lemma_end_reaches_imitators<T>(net: NetworkView<T>, root: int, k: int)
    requires
        0 <= root < net.inners.len(),
        net.inners[root].alive,
        0 <= k < imitators(net.inners[root].receivers(net.pegs)).len(),
        imitators(net.inners[root].receivers(net.pegs))[k] < net.inners.len(),
    ensures
        !propagated(net, root, None).0.inners[imitators(net.inners[root].receivers(net.pegs))[k] as int].alive,
{
    let p = started(net, root, None);
    let path = root_path(net.inners.len(), root);
    let js = imitators(net.inners[root].receivers(net.pegs));
    lemma_visit_all_facts(p, path, js, true, net.inners.len());
    let j = js[k] as int;
    if j == root {
        assert(!p.net.inners[root].alive);
    } else {
        assert(!path[j]);
    }
}

/// A listener added to a running stream, while still pegged, receives the next event,
/// after the listeners added before it.
pub proof fn lemma_added_listener_receives<T>(v: InnerView<T>, table: PegTableView, cell: usize, l: Listener)
    requires
        v.alive,
        table.is_pegged(cell as int),
    ensures
        (InnerView { listeners: v.listeners.push(Pegged { cell, value: l }), ..v }).receivers(table)
            == v.receivers(table).push(l),
{
    let s = v.listeners.push(Pegged { cell, value: l });
    assert(s.drop_last() =~= v.listeners);
    assert(values(live(s, table)) =~= values(live(v.listeners, table)).push(l));
}

/// The memory mode of a stream never changes: not by an event, not by the end, not
/// by adding a listener, and not by taking the memory out.
pub proof fn lemma_memory_mode_fixed<T>(v: InnerView<T>, table: PegTableView, t: Option<T>, end: bool, p: Pegged<Listener>)
    ensures
        v.updated(table, t).memory_mode == v.memory_mode,
        v.forwarded(table, end).memory_mode == v.memory_mode,
        (InnerView { listeners: v.listeners.push(p), ..v }).memory_mode == v.memory_mode,
        (InnerView { memory: None::<T>, ..v }).memory_mode == v.memory_mode,
{
}

/// An ended stream ignores every event and delivers nothing.
pub proof fn lemma_ended_ignores_events<T>(v: InnerView<T>, table: PegTableView, t: Option<T>, end: bool)
    requires
        !v.alive,
    ensures
        v.updated(table, t) == v,
        v.forwarded(table, end) == v,
        v.receivers(table) == Seq::<Listener>::empty(),
{
}

/// The end stops a running stream and drops all of its listeners.
pub proof fn lemma_end_stops<T>(v: InnerView<T>, table: PegTableView)
    requires
        v.alive,
    ensures
        !v.updated(table, None).alive,
        v.updated(table, None).listeners == Seq::<Pegged<Listener>>::empty(),
{
}

/// What a stream remembers after a value `x` and then the end: nothing new without
/// memory; nothing with `KeepUntilEnd`; the value `x` with `KeepAfterEnd`.
pub proof fn lemma_memory_after_end<T>(v: InnerView<T>, t1: PegTableView, t2: PegTableView, x: T)
    requires
        v.alive,
    ensures
        v.memory_mode == MemoryMode::NoMemory ==> v.updated(t1, Some(x)).updated(t2, None).memory == v.memory,
        v.memory_mode == MemoryMode::KeepUntilEnd ==> v.updated(t1, Some(x)).updated(t2, None).memory == None::<T>,
        v.memory_mode == MemoryMode::KeepAfterEnd ==> v.updated(t1, Some(x)).updated(t2, None).memory == Some(x),
{
}

/// The stream that takes an event remembers what its memory mode says: without
/// memory it keeps what it had; with `KeepUntilEnd` it holds the event (nothing after
/// the end); with `KeepAfterEnd` it holds the event when it is a value and keeps what
/// it had at the end. Every other stream keeps its memory.
pub proof fn lemma_update_remembers<T>(net: NetworkView<T>, root: int, t: Option<T>)
    requires
        0 <= root < net.inners.len(),
        net.inners[root].alive,
    ensures
        net.inners[root].memory_mode == MemoryMode::NoMemory
            ==> propagated(net, root, t).0.inners[root].memory == net.inners[root].memory,
        net.inners[root].memory_mode == MemoryMode::KeepUntilEnd
            ==> propagated(net, root, t).0.inners[root].memory == t,
        net.inners[root].memory_mode == MemoryMode::KeepAfterEnd
            ==> propagated(net, root, t).0.inners[root].memory == (if t is Some {
                t
            } else {
                net.inners[root].memory
            }),
        forall|i: int| 0 <= i < net.inners.len() && i != root
            ==> #[trigger] propagated(net, root, t).0.inners[i].memory == net.inners[i].memory,
{
    let p = started(net, root, t);
    lemma_visit_all_facts(
        p,
        root_path(net.inners.len(), root),
        imitators(net.inners[root].receivers(net.pegs)),
        t is None,
        net.inners.len(),
    );
    assert(p.net.inners[root].memory == remembered(net.inners[root].memory_mode, net.inners[root].memory, t));
    assert forall|i: int| 0 <= i < net.inners.len() && i != root implies #[trigger] p.net.inners[i].memory
        == net.inners[i].memory by {}
}

/// The pegged callback entries of `ls`, in order, one number per entry.
proof fn lemma_callbacks_of_live(ls: Seq<Pegged<Listener>>, table: PegTableView)
    ensures
        callbacks(values(live(ls, table))) == ls.filter(
            |e: Pegged<Listener>| table.is_pegged(e.cell as int) && e.value is Callback,
        ).map_values(|e: Pegged<Listener>| e.value->Callback_0),
    decreases ls.len(),
{
    let f = |e: Pegged<Listener>| table.is_pegged(e.cell as int) && e.value is Callback;
    let g = |e: Pegged<Listener>| e.value->Callback_0;
    reveal_with_fuel(Seq::filter, 1);
    if ls.len() > 0 {
        lemma_callbacks_of_live(ls.drop_last(), table);
        let r = live(ls.drop_last(), table);
        let e = ls.last();
        assert(values(r) =~= r.map_values(|p: Pegged<Listener>| p.value));
        if table.is_pegged(e.cell as int) {
            let vs = values(r.push(e));
            assert(vs =~= values(r).push(e.value));
            assert(vs.drop_last() =~= values(r));
            if e.value is Callback {
                assert(ls.filter(f) == ls.drop_last().filter(f).push(e));
                assert(ls.filter(f).map_values(g) =~= ls.drop_last().filter(f).map_values(g).push(g(e)));
            } else {
                assert(ls.filter(f) == ls.drop_last().filter(f));
            }
        } else {
            assert(ls.filter(f) == ls.drop_last().filter(f));
        }
    }
}

/// The callbacks of the stream that takes an event receive it first: one delivery
/// for each of its callback listeners still pegged, in the order they were added,
/// the same callback twice if it was added twice.
pub proof fn lemma_own_callbacks_in_order<T>(net: NetworkView<T>, root: int, t: Option<T>)
    requires
        0 <= root < net.inners.len(),
        net.inners[root].alive,
    ensures
        ({
            let own = net.inners[root].listeners.filter(
                |e: Pegged<Listener>| net.pegs.is_pegged(e.cell as int) && e.value is Callback,
            ).map_values(|e: Pegged<Listener>| e.value->Callback_0);
            &&& own.len() <= propagated(net, root, t).1.len()
            &&& propagated(net, root, t).1.take(own.len() as int) == own
        }),
{
    lemma_own_callbacks_first(net, root, t);
    lemma_callbacks_of_live(net.inners[root].listeners, net.pegs);
}

proof fn lemma_extends_contains<A>(a: Seq<A>, b: Seq<A>, x: A)
    requires
        extends(a, b),
        b.contains(x),
    ensures
        a.contains(x),
{
    let k = choose|k: int| 0 <= k < b.len() && b[k] == x;
    assert(a.take(b.len() as int)[k] == x);
    assert(a[k] == x);
}

proof fn lemma_callbacks_contains(ls: Seq<Listener>, id: u64)
    requires
        ls.contains(Listener::Callback(id)),
    ensures
        callbacks(ls).contains(id),
    decreases ls.len(),
{
    let k = choose|k: int| 0 <= k < ls.len() && ls[k] == Listener::Callback(id);
    let rest = callbacks(ls.drop_last());
    if k == ls.len() - 1 {
        assert(callbacks(ls) == rest.push(id));
        assert(callbacks(ls)[rest.len() as int] == id);
    } else {
        assert(ls.drop_last()[k] == Listener::Callback(id));
        lemma_callbacks_contains(ls.drop_last(), id);
        let m = choose|m: int| 0 <= m < rest.len() && rest[m] == id;
        match ls.last() {
            Listener::Callback(c) => {
                assert(callbacks(ls)[m] == id);
            },
            Listener::Imitate(_) => {},
        }
    }
}

proof fn lemma_imitators_contains(ls: Seq<Listener>, j: usize)
    requires
        ls.contains(Listener::Imitate(j)),
    ensures
        imitators(ls).contains(j),
    decreases ls.len(),
{
    let k = choose|k: int| 0 <= k < ls.len() && ls[k] == Listener::Imitate(j);
    let rest = imitators(ls.drop_last());
    if k == ls.len() - 1 {
        assert(imitators(ls) == rest.push(j));
        assert(imitators(ls)[rest.len() as int] == j);
    } else {
        assert(ls.drop_last()[k] == Listener::Imitate(j));
        lemma_imitators_contains(ls.drop_last(), j);
        let m = choose|m: int| 0 <= m < rest.len() && rest[m] == j;
        match ls.last() {
            Listener::Imitate(c) => {
                assert(imitators(ls)[m] == j);
            },
            Listener::Callback(_) => {},
        }
    }
}

/// A pegged listener entry of a running stream is among its receivers.
proof fn lemma_entry_receives<T>(v: InnerView<T>, table: PegTableView, e: Pegged<Listener>)
    requires
        v.alive,
        v.listeners.contains(e),
        table.is_pegged(e.cell as int),
    ensures
        v.receivers(table).contains(e.value),
{
    lemma_live_contains(v.listeners, table, e);
    let l = live(v.listeners, table);
    let m = choose|m: int| 0 <= m < l.len() && l[m] == e;
    assert(values(l)[m] == e.value);
}

proof fn lemma_off_path_root(n: nat, root: int)
    requires
        0 <= root < n,
    ensures
        off_path(root_path(n, root)) < n,
{
    let none = Seq::new(n, |i: int| false);
    lemma_off_path_len(none);
    lemma_off_path_mark(none, root);
    assert(none.update(root, true) =~= root_path(n, root));
}

/// The event spread by the streams `js` in turn includes what the first `i` of them
/// spread.
proof fn lemma_visit_all_prefix<T>(p: Propagation<T>, path: Seq<bool>, js: Seq<usize>, i: int, end: bool, fuel: nat)
    requires
        path.len() == p.net.inners.len(),
        0 <= i <= js.len(),
    ensures
        extends(visit_all(p, path, js, end, fuel).delivered, visit_all(p, path, js.take(i), end, fuel).delivered),
    decreases js.len(),
{
    if i == js.len() {
        assert(js.take(i) =~= js);
        let d = visit_all(p, path, js, end, fuel).delivered;
        assert(d.take(d.len() as int) =~= d);
    } else {
        let r = visit_all(p, path, js.drop_last(), end, fuel);
        assert(js.drop_last().take(i) =~= js.take(i));
        lemma_visit_all_prefix(p, path, js.drop_last(), i, end, fuel);
        lemma_visit_all_facts(p, path, js.drop_last(), end, fuel);
        lemma_visit_facts(r, path, js.last() as int, end, fuel);
        lemma_extends_trans(
            visit_all(p, path, js, end, fuel).delivered,
            r.delivered,
            visit_all(p, path, js.take(i), end, fuel).delivered,
        );
    }
}

/// A chain of distinct running streams off the path, each imitating the one before
/// through a listener still pegged, the last with the callback `id`.
spec fn chain_reaches<T>(p: Propagation<T>, path: Seq<bool>, chain: Seq<usize>, id: u64) -> bool {
    &&& chain.len() >= 1
    &&& forall|i: int|
        #![trigger chain[i]]
        0 <= i < chain.len() ==> chain[i] < p.net.inners.len() && !path[chain[i] as int]
            && p.net.inners[chain[i] as int].alive
    &&& forall|i: int, k: int| 0 <= i < k < chain.len() ==> chain[i] != chain[k]
    &&& forall|i: int|
        #![trigger chain[i]]
        0 <= i < chain.len() - 1 ==> p.net.inners[chain[i] as int].receivers(p.net.pegs).contains(
            Listener::Imitate(chain[i + 1]),
        )
    &&& p.net.inners[chain.last() as int].receivers(p.net.pegs).contains(Listener::Callback(id))
}

proof fn lemma_reach<T>(p: Propagation<T>, path: Seq<bool>, chain: Seq<usize>, id: u64, fuel: nat)
    requires
        path.len() == p.net.inners.len(),
        fuel > off_path(path),
        chain_reaches(p, path, chain, id),
    ensures
        visit(p, path, chain[0] as int, false, fuel).delivered.contains(id),
    decreases chain.len(), 0nat,
{
    let j = chain[0] as int;
    assert(chain[0] < p.net.inners.len() && !path[j]);
    lemma_off_path_mark(path, j);
    let inner = p.net.inners[j];
    let ls = inner.receivers(p.net.pegs);
    let q = Propagation {
        net: NetworkView {
            inners: p.net.inners.update(j, inner.forwarded(p.net.pegs, false)),
            pegs: p.net.pegs,
        },
        delivered: p.delivered + callbacks(ls),
    };
    let path2 = path.update(j, true);
    lemma_visit_all_facts(q, path2, imitators(ls), false, (fuel - 1) as nat);
    if chain.len() == 1 {
        lemma_callbacks_contains(ls, id);
        let m = choose|m: int| 0 <= m < callbacks(ls).len() && callbacks(ls)[m] == id;
        assert(q.delivered[p.delivered.len() + m] == id);
        lemma_extends_contains(visit(p, path, j, false, fuel).delivered, q.delivered, id);
    } else {
        lemma_live_idempotent(inner.listeners, p.net.pegs);
        let rest = chain.subrange(1, chain.len() as int);
        assert(chain[0] == chain[0]);
        assert forall|i: int| 0 <= i < rest.len() implies rest[i] < q.net.inners.len() && !path2[rest[i] as int]
            && q.net.inners[rest[i] as int].alive by {
            assert(rest[i] == chain[i + 1]);
            assert(chain[0] != chain[i + 1]);
        }
        assert forall|i: int| 0 <= i < rest.len() - 1 implies q.net.inners[rest[i] as int].receivers(q.net.pegs).contains(
            Listener::Imitate(rest[i + 1]),
        ) by {
            assert(rest[i] == chain[i + 1]);
            assert(rest[i + 1] == chain[i + 2]);
            assert(chain[0] != chain[i + 1]);
        }
        assert(rest.last() == chain.last());
        if chain.len() > 1 {
            assert(chain[0] != chain[chain.len() - 1]);
        }
        assert(chain_reaches(q, path2, rest, id));
        assert(ls.contains(Listener::Imitate(chain[1])));
        lemma_imitators_contains(ls, chain[1]);
        lemma_reach_all(q, path2, imitators(ls), rest, id, (fuel - 1) as nat);
    }
}

proof fn lemma_reach_all<T>(p: Propagation<T>, path: Seq<bool>, js: Seq<usize>, chain: Seq<usize>, id: u64, fuel: nat)
    requires
        path.len() == p.net.inners.len(),
        fuel > off_path(path),
        chain_reaches(p, path, chain, id),
        js.contains(chain[0]),
    ensures
        visit_all(p, path, js, false, fuel).delivered.contains(id),
    decreases chain.len(), 1nat,
{
    let m = choose|m: int| 0 <= m < js.len() && js[m] == chain[0];
    let r = visit_all(p, path, js.take(m), false, fuel);
    lemma_visit_all_facts(p, path, js.take(m), false, fuel);
    assert(chain_reaches(r, path, chain, id));
    lemma_reach(r, path, chain, id, fuel);
    assert(js.take(m + 1).drop_last() =~= js.take(m));
    assert(js.take(m + 1).last() == chain[0]);
    assert(visit_all(p, path, js.take(m + 1), false, fuel) == visit(r, path, chain[0] as int, false, fuel));
    lemma_visit_all_prefix(p, path, js, m + 1, false, fuel);
    lemma_extends_contains(
        visit_all(p, path, js, false, fuel).delivered,
        visit_all(p, path, js.take(m + 1), false, fuel).delivered,
        id,
    );
}

/// A value taken by a stream reaches every callback down a chain of imitations: if
/// `chain` lists distinct running streams, starting with the one that takes the
/// value, each with a pegged listener imitating the one before, and the last with a
/// pegged callback listener `id`, then `id` receives the value.
pub proof fn lemma_value_reaches_chain<T>(net: NetworkView<T>, chain: Seq<usize>, id: u64, x: T)
    requires
        chain.len() >= 1,
        forall|i: int|
            #![trigger chain[i]]
            0 <= i < chain.len() ==> chain[i] < net.inners.len() && net.inners[chain[i] as int].alive,
        forall|i: int, k: int| 0 <= i < k < chain.len() ==> chain[i] != chain[k],
        forall|i: int|
            #![trigger chain[i]]
            0 <= i < chain.len() - 1 ==> exists|c: usize|
                #[trigger] net.inners[chain[i] as int].listeners.contains(
                    Pegged { cell: c, value: Listener::Imitate(chain[i + 1]) },
                ) && net.pegs.is_pegged(c as int),
        exists|c: usize|
            #[trigger] net.inners[chain.last() as int].listeners.contains(
                Pegged { cell: c, value: Listener::Callback(id) },
            ) && net.pegs.is_pegged(c as int),
    ensures
        propagated(net, chain[0] as int, Some(x)).1.contains(id),
{
    let root = chain[0] as int;
    let n = net.inners.len();
    let path = root_path(n, root);
    let p = started(net, root, Some(x));
    let ls = net.inners[root].receivers(net.pegs);
    lemma_off_path_root(n, root);
    lemma_visit_all_facts(p, path, imitators(ls), false, n);
    assert forall|i: int| 0 <= i < chain.len() - 1 implies net.inners[chain[i] as int].receivers(net.pegs).contains(
        Listener::Imitate(chain[i + 1]),
    ) by {
        let c = choose|c: usize|
            #[trigger] net.inners[chain[i] as int].listeners.contains(
                Pegged { cell: c, value: Listener::Imitate(chain[i + 1]) },
            ) && net.pegs.is_pegged(c as int);
        lemma_entry_receives(net.inners[chain[i] as int], net.pegs, Pegged { cell: c, value: Listener::Imitate(chain[i + 1]) });
    }
    let c = choose|c: usize|
        #[trigger] net.inners[chain.last() as int].listeners.contains(
            Pegged { cell: c, value: Listener::Callback(id) },
        ) && net.pegs.is_pegged(c as int);
    assert(chain.last() < n);
    lemma_entry_receives(net.inners[chain.last() as int], net.pegs, Pegged { cell: c, value: Listener::Callback(id) });
    if chain.len() == 1 {
        lemma_callbacks_contains(ls, id);
        lemma_extends_contains(propagated(net, root, Some(x)).1, p.delivered, id);
    } else {
        lemma_live_idempotent(net.inners[root].listeners, net.pegs);
        let rest = chain.subrange(1, chain.len() as int);
        assert forall|i: int| 0 <= i < rest.len() implies rest[i] < p.net.inners.len() && !path[rest[i] as int]
            && p.net.inners[rest[i] as int].alive by {
            assert(rest[i] == chain[i + 1]);
            assert(chain[0] != chain[i + 1]);
        }
        assert forall|i: int| 0 <= i < rest.len() - 1 implies p.net.inners[rest[i] as int].receivers(p.net.pegs).contains(
            Listener::Imitate(rest[i + 1]),
        ) by {
            assert(rest[i] == chain[i + 1]);
            assert(rest[i + 1] == chain[i + 2]);
            assert(chain[0] != chain[i + 1]);
        }
        assert(rest.last() == chain.last());
        assert(chain[0] != chain[chain.len() - 1]);
        assert(chain_reaches(p, path, rest, id));
        assert(ls.contains(Listener::Imitate(chain[1])));
        lemma_imitators_contains(ls, chain[1]);
        lemma_reach_all(p, path, imitators(ls), rest, id, n);
    }
}

/// Every stream still running in `q` is as it was in `n0`, and the pegs are the same.
spec fn untouched<T>(n0: NetworkView<T>, q: NetworkView<T>) -> bool {
    &&& q.pegs == n0.pegs
    &&& q.inners.len() == n0.inners.len()
    &&& forall|i: int| 0 <= i < q.inners.len() && (#[trigger] q.inners[i]).alive ==> q.inners[i] == n0.inners[i]
}

/// Every stream that has taken the end and is off the path has ended the streams it
/// imitated to, unless they are on the path.
spec fn ends_passed<T>(n0: NetworkView<T>, q: NetworkView<T>, path: Seq<bool>) -> bool {
    forall|i: int, j: usize|
        0 <= i < n0.inners.len() && j < n0.inners.len() && n0.inners[i].alive && !q.inners[i].alive
            && !path[i] && #[trigger] n0.inners[i].receivers(n0.pegs).contains(Listener::Imitate(j))
            ==> (!q.inners[j as int].alive || path[j as int])
}

proof fn lemma_visit_ends<T>(n0: NetworkView<T>, p: Propagation<T>, path: Seq<bool>, j: int, fuel: nat)
    requires
        path.len() == p.net.inners.len(),
        fuel > off_path(path),
        untouched(n0, p.net),
        ends_passed(n0, p.net, path),
    ensures
        untouched(n0, visit(p, path, j, true, fuel).net),
        ends_passed(n0, visit(p, path, j, true, fuel).net, path),
        0 <= j < p.net.inners.len() && !path[j] ==> !visit(p, path, j, true, fuel).net.inners[j].alive,
    decreases fuel, 0nat,
{
    if 0 <= j < p.net.inners.len() && !path[j] {
        lemma_off_path_mark(path, j);
        let inner = p.net.inners[j];
        let ls = inner.receivers(p.net.pegs);
        let q = Propagation {
            net: NetworkView {
                inners: p.net.inners.update(j, inner.forwarded(p.net.pegs, true)),
                pegs: p.net.pegs,
            },
            delivered: p.delivered + callbacks(ls),
        };
        let path2 = path.update(j, true);
        let js = imitators(ls);
        assert(untouched(n0, q.net));
        assert(ends_passed(n0, q.net, path2));
        lemma_visit_all_ends(n0, q, path2, js, (fuel - 1) as nat);
        lemma_visit_all_facts(q, path2, js, true, (fuel - 1) as nat);
        let r = visit_all(q, path2, js, true, (fuel - 1) as nat).net;
        assert(!r.inners[j].alive);
        assert forall|i: int, t: usize|
            0 <= i < n0.inners.len() && t < n0.inners.len() && n0.inners[i].alive && !r.inners[i].alive
                && !path[i] && #[trigger] n0.inners[i].receivers(n0.pegs).contains(Listener::Imitate(t))
                implies (!r.inners[t as int].alive || path[t as int]) by {
            if i == j {
                if inner.alive {
                    assert(inner == n0.inners[j]);
                    lemma_imitators_contains(ls, t);
                    let k = choose|k: int| 0 <= k < js.len() && js[k] == t;
                    assert(js[k] == t);
                } else {
                    assert(!p.net.inners[i].alive);
                    if !p.net.inners[t as int].alive {
                        assert(!q.net.inners[t as int].alive);
                    }
                }
            }
        }
    }
}

proof fn lemma_visit_all_ends<T>(n0: NetworkView<T>, p: Propagation<T>, path: Seq<bool>, js: Seq<usize>, fuel: nat)
    requires
        path.len() == p.net.inners.len(),
        fuel > off_path(path),
        untouched(n0, p.net),
        ends_passed(n0, p.net, path),
    ensures
        untouched(n0, visit_all(p, path, js, true, fuel).net),
        ends_passed(n0, visit_all(p, path, js, true, fuel).net, path),
        forall|k: int|
            0 <= k < js.len() && js[k] < p.net.inners.len() ==> (!(#[trigger] visit_all(p, path, js, true, fuel).net.inners[js[k] as int]).alive
                || path[js[k] as int]),
    decreases fuel, js.len() + 1,
{
    if js.len() > 0 {
        let r = visit_all(p, path, js.drop_last(), true, fuel);
        lemma_visit_all_ends(n0, p, path, js.drop_last(), fuel);
        lemma_visit_all_facts(p, path, js.drop_last(), true, fuel);
        lemma_visit_ends(n0, r, path, js.last() as int, fuel);
        lemma_visit_facts(r, path, js.last() as int, true, fuel);
        assert forall|k: int|
            0 <= k < js.len() && js[k] < p.net.inners.len() implies (!(#[trigger] visit_all(p, path, js, true, fuel).net.inners[js[k] as int]).alive
                || path[js[k] as int]) by {
            if k < js.len() - 1 {
                assert(js.drop_last()[k] == js[k]);
            }
        }
    }
}

proof fn lemma_chain_ended<T>(n0: NetworkView<T>, r: NetworkView<T>, chain: Seq<usize>, k: int)
    requires
        0 <= k < chain.len(),
        forall|i: int| #![trigger chain[i]] 0 <= i < chain.len() ==> chain[i] < n0.inners.len(),
        forall|i: int|
            #![trigger chain[i]]
            0 <= i < chain.len() - 1 ==> n0.inners[chain[i] as int].alive
                && n0.inners[chain[i] as int].receivers(n0.pegs).contains(Listener::Imitate(chain[i + 1])),
        !r.inners[chain[0] as int].alive,
        forall|i: int, j: usize|
            0 <= i < n0.inners.len() && j < n0.inners.len() && n0.inners[i].alive && !r.inners[i].alive
                && #[trigger] n0.inners[i].receivers(n0.pegs).contains(Listener::Imitate(j))
                ==> !r.inners[j as int].alive,
    ensures
        !r.inners[chain[k] as int].alive,
    decreases k,
{
    if k > 0 {
        lemma_chain_ended(n0, r, chain, k - 1);
        assert(chain[k - 1] < n0.inners.len());
        assert(n0.inners[chain[k - 1] as int].receivers(n0.pegs).contains(Listener::Imitate(chain[k])));
    }
}

/// The end taken by a stream reaches every stream down a chain of imitations: if
/// `chain` starts with the stream that takes the end, and each stream of it but the
/// last runs and has a pegged listener through which the next one imitates it, then
/// the last stream of the chain has ended. Streams may repeat.
pub proof fn lemma_end_reaches_chain<T>(net: NetworkView<T>, chain: Seq<usize>)
    requires
        chain.len() >= 1,
        forall|i: int| #![trigger chain[i]] 0 <= i < chain.len() ==> chain[i] < net.inners.len(),
        forall|i: int|
            #![trigger chain[i]]
            0 <= i < chain.len() - 1 ==> net.inners[chain[i] as int].alive && exists|c: usize|
                #[trigger] net.inners[chain[i] as int].listeners.contains(
                    Pegged { cell: c, value: Listener::Imitate(chain[i + 1]) },
                ) && net.pegs.is_pegged(c as int),
    ensures
        !propagated(net, chain[0] as int, None::<T>).0.inners[chain.last() as int].alive,
{
    let root = chain[0] as int;
    let n = net.inners.len();
    let path = root_path(n, root);
    let p = started(net, root, None::<T>);
    let js = imitators(net.inners[root].receivers(net.pegs));
    lemma_off_path_root(n, root);
    assert forall|i: int| 0 <= i < chain.len() - 1 implies net.inners[chain[i] as int].receivers(net.pegs).contains(
        Listener::Imitate(chain[i + 1]),
    ) by {
        let c = choose|c: usize|
            #[trigger] net.inners[chain[i] as int].listeners.contains(
                Pegged { cell: c, value: Listener::Imitate(chain[i + 1]) },
            ) && net.pegs.is_pegged(c as int);
        lemma_entry_receives(net.inners[chain[i] as int], net.pegs, Pegged { cell: c, value: Listener::Imitate(chain[i + 1]) });
    }
    lemma_visit_all_facts(p, path, js, true, n);
    let r = visit_all(p, path, js, true, n).net;
    if !net.inners[root].alive {
        assert(js.len() == 0);
        assert(p.net.inners =~= net.inners);
        assert(chain.len() == 1);
    } else {
        assert(untouched(net, p.net));
        assert(ends_passed(net, p.net, path));
        lemma_visit_all_ends(net, p, path, js, n);
        assert(!r.inners[root].alive);
        assert forall|i: int, j: usize|
            0 <= i < net.inners.len() && j < net.inners.len() && net.inners[i].alive && !r.inners[i].alive
                && #[trigger] net.inners[i].receivers(net.pegs).contains(Listener::Imitate(j))
                implies !r.inners[j as int].alive by {
            if i == root {
                lemma_imitators_contains(net.inners[root].receivers(net.pegs), j);
                let k = choose|k: int| 0 <= k < js.len() && js[k] == j;
                assert(js[k] == j);
            }
        }
        lemma_chain_ended(net, r, chain, chain.len() - 1);
    }
}

} // verus!
