//! Listeners of a stream and the subscriptions that keep them.
use crate::peg::{Peg, PegTable, PegTableView, Pegged};
use vstd::multiset::Multiset;
use vstd::prelude::*;

verus! {

/// The listeners of a stream, each pegged to the handle that was returned when it was
/// added.
pub struct Listeners<L> {
    ls: Vec<Pegged<L>>,
}

impl<L> View for Listeners<L> {
    type V = Seq<Pegged<L>>;

    closed spec fn view(&self) -> Seq<Pegged<L>> {
        self.ls@
    }
}

/// The entries of `s` whose values are still pegged in `table`, in their order.
pub open spec fn live<L>(s: Seq<Pegged<L>>, table: PegTableView) -> Seq<Pegged<L>>
    decreases s.len(),
{
    if s.len() == 0 {
        s
    } else {
        let rest = live(s.drop_last(), table);
        if table.is_pegged(s.last().cell as int) {
            rest.push(s.last())
        } else {
            rest
        }
    }
}

/// The values of the entries of `s`, in their order.
pub open spec fn values<L>(s: Seq<Pegged<L>>) -> Seq<L> {
    s.map_values(|p: Pegged<L>| p.value)
}

proof fn lemma_live_take<L>(s: Seq<Pegged<L>>, table: PegTableView, i: int)
    requires
        0 <= i < s.len(),
    ensures
        live(s.take(i + 1), table) == if table.is_pegged(s[i].cell as int) {
            live(s.take(i), table).push(s[i])
        } else {
            live(s.take(i), table)
        },
{
    assert(s.take(i + 1).drop_last() =~= s.take(i));
}

impl<L> Listeners<L> {
    /// No listeners.
    pub fn new() -> (r: Listeners<L>)
        ensures
            r@ == Seq::<Pegged<L>>::empty(),
    {
        Listeners { ls: Vec::new() }
    }

    /// Adds a listener, pegged to the returned handle.
    pub fn add(&mut self, table: &mut PegTable, listener: L) -> (peg: Peg)
        ensures
            final(self)@ == old(self)@.push(
                Pegged { cell: old(table)@.cells.len() as usize, value: listener },
            ),
            final(table)@.cells == old(table)@.cells.push(true),
            final(table)@.slots == old(table)@.slots.push(
                crate::peg::Slot {
                    target: Some(old(table)@.cells.len() as usize),
                    handles: 1,
                    kept: false,
                },
            ),
            peg.slot() == Some(old(table)@.slots.len() as usize),
            peg.uses() == Multiset::singleton(old(table)@.slots.len() as int),
    {
        let (val, peg) = Pegged::new_pair(table, listener);
        self.ls.push(val);
        peg
    }

    /// Drops every listener.
    pub fn clear(&mut self)
        ensures
            final(self)@ == Seq::<Pegged<L>>::empty(),
    {
        self.ls.clear();
    }
}

impl<L: Copy> Listeners<L> {
    /// Drops the listeners whose values are no longer pegged and returns the others,
    /// in the order they were added: the listeners that are to receive an event.
    pub fn iter(&mut self, table: &PegTable) -> (r: Vec<L>)
        ensures
            final(self)@ == live(old(self)@, table@),
            r@ == values(live(old(self)@, table@)),
    {
        let mut kept: Vec<Pegged<L>> = Vec::new();
        let mut out: Vec<L> = Vec::new();
        let mut i: usize = 0;
        proof {
            assert(self.ls@.take(0) =~= Seq::<Pegged<L>>::empty());
        }
        while i < self.ls.len()
            invariant
                self.ls@ == old(self)@,
                0 <= i <= self.ls@.len(),
                kept@ == live(self.ls@.take(i as int), table@),
                out@ == values(kept@),
            decreases self.ls@.len() - i,
        {
            proof {
                lemma_live_take(self.ls@, table@, i as int);
            }
            let e = &self.ls[i];
            if e.with_value(table).is_some() {
                let cell = e.cell;
                let value = e.value;
                let ghost before = kept@;
                kept.push(Pegged { cell, value });
                out.push(value);
                proof {
                    assert(values(kept@) =~= values(before).push(value));
                }
            }
            i += 1;
        }
        proof {
            assert(self.ls@.take(self.ls@.len() as int) =~= self.ls@);
        }
        self.ls = kept;
        out
    }
}

/// A receipt for adding a listener to a stream; it can stop the listening.
pub struct Subscription {
    peg: Peg,
}

impl Subscription {
    /// The handle that pegs the listener.
    pub closed spec fn peg(&self) -> Peg {
        self.peg
    }

    /// A subscription holding `peg`.
    pub fn new(peg: Peg) -> (r: Subscription)
        ensures
            r.peg() == peg,
    {
        Subscription { peg }
    }

    /// Stops listening: the destructor of the peg runs, if it is still there.
    pub fn unsubscribe(&self, table: &mut PegTable)
        ensures
            final(table)@ == old(table)@.unpegged(self.peg().slot()),
    {
        self.peg.unpeg(table)
    }

    /// Another subscription on the same listener: one more handle on its peg.
    pub fn share(&self, table: &mut PegTable) -> (r: Subscription)
        requires
            old(table)@.can_share(self.peg().uses()),
        ensures
            final(table)@ == old(table)@.shared(self.peg().uses()),
            r.peg().slot() == self.peg().slot(),
            r.peg().uses() == self.peg().uses(),
    {
        Subscription { peg: self.peg.share(table) }
    }

    /// Drops the subscription: its peg handle goes, and with the last handle the
    /// listener goes too, unless the peg's destructor was thrown away.
    pub fn release(self, table: &mut PegTable)
        requires
            old(table)@.holds(self.peg().uses()),
        ensures
            final(table)@ == old(table)@.released(self.peg().uses()),
    {
        self.peg.release(table)
    }
}

/// An entry whose value is no longer pegged is not among the live entries.
proof fn lemma_unpegged_not_live<L>(s: Seq<Pegged<L>>, table: PegTableView, p: Pegged<L>)
    requires
        !table.is_pegged(p.cell as int),
    ensures
        !live(s, table).contains(p),
    decreases s.len(),
{
    if s.len() > 0 {
        lemma_unpegged_not_live(s.drop_last(), table, p);
        let rest = live(s.drop_last(), table);
        if table.is_pegged(s.last().cell as int) {
            if rest.push(s.last()).contains(p) {
                let j = choose|j: int| 0 <= j < rest.push(s.last()).len() && rest.push(s.last())[j] == p;
                if j < rest.len() {
                    assert(rest.contains(p));
                }
            }
        }
    }
}

/// An entry is live exactly when it is among the entries and its value is pegged.
pub proof fn lemma_live_contains<L>(s: Seq<Pegged<L>>, table: PegTableView, e: Pegged<L>)
    ensures
        live(s, table).contains(e) <==> (s.contains(e) && table.is_pegged(e.cell as int)),
    decreases s.len(),
{
    if s.len() > 0 {
        let rest = live(s.drop_last(), table);
        lemma_live_contains(s.drop_last(), table, e);
        if s.drop_last().contains(e) {
            let j = choose|j: int| 0 <= j < s.drop_last().len() && s.drop_last()[j] == e;
            assert(s[j] == e);
        }
        if s.contains(e) {
            let j = choose|j: int| 0 <= j < s.len() && s[j] == e;
            if j < s.len() - 1 {
                assert(s.drop_last()[j] == e);
            }
        }
        if table.is_pegged(s.last().cell as int) {
            let r2 = rest.push(s.last());
            if r2.contains(e) {
                let j = choose|j: int| 0 <= j < r2.len() && r2[j] == e;
                if j < rest.len() {
                    assert(rest[j] == e);
                }
            }
            if rest.contains(e) {
                let j = choose|j: int| 0 <= j < rest.len() && rest[j] == e;
                assert(r2[j] == e);
            }
            assert(r2[rest.len() as int] == s.last());
        }
    }
}

/// Keeping the live entries of the live entries keeps them all.
pub proof fn lemma_live_idempotent<L>(s: Seq<Pegged<L>>, table: PegTableView)
    ensures
        live(live(s, table), table) == live(s, table),
    decreases s.len(),
{
    if s.len() > 0 {
        lemma_live_idempotent(s.drop_last(), table);
        let r = live(s.drop_last(), table);
        if table.is_pegged(s.last().cell as int) {
            assert(r.push(s.last()).drop_last() =~= r);
        }
    }
}

/// Unpegging one listener's slot drops that listener and keeps every other live
/// listener.
pub proof fn lemma_unpeg_keeps_other_entries<L>(
    table: PegTableView,
    d: usize,
    s: Seq<Pegged<L>>,
    p: Pegged<L>,
    e: Pegged<L>,
)
    requires
        table.wf(),
        d < table.slots.len(),
        table.targets(d as int, p.cell as int),
    ensures
        live(s, table.unpegged(Some(d))).contains(e) <==> (live(s, table).contains(e) && e.cell
            != p.cell),
{
    lemma_live_contains(s, table, e);
    lemma_live_contains(s, table.unpegged(Some(d)), e);
    crate::peg::lemma_unpeg_clears_only_its_cell(table, d, p.cell as int, e.cell as int);
}

/// After a listener's subscription unpegs it, the listener is dropped from every list
/// of listeners at the next event and receives no more events.
pub proof fn lemma_unsubscribe_stops_delivery<L>(
    table: PegTableView,
    d: usize,
    s: Seq<Pegged<L>>,
    p: Pegged<L>,
)
    requires
        d < table.slots.len(),
        table.targets(d as int, p.cell as int),
    ensures
        !live(s, table.unpegged(Some(d))).contains(p),
{
    lemma_unpegged_not_live(s, table.unpegged(Some(d)), p);
}

} // verus!
