//! Pegs tie the lifetime of a value (most often a listener) to a handle.
//!
//! A [`Pegged`] value lives in a cell of a [`PegTable`]; the [`Peg`] returned with it
//! owns a destructor slot that can clear that cell. Running the destructor
//! ([`Peg::unpeg`]) clears the cell; [`Peg::keep_mode`] throws the destructor away
//! without running it. Handles are reference counted: [`Peg::share`] makes one more
//! handle on the same slot, and [`Peg::release`] drops one, running the destructor
//! when the last handle of the slot goes, unless [`Peg::keep_until_unpeg`] was
//! called: then only an unpeg runs it.
use vstd::multiset::Multiset;
use vstd::prelude::*;

verus! {

/// A destructor slot of the table: the cell its destructor clears, while it still
/// has one, and how many peg handles share the slot.
#[derive(Clone, Copy, PartialEq, Eq, Structural, Debug)]
pub struct Slot {
    pub target: Option<usize>,
    pub handles: u64,
    /// The destructor no longer runs when the last handle goes; only an unpeg runs it.
    pub kept: bool,
}

/// The cells of pegged values and the destructor slots of pegs.
pub struct PegTable {
    store: Store,
}

/// What a [`PegTable`] holds: whether each cell still holds its value, and the slots.
pub struct PegTableView {
    pub cells: Seq<bool>,
    pub slots: Seq<Slot>,
}

impl View for PegTable {
    type V = PegTableView;

    closed spec fn view(&self) -> PegTableView {
        self.store.view()
    }
}

impl PegTableView {
    /// What every table holds to: its lengths fit a `usize`, each destructor clears a
    /// cell of the table, and no two destructors clear the same cell.
    pub open spec fn wf(self) -> bool {
        &&& self.cells.len() <= usize::MAX
        &&& self.slots.len() <= usize::MAX
        &&& forall|d: int|
            #![trigger self.slots[d]]
            0 <= d < self.slots.len() && self.slots[d].target is Some ==> self.slots[d].target->0
                < self.cells.len()
        &&& forall|d: int, e: int|
            #![trigger self.slots[d], self.slots[e]]
            0 <= d < self.slots.len() && 0 <= e < self.slots.len() && self.slots[d].target is Some
                && self.slots[d].target == self.slots[e].target ==> d == e
    }

    /// The cell still holds its value.
    pub open spec fn is_pegged(self, cell: int) -> bool {
        0 <= cell < self.cells.len() && self.cells[cell]
    }

    /// Every handle counted in `m` may be released: its slot exists and has at least
    /// that many handles.
    pub open spec fn holds(self, m: Multiset<int>) -> bool {
        forall|d: int|
            #![trigger m.count(d)]
            m.count(d) > 0 ==> (0 <= d < self.slots.len() && m.count(d) <= self.slots[d].handles)
    }

    /// The handles counted in `m` can be added without the counts overflowing.
    pub open spec fn can_share(self, m: Multiset<int>) -> bool {
        forall|d: int|
            #![trigger m.count(d)]
            m.count(d) > 0 ==> (0 <= d < self.slots.len() && self.slots[d].handles + m.count(d)
                <= u64::MAX)
    }

    /// Releasing the handles `m` runs the destructor of slot `d`: its last handle
    /// goes, and the slot is not kept until unpegged.
    pub open spec fn runs_destructor(self, m: Multiset<int>, d: int) -> bool {
        m.count(d) > 0 && self.slots[d].handles == m.count(d) && !self.slots[d].kept
    }

    /// The destructor of slot `d` clears cell `k`.
    pub open spec fn targets(self, d: int, k: int) -> bool {
        self.slots[d].target is Some && self.slots[d].target->0 as int == k
    }

    /// Releasing the handles `m` runs a destructor that clears cell `k`.
    pub open spec fn cleared(self, m: Multiset<int>, k: int) -> bool {
        exists|d: int|
            0 <= d < self.slots.len() && #[trigger] self.runs_destructor(m, d)
                && self.targets(d, k)
    }

    /// The table after the handles `m` are released: each slot loses its handles in
    /// `m`, and a slot whose last handle goes runs its destructor.
    pub open spec fn released(self, m: Multiset<int>) -> PegTableView {
        PegTableView {
            cells: Seq::new(self.cells.len(), |k: int| self.cells[k] && !self.cleared(m, k)),
            slots: Seq::new(
                self.slots.len(),
                |d: int|
                    Slot {
                        target: if self.runs_destructor(m, d) {
                            None
                        } else {
                            self.slots[d].target
                        },
                        handles: (self.slots[d].handles - m.count(d)) as u64,
                        kept: self.slots[d].kept,
                    },
            ),
        }
    }

    /// The table after one more handle is made for each handle counted in `m`.
    pub open spec fn shared(self, m: Multiset<int>) -> PegTableView {
        PegTableView {
            cells: self.cells,
            slots: Seq::new(
                self.slots.len(),
                |d: int|
                    Slot {
                        target: self.slots[d].target,
                        handles: (self.slots[d].handles + m.count(d)) as u64,
                        kept: self.slots[d].kept,
                    },
            ),
        }
    }

    /// The table after the destructor of `slot` is thrown away without running it.
    pub open spec fn detached(self, slot: Option<usize>) -> PegTableView {
        match slot {
            Some(d) => if d < self.slots.len() {
                PegTableView {
                    cells: self.cells,
                    slots: self.slots.update(
                        d as int,
                        Slot { target: None, ..self.slots[d as int] },
                    ),
                }
            } else {
                self
            },
            None => self,
        }
    }

    /// The table after the slot is kept until unpegged: releasing its last handle no
    /// longer runs its destructor.
    pub open spec fn kept_until_unpeg(self, slot: Option<usize>) -> PegTableView {
        match slot {
            Some(d) => if d < self.slots.len() {
                PegTableView {
                    cells: self.cells,
                    slots: self.slots.update(d as int, Slot { kept: true, ..self.slots[d as int] }),
                }
            } else {
                self
            },
            None => self,
        }
    }

    /// The table after the destructor of `slot` runs, if it still has one.
    pub open spec fn unpegged(self, slot: Option<usize>) -> PegTableView {
        match slot {
            Some(d) => if d < self.slots.len() && self.slots[d as int].target is Some {
                let k = self.slots[d as int].target->0;
                PegTableView {
                    cells: if k < self.cells.len() {
                        self.cells.update(k as int, false)
                    } else {
                        self.cells
                    },
                    slots: self.slots.update(
                        d as int,
                        Slot { target: None, ..self.slots[d as int] },
                    ),
                }
            } else {
                self
            },
            None => self,
        }
    }
    proof fn lemma_shared_compose(self, a: Multiset<int>, b: Multiset<int>)
        requires
            self.can_share(a.add(b)),
        ensures
            self.shared(a).shared(b) == self.shared(a.add(b)),
            self.shared(a).can_share(b),
    {
        let l = self.shared(a).shared(b);
        let r = self.shared(a.add(b));
        assert forall|d: int| 0 <= d < self.slots.len() implies #[trigger] l.slots[d] == r.slots[d] by {
            if a.add(b).count(d) > 0 {
                assert(self.slots[d].handles + a.add(b).count(d) <= u64::MAX);
            }
        }
        assert(l.slots =~= r.slots);
        assert forall|d: int| #[trigger] b.count(d) > 0 implies (0 <= d < self.shared(a).slots.len()
            && self.shared(a).slots[d].handles + b.count(d) <= u64::MAX) by {
            assert(a.add(b).count(d) > 0);
        }
    }

    proof fn lemma_shared_empty(self)
        ensures
            self.shared(Multiset::empty()) == self,
    {
        assert(self.shared(Multiset::empty()).slots =~= self.slots);
    }

    proof fn lemma_released_empty(self)
        ensures
            self.released(Multiset::empty()) == self,
    {
        let m = Multiset::<int>::empty();
        assert forall|k: int| 0 <= k < self.cells.len() implies !#[trigger] self.cleared(m, k) by {
            if self.cleared(m, k) {
                let d = choose|d: int|
                    0 <= d < self.slots.len() && #[trigger] self.runs_destructor(m, d)
                        && self.targets(d, k);
            }
        }
        assert(self.released(m).cells =~= self.cells);
        assert(self.released(m).slots =~= self.slots);
    }

    proof fn lemma_released_compose(self, a: Multiset<int>, b: Multiset<int>)
        requires
            self.holds(a.add(b)),
        ensures
            self.released(a).released(b) == self.released(a.add(b)),
            self.released(a).holds(b),
    {
        let ab = a.add(b);
        let t1 = self.released(a);
        let l = t1.released(b);
        let r = self.released(ab);
        assert forall|d: int| 0 <= d < self.slots.len() implies
            (#[trigger] t1.runs_destructor(b, d) <==> (self.runs_destructor(ab, d) && !self.runs_destructor(a, d)))
            && (self.runs_destructor(ab, d) <==> (self.runs_destructor(a, d) || t1.runs_destructor(b, d)))
            && l.slots[d] == r.slots[d] by {
            if ab.count(d) > 0 {
                assert(ab.count(d) <= self.slots[d].handles);
            }
        }
        assert(l.slots =~= r.slots);
        assert forall|k: int| 0 <= k < self.cells.len() implies l.cells[k] == r.cells[k] by {
            if self.cleared(ab, k) {
                let d = choose|d: int|
                    0 <= d < self.slots.len() && #[trigger] self.runs_destructor(ab, d)
                        && self.targets(d, k);
                if !self.runs_destructor(a, d) {
                    assert(t1.runs_destructor(b, d));
                    assert(t1.targets(d, k));
                    assert(t1.cleared(b, k));
                } else {
                    assert(self.cleared(a, k));
                }
            }
            if self.cleared(a, k) {
                let d = choose|d: int|
                    0 <= d < self.slots.len() && #[trigger] self.runs_destructor(a, d)
                        && self.targets(d, k);
                assert(self.runs_destructor(ab, d));
                assert(self.cleared(ab, k));
            }
            if t1.cleared(b, k) {
                let d = choose|d: int|
                    0 <= d < t1.slots.len() && #[trigger] t1.runs_destructor(b, d)
                        && t1.targets(d, k);
                assert(self.runs_destructor(ab, d));
                assert(self.cleared(ab, k));
            }
        }
        assert(l.cells =~= r.cells);
        assert forall|d: int| #[trigger] b.count(d) > 0 implies (0 <= d < t1.slots.len()
            && b.count(d) <= t1.slots[d].handles) by {
            assert(ab.count(d) > 0);
        }
    }
}

/// The cells and slots themselves, without the rule that ties them together.
struct Store {
    cells: Vec<bool>,
    slots: Vec<Slot>,
}

impl Store {
    spec fn view(&self) -> PegTableView {
        PegTableView { cells: self.cells@, slots: self.slots@ }
    }

    fn new() -> (r: Store)
        ensures
            r.view().cells == Seq::<bool>::empty(),
            r.view().slots == Seq::<Slot>::empty(),
            r.view().wf(),
    {
        Store { cells: Vec::new(), slots: Vec::new() }
    }

    /// Whether the lengths fit a `usize`, which they do for every store.
    proof fn lemma_lengths(&self)
        ensures
            self.view().cells.len() <= usize::MAX,
            self.view().slots.len() <= usize::MAX,
    {
        assert(self.cells.len() == self.cells@.len());
        assert(self.slots.len() == self.slots@.len());
    }

    /// A new cell holding its value, and a slot whose destructor clears it.
    fn push_pair(&mut self) -> (r: (usize, usize))
        ensures
            r.0 == old(self).view().cells.len(),
            r.1 == old(self).view().slots.len(),
            final(self).view() == (PegTableView {
                cells: old(self).view().cells.push(true),
                slots: old(self).view().slots.push(Slot { target: Some(r.0), handles: 1, kept: false }),
            }),
    {
        let cell = self.cells.len();
        let slot = self.slots.len();
        self.cells.push(true);
        self.slots.push(Slot { target: Some(cell), handles: 1, kept: false });
        (cell, slot)
    }

    /// Throws the destructor of slot `d` away.
    fn detach(&mut self, d: usize)
        requires
            d < old(self).view().slots.len(),
        ensures
            final(self).view() == old(self).view().detached(Some(d)),
    {
        let s = self.slots[d];
        self.slots.set(d, Slot { target: None, ..s });
        proof {
            assert(self.view().slots =~= old(self).view().detached(Some(d)).slots);
        }
    }

    /// Keeps slot `d` until unpegged.
    fn keep(&mut self, d: usize)
        requires
            d < old(self).view().slots.len(),
        ensures
            final(self).view() == old(self).view().kept_until_unpeg(Some(d)),
    {
        let s = self.slots[d];
        self.slots.set(d, Slot { kept: true, ..s });
        proof {
            assert(self.view().slots =~= old(self).view().kept_until_unpeg(Some(d)).slots);
        }
    }

    /// One more handle on slot `d`.
    fn add_handle(&mut self, d: usize)
        requires
            d < old(self).view().slots.len(),
            old(self).view().slots[d as int].handles < u64::MAX,
        ensures
            final(self).view() == old(self).view().shared(Multiset::singleton(d as int)),
    {
        let s = self.slots[d];
        self.slots.set(d, Slot { handles: s.handles + 1, ..s });
        proof {
            assert(self.view().slots =~= old(self).view().shared(Multiset::singleton(d as int)).slots);
        }
    }

    /// One handle of slot `d` goes; if it was the last, the destructor runs.
    fn drop_handle(&mut self, d: usize)
        requires
            d < old(self).view().slots.len(),
            old(self).view().slots[d as int].handles >= 1,
        ensures
            final(self).view() == old(self).view().released(Multiset::singleton(d as int)),
    {
        let ghost t0 = self.view();
        let ghost m = Multiset::singleton(d as int);
        if self.slots[d].handles == 1 && !self.slots[d].kept {
            self.run_destructor(d);
        }
        let s = self.slots[d];
        self.slots.set(d, Slot { handles: s.handles - 1, ..s });
        proof {
            let r = t0.released(m);
            assert forall|e: int| 0 <= e < t0.slots.len() implies
                (#[trigger] t0.runs_destructor(m, e) <==> (e == d && t0.slots[d as int].handles == 1 && !t0.slots[d as int].kept)) by {
                if e != d {
                    assert(m.count(e) == 0);
                }
            }
            assert(self.view().slots =~= r.slots);
            assert forall|k: int| 0 <= k < t0.cells.len() implies self.view().cells[k] == r.cells[k] by {
                if t0.cleared(m, k) {
                    let e = choose|e: int|
                        0 <= e < t0.slots.len() && #[trigger] t0.runs_destructor(m, e)
                            && t0.targets(e, k);
                    assert(e == d);
                }
                if t0.slots[d as int].handles == 1 && !t0.slots[d as int].kept && t0.targets(d as int, k) {
                    assert(t0.runs_destructor(m, d as int));
                }
            }
            assert(self.view().cells =~= r.cells);
        }
    }

    /// Runs the destructor of slot `d`, if it has one: the slot forgets it, and the
    /// cell it targets is cleared.
    fn run_destructor(&mut self, d: usize)
        requires
            d < old(self).view().slots.len(),
        ensures
            final(self).view() == old(self).view().unpegged(Some(d)),
    {
        let s = self.slots[d];
        if let Some(k) = s.target {
            self.slots.set(d, Slot { target: None, ..s });
            if k < self.cells.len() {
                self.cells.set(k, false);
            }
        }
        proof {
            assert(self.view().cells =~= old(self).view().unpegged(Some(d)).cells);
            assert(self.view().slots =~= old(self).view().unpegged(Some(d)).slots);
        }
    }
}

impl PegTable {
    #[verifier::type_invariant]
    closed spec fn well_formed(self) -> bool {
        self.store.view().wf()
    }

    /// Does nothing; it tells the caller that every table is well formed.
    pub fn show_wf(&self)
        ensures
            self@.wf(),
    {
        proof {
            use_type_invariant(self);
        }
    }

    /// A table with no cells and no slots.
    pub fn new() -> (r: PegTable)
        ensures
            r@.cells == Seq::<bool>::empty(),
            r@.slots == Seq::<Slot>::empty(),
    {
        PegTable { store: Store::new() }
    }

    /// Takes the store out, leaving an empty one.
    fn take_store(&mut self) -> (r: Store)
        ensures
            r.view() == old(self)@,
            r.view().wf(),
    {
        proof {
            use_type_invariant(&*self);
        }
        let mut st = Store::new();
        std::mem::swap(&mut self.store, &mut st);
        st
    }

    /// Puts a well formed store back.
    fn put_store(&mut self, st: Store)
        requires
            st.view().wf(),
        ensures
            final(self)@ == st.view(),
    {
        let mut st = st;
        std::mem::swap(&mut self.store, &mut st);
    }

    /// The number of slots.
    fn slot_count(&self) -> (r: usize)
        ensures
            r == self@.slots.len(),
    {
        self.store.slots.len()
    }

    /// Whether cell `c` still holds its value.
    fn is_pegged(&self, c: usize) -> (r: bool)
        ensures
            r == self@.is_pegged(c as int),
    {
        c < self.store.cells.len() && self.store.cells[c]
    }

    fn push_pair(&mut self) -> (r: (usize, usize))
        ensures
            r.0 == old(self)@.cells.len(),
            r.1 == old(self)@.slots.len(),
            final(self)@ == (PegTableView {
                cells: old(self)@.cells.push(true),
                slots: old(self)@.slots.push(Slot { target: Some(r.0), handles: 1, kept: false }),
            }),
    {
        let mut st = self.take_store();
        let r = st.push_pair();
        proof {
            st.lemma_lengths();
            let v = st.view();
            assert forall|d: int| 0 <= d < v.slots.len() && v.slots[d].target is Some
                implies #[trigger] v.slots[d].target->0 < v.cells.len() by {
                if d < v.slots.len() - 1 {
                    assert(v.slots[d] == old(self)@.slots[d]);
                }
            }
            assert forall|d: int, e: int|
                0 <= d < v.slots.len() && 0 <= e < v.slots.len() && v.slots[d].target is Some
                    && v.slots[d].target == v.slots[e].target implies #[trigger] v.slots[d] == #[trigger] v.slots[e] && d == e by {
                if d < v.slots.len() - 1 {
                    assert(v.slots[d] == old(self)@.slots[d]);
                }
                if e < v.slots.len() - 1 {
                    assert(v.slots[e] == old(self)@.slots[e]);
                }
            }
        }
        self.put_store(st);
        r
    }

    fn detach(&mut self, d: usize)
        requires
            d < old(self)@.slots.len(),
        ensures
            final(self)@ == old(self)@.detached(Some(d)),
    {
        let mut st = self.take_store();
        st.detach(d);
        proof {
            st.lemma_lengths();
            let v = st.view();
            let o = old(self)@;
            assert forall|e: int| 0 <= e < v.slots.len() && e != d implies #[trigger] v.slots[e] == o.slots[e] by {}
        }
        self.put_store(st);
    }

    fn keep(&mut self, d: usize)
        requires
            d < old(self)@.slots.len(),
        ensures
            final(self)@ == old(self)@.kept_until_unpeg(Some(d)),
    {
        let mut st = self.take_store();
        st.keep(d);
        proof {
            st.lemma_lengths();
            let v = st.view();
            let o = old(self)@;
            assert forall|e: int| 0 <= e < v.slots.len() implies #[trigger] v.slots[e].target == o.slots[e].target by {}
        }
        self.put_store(st);
    }

    fn add_handle(&mut self, d: usize)
        requires
            d < old(self)@.slots.len(),
            old(self)@.slots[d as int].handles < u64::MAX,
        ensures
            final(self)@ == old(self)@.shared(Multiset::singleton(d as int)),
    {
        let mut st = self.take_store();
        st.add_handle(d);
        proof {
            st.lemma_lengths();
            let v = st.view();
            let o = old(self)@;
            assert forall|e: int| 0 <= e < v.slots.len() implies #[trigger] v.slots[e].target == o.slots[e].target by {}
        }
        self.put_store(st);
    }

    fn drop_handle(&mut self, d: usize)
        requires
            d < old(self)@.slots.len(),
            old(self)@.slots[d as int].handles >= 1,
        ensures
            final(self)@ == old(self)@.released(Multiset::singleton(d as int)),
    {
        let mut st = self.take_store();
        st.drop_handle(d);
        proof {
            st.lemma_lengths();
            let v = st.view();
            let o = old(self)@;
            assert forall|e: int| 0 <= e < v.slots.len() && v.slots[e].target is Some
                implies #[trigger] v.slots[e].target == o.slots[e].target by {}
        }
        self.put_store(st);
    }

    fn run_destructor(&mut self, d: usize)
        requires
            d < old(self)@.slots.len(),
        ensures
            final(self)@ == old(self)@.unpegged(Some(d)),
    {
        let mut st = self.take_store();
        st.run_destructor(d);
        proof {
            st.lemma_lengths();
            let v = st.view();
            let o = old(self)@;
            assert forall|e: int| 0 <= e < v.slots.len() && v.slots[e].target is Some
                implies #[trigger] v.slots[e].target == o.slots[e].target by {}
        }
        self.put_store(st);
    }
}

/// A value whose cell in the table says whether its peg still lets it live.
#[derive(Debug)]
pub struct Pegged<P> {
    pub cell: usize,
    pub value: P,
}

/// A handle on a destructor slot, with the handles that must go when it goes.
pub struct Peg {
    slot: Option<usize>,
    related: Option<Vec<Peg>>,
}

impl<P> Pegged<P> {
    /// Makes a new cell holding `p`, and a peg whose destructor clears it.
    pub fn new_pair(table: &mut PegTable, p: P) -> (r: (Pegged<P>, Peg))
        ensures
            r.0 == (Pegged { cell: old(table)@.cells.len() as usize, value: p }),
            r.1.slot() == Some(old(table)@.slots.len() as usize),
            r.1.uses() == Multiset::singleton(old(table)@.slots.len() as int),
            final(table)@ == (PegTableView {
                cells: old(table)@.cells.push(true),
                slots: old(table)@.slots.push(
                    Slot { target: Some(old(table)@.cells.len() as usize), handles: 1, kept: false },
                ),
            }),
    {
        let (cell, slot) = table.push_pair();
        let peg = Peg { slot: Some(slot), related: None };
        proof {
            assert(peg.uses() =~= Multiset::singleton(slot as int));
        }
        (Pegged { cell, value: p }, peg)
    }

    /// The value, for change, while its cell still holds it.
    pub fn with_value_mut(&mut self, table: &PegTable) -> (r: Option<&mut P>)
        ensures
            r is Some <==> table@.is_pegged(old(self).cell as int),
            final(self).cell == old(self).cell,
            r is None ==> final(self).value == old(self).value,
            r matches Some(v) ==> *v == old(self).value && final(self).value == *final(v),
    {
        if table.is_pegged(self.cell) {
            Some(&mut self.value)
        } else {
            None
        }
    }

    /// The value, while its cell still holds it.
    pub fn with_value(&self, table: &PegTable) -> (r: Option<&P>)
        ensures
            r is Some <==> table@.is_pegged(self.cell as int),
            r matches Some(v) ==> *v == self.value,
    {
        if table.is_pegged(self.cell) {
            Some(&self.value)
        } else {
            None
        }
    }
}

impl Peg {
    /// The slot whose destructor this handle controls; `None` for a peg without one.
    pub closed spec fn slot(&self) -> Option<usize> {
        self.slot
    }

    /// The slots of this handle and of all its related handles, each counted once
    /// per handle.
    pub closed spec fn uses(&self) -> Multiset<int>
        decreases self,
    {
        let own = match self.slot {
            Some(d) => Multiset::singleton(d as int),
            None => Multiset::empty(),
        };
        match &self.related {
            None => own,
            Some(v) => own.add(Self::uses_all(v@)),
        }
    }

    /// The slots of all handles in `s`.
    pub closed spec fn uses_all(s: Seq<Peg>) -> Multiset<int>
        decreases s,
    {
        if s.len() == 0 {
            Multiset::empty()
        } else {
            Self::uses_all(s.subrange(0, s.len() - 1)).add(s[s.len() - 1].uses())
        }
    }

    /// No handles hold no slots.
    pub proof fn lemma_uses_all_empty()
        ensures
            Self::uses_all(Seq::empty()) == Multiset::<int>::empty(),
    {
    }

    /// The handles `s` and then `p` hold the slots of `s` and those of `p`.
    pub proof fn lemma_uses_all_push(s: Seq<Peg>, p: Peg)
        ensures
            Self::uses_all(s.push(p)) == Self::uses_all(s).add(p.uses()),
    {
        assert(s.push(p).subrange(0, s.len() as int) =~= s);
    }

    proof fn lemma_uses_all_take(s: Seq<Peg>, i: int)
        requires
            0 <= i < s.len(),
        ensures
            Self::uses_all(s.take(i + 1)) == Self::uses_all(s.take(i)).add(s[i].uses()),
    {
        assert(s.take(i + 1) =~= s.take(i).push(s[i]));
        Self::lemma_uses_all_push(s.take(i), s[i]);
    }

    proof fn lemma_uses_all_prefix(s: Seq<Peg>, i: int, d: int)
        requires
            0 <= i <= s.len(),
        ensures
            Self::uses_all(s.take(i)).count(d) <= Self::uses_all(s).count(d),
        decreases s.len(),
    {
        if i < s.len() {
            let t = s.subrange(0, s.len() - 1);
            assert(s.take(i) =~= t.take(i));
            Self::lemma_uses_all_prefix(t, i, d);
        } else {
            assert(s.take(i) =~= s);
        }
    }

    /// A peg without a destructor.
    pub fn new_fake() -> (r: Peg)
        ensures
            r.slot() is None,
            r.uses() == Multiset::<int>::empty(),
    {
        Peg { slot: None, related: None }
    }

    /// A peg without a destructor that holds the handles `pegs` until it goes.
    pub fn many(pegs: Vec<Peg>) -> (r: Peg)
        ensures
            r.slot() is None,
            r.uses() == Peg::uses_all(pegs@),
    {
        let r = Peg { slot: None, related: Some(pegs) };
        proof {
            assert(r.uses() =~= Peg::uses_all(pegs@));
        }
        r
    }

    /// Makes `peg` go when this handle goes.
    pub fn add_related(&mut self, peg: Peg)
        ensures
            final(self).slot() == old(self).slot(),
            final(self).uses() == old(self).uses().add(peg.uses()),
    {
        let ghost pu = peg.uses();
        let related = self.related.take();
        match related {
            Some(mut v) => {
                let ghost old_v = v@;
                v.push(peg);
                proof {
                    Self::lemma_uses_all_push(old_v, peg);
                }
                self.related = Some(v);
            },
            None => {
                let mut v = Vec::new();
                v.push(peg);
                proof {
                    Self::lemma_uses_all_push(Seq::empty(), peg);
                    assert(v@ =~= Seq::<Peg>::empty().push(peg));
                }
                self.related = Some(v);
            },
        }
        proof {
            assert(self.uses() =~= old(self).uses().add(pu));
        }
    }

    /// One more handle on the same slot, holding one more handle on each related peg
    /// in turn.
    pub fn share(&self, table: &mut PegTable) -> (r: Peg)
        requires
            old(table)@.can_share(self.uses()),
        ensures
            final(table)@ == old(table)@.shared(self.uses()),
            r.slot() == self.slot(),
            r.uses() == self.uses(),
        decreases self,
    {
        let ghost t0 = table@;
        let ghost own = match self.slot {
            Some(d) => Multiset::singleton(d as int),
            None => Multiset::<int>::empty(),
        };
        proof {
            t0.lemma_shared_empty();
        }
        if let Some(d) = self.slot {
            proof {
                assert(self.uses().count(d as int) > 0);
            }
            table.add_handle(d);
        }
        let related = match &self.related {
            None => None,
            Some(v) => {
                let mut out: Vec<Peg> = Vec::new();
                let mut i: usize = 0;
                proof {
                    assert(v@.take(0) =~= Seq::<Peg>::empty());
                    assert(own.add(Self::uses_all(Seq::<Peg>::empty())) =~= own);
                }
                while i < v.len()
                    invariant
                        self.related == Some(*v),
                        0 <= i <= v.len(),
                        self.uses() == own.add(Self::uses_all(v@)),
                        t0.can_share(self.uses()),
                        table@ == t0.shared(own.add(Self::uses_all(v@.take(i as int)))),
                        Self::uses_all(out@) == Self::uses_all(v@.take(i as int)),
                    decreases v.len() - i,
                {
                    let ghost done = own.add(Self::uses_all(v@.take(i as int)));
                    proof {
                        assert(decreases_to!(*self => self.related));
                        assert(decreases_to!(self.related => self.related->0));
                        assert(decreases_to!(*v => v@));
                        assert(decreases_to!(v@ => v@[i as int]));
                        Self::lemma_uses_all_take(v@, i as int);
                        assert(done.add(v@[i as int].uses()) =~= own.add(Self::uses_all(v@.take(i + 1))));
                        assert forall|d: int| #[trigger] done.add(v@[i as int].uses()).count(d) <= self.uses().count(d) by {
                            Self::lemma_uses_all_prefix(v@, i + 1, d);
                        }
                        assert(t0.can_share(done.add(v@[i as int].uses())));
                        t0.lemma_shared_compose(done, v@[i as int].uses());
                    }
                    let c = v[i].share(table);
                    proof {
                        Self::lemma_uses_all_push(out@, c);
                    }
                    out.push(c);
                    i += 1;
                }
                proof {
                    assert(v@.take(v.len() as int) =~= v@);
                }
                Some(out)
            },
        };
        let r = Peg { slot: self.slot, related };
        proof {
            assert(r.uses() =~= self.uses());
            if self.related is None {
                assert(own =~= self.uses());
            }
        }
        r
    }

    /// Drops this handle: the slot loses it, running its destructor if it was the
    /// last handle, and each related peg is released in the same way.
    pub fn release(self, table: &mut PegTable)
        requires
            old(table)@.holds(self.uses()),
        ensures
            final(table)@ == old(table)@.released(self.uses()),
        decreases self,
    {
        let ghost t0 = table@;
        let ghost total = self.uses();
        let ghost own = match self.slot {
            Some(d) => Multiset::singleton(d as int),
            None => Multiset::<int>::empty(),
        };
        let ghost whole = self;
        proof {
            t0.lemma_released_empty();
        }
        if let Some(d) = self.slot {
            proof {
                assert(total.count(d as int) > 0);
            }
            table.drop_handle(d);
        }
        let Peg { slot, related } = self;
        match related {
            None => {
                proof {
                    assert(own =~= total);
                }
            },
            Some(mut v) => {
                let ghost orig = v@;
                let ghost mut done = own;
                proof {
                    assert(total == own.add(Self::uses_all(orig)));
                    assert(t0.holds(own.add(Self::uses_all(v@))));
                }
                while v.len() > 0
                    invariant
                        whole == self,
                        whole.related is Some && whole.related->0@ == orig,
                        v@ == orig.take(v.len() as int),
                        v.len() <= orig.len(),
                        t0.holds(total),
                        total == done.add(Self::uses_all(v@)),
                        table@ == t0.released(done),
                    decreases v.len(),
                {
                    let ghost before = v@;
                    let p = v.pop().unwrap();
                    proof {
                        assert(before =~= v@.push(p));
                        Self::lemma_uses_all_push(v@, p);
                        assert(decreases_to!(whole => whole.related));
                        assert(decreases_to!(whole.related => whole.related->0));
                        assert(decreases_to!(whole.related->0 => orig));
                        assert(p == orig[v.len() as int]);
                        assert(decreases_to!(orig => orig[v.len() as int]));
                        assert(decreases_to!(self => p));
                        assert forall|d: int| #[trigger] done.add(p.uses()).count(d) > 0 implies
                            done.add(p.uses()).count(d) <= total.count(d) by {}
                        assert(t0.holds(done.add(p.uses())));
                        t0.lemma_released_compose(done, p.uses());
                        assert(v@ == orig.take(v.len() as int));
                    }
                    p.release(table);
                    proof {
                        assert(total =~= done.add(p.uses()).add(Self::uses_all(v@)));
                        done = done.add(p.uses());
                    }
                }
                proof {
                    assert(Self::uses_all(v@) =~= Multiset::empty());
                    assert(total =~= done);
                }
            },
        }
    }

    /// Throws the destructor away without running it: the pegged value stays.
    pub fn keep_mode(&self, table: &mut PegTable)
        ensures
            final(table)@ == old(table)@.detached(self.slot()),
    {
        if let Some(d) = self.slot {
            if d < table.slot_count() {
                table.detach(d);
            }
        }
    }

    /// Keeps the slot until unpegged: releasing its handles, the last one included,
    /// no longer clears the pegged value, but [`Peg::unpeg`] still does.
    pub fn keep_until_unpeg(&self, table: &mut PegTable)
        ensures
            final(table)@ == old(table)@.kept_until_unpeg(self.slot()),
    {
        if let Some(d) = self.slot {
            if d < table.slot_count() {
                table.keep(d);
            }
        }
    }

    /// Runs the destructor, if it is still there: the pegged value goes.
    pub fn unpeg(&self, table: &mut PegTable)
        ensures
            final(table)@ == old(table)@.unpegged(self.slot()),
    {
        if let Some(d) = self.slot {
            if d < table.slot_count() {
                table.run_destructor(d);
            }
        }
    }
}

/// Releasing a handle made by `share` puts the table back as it was before the
/// share: the handle it was made from still holds every slot, so no destructor runs.
pub proof fn lemma_release_undoes_share(t: PegTableView, m: Multiset<int>)
    requires
        t.holds(m),
        t.can_share(m),
    ensures
        t.shared(m).released(m) == t,
{
    let s = t.shared(m);
    assert forall|d: int| 0 <= d < t.slots.len() implies !#[trigger] s.runs_destructor(m, d) by {}
    assert forall|k: int| 0 <= k < t.cells.len() implies !#[trigger] s.cleared(m, k) by {
        if s.cleared(m, k) {
            let d = choose|d: int|
                0 <= d < s.slots.len() && #[trigger] s.runs_destructor(m, d) && s.targets(d, k);
        }
    }
    assert forall|d: int| 0 <= d < t.slots.len() implies #[trigger] s.released(m).slots[d] == t.slots[d] by {
        if m.count(d) > 0 {
            assert(t.slots[d].handles + m.count(d) <= u64::MAX);
        }
    }
    assert(s.released(m).slots =~= t.slots);
    assert(s.released(m).cells =~= t.cells);
}

/// Releasing the last handle of a slot whose destructor is still attached, and not
/// kept until unpegged, clears the value it pegs.
pub proof fn lemma_last_release_clears(t: PegTableView, d: int, k: int)
    requires
        0 <= d < t.slots.len(),
        0 <= k < t.cells.len(),
        t.targets(d, k),
        t.slots[d].handles == 1,
        !t.slots[d].kept,
    ensures
        !t.released(Multiset::singleton(d)).is_pegged(k),
{
    assert(t.runs_destructor(Multiset::singleton(d), d));
    assert(t.cleared(Multiset::singleton(d), k));
}

/// With two handles on a slot, releasing one keeps the pegged value; releasing the
/// other, the last, clears it.
pub proof fn lemma_release_keeps_until_last(t: PegTableView, d: int, k: int)
    requires
        t.wf(),
        0 <= d < t.slots.len(),
        t.targets(d, k),
        t.is_pegged(k),
        t.slots[d].handles == 2,
        !t.slots[d].kept,
    ensures
        t.released(Multiset::singleton(d)).is_pegged(k),
        t.released(Multiset::singleton(d)).slots[d].handles == 1,
        !t.released(Multiset::singleton(d)).released(Multiset::singleton(d)).is_pegged(k),
{
    let m = Multiset::singleton(d);
    let t1 = t.released(m);
    if t.cleared(m, k) {
        let e = choose|e: int| 0 <= e < t.slots.len() && #[trigger] t.runs_destructor(m, e) && t.targets(e, k);
        assert(m.count(e) > 0);
    }
    lemma_last_release_clears(t1, d, k);
}

/// After `keep_mode`, neither unpegging, nor releasing any handles, nor a second
/// `keep_mode` clears the value that the slot's destructor used to clear.
pub proof fn lemma_keep_mode_keeps_value(t: PegTableView, d: usize, k: int, m: Multiset<int>)
    requires
        t.wf(),
        d < t.slots.len(),
        0 <= k < t.cells.len(),
        t.targets(d as int, k),
    ensures
        t.detached(Some(d)).cells == t.cells,
        t.detached(Some(d)).detached(Some(d)) == t.detached(Some(d)),
        t.detached(Some(d)).unpegged(Some(d)).cells[k] == t.cells[k],
        t.detached(Some(d)).released(m).cells[k] == t.cells[k],
{
    let u = t.detached(Some(d));
    if u.cleared(m, k) {
        let e = choose|e: int| 0 <= e < u.slots.len() && #[trigger] u.runs_destructor(m, e) && u.targets(e, k);
        assert(t.targets(e, k));
        assert(t.slots[e] == t.slots[d as int]);
    }
    assert(u.detached(Some(d)).slots =~= u.slots);
}

/// A slot kept until unpegged survives the release of any handles, its last one
/// included: its value stays, and unpegging it afterwards still clears the value.
pub proof fn lemma_kept_until_unpeg(t: PegTableView, d: usize, k: int, m: Multiset<int>)
    requires
        t.wf(),
        d < t.slots.len(),
        0 <= k < t.cells.len(),
        t.targets(d as int, k),
    ensures
        t.kept_until_unpeg(Some(d)).released(m).cells[k] == t.cells[k],
        !t.kept_until_unpeg(Some(d)).released(m).unpegged(Some(d)).is_pegged(k),
        !t.kept_until_unpeg(Some(d)).unpegged(Some(d)).is_pegged(k),
{
    let u = t.kept_until_unpeg(Some(d));
    if u.cleared(m, k) {
        let e = choose|e: int| 0 <= e < u.slots.len() && #[trigger] u.runs_destructor(m, e) && u.targets(e, k);
        assert(t.targets(e, k));
        assert(t.slots[e] == t.slots[d as int]);
    }
    assert(!u.runs_destructor(m, d as int));
    assert(u.released(m).slots[d as int].target == Some(k as usize));
}

/// Unpegging clears the value of its own slot and no other.
pub proof fn lemma_unpeg_clears_only_its_cell(t: PegTableView, d: usize, k: int, c: int)
    requires
        t.wf(),
        d < t.slots.len(),
        t.targets(d as int, k),
    ensures
        !t.unpegged(Some(d)).is_pegged(k),
        c != k ==> t.unpegged(Some(d)).is_pegged(c) == t.is_pegged(c),
{
}

/// No table operation puts a cleared value back: a cell of the table that no longer
/// holds its value never holds it again, whatever is released, shared, detached,
/// kept, unpegged or newly pegged.
pub proof fn lemma_cleared_stays_cleared(t: PegTableView, k: int, m: Multiset<int>, slot: Option<usize>)
    requires
        0 <= k < t.cells.len(),
        !t.cells[k],
    ensures
        !t.released(m).is_pegged(k),
        !t.shared(m).is_pegged(k),
        !t.detached(slot).is_pegged(k),
        !t.kept_until_unpeg(slot).is_pegged(k),
        !t.unpegged(slot).is_pegged(k),
        !t.cells.push(true)[k],
{
}

/// Unpegging twice does no more than unpegging once.
pub proof fn lemma_unpeg_idempotent(t: PegTableView, slot: Option<usize>)
    ensures
        t.unpegged(slot).unpegged(slot) == t.unpegged(slot),
{
}

/// Once the destructor is thrown away, unpegging does nothing, and throwing it away
/// again changes nothing.
pub proof fn lemma_unpeg_after_keep_mode(t: PegTableView, slot: Option<usize>)
    ensures
        t.detached(slot).unpegged(slot) == t.detached(slot),
        t.detached(slot).detached(slot) == t.detached(slot),
{
    if let Some(d) = slot {
        if d < t.slots.len() {
            assert(t.detached(slot).detached(slot).slots =~= t.detached(slot).slots);
        }
    }
}

} // verus!
