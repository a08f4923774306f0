//! Combining streams: the combined stream emits the latest value of every input each
//! time one of them emits, once every input has emitted; it ends when the last input
//! ends. This is the decision taken at each event of an input, on plain state.
use vstd::prelude::*;

verus! {

/// What the combined stream does after an event of one input.
#[derive(PartialEq, Eq, Debug)]
pub enum Combined<T> {
    /// Nothing, yet.
    Nothing,
    /// Emit the latest value of every input, in the order of the inputs.
    Emit(Vec<T>),
    /// End: the last input has ended.
    End,
}

/// The latest value of each input, and how many inputs still run.
pub struct Combine<T> {
    last: Vec<Option<T>>,
    alive: usize,
}

/// What a [`Combine`] holds.
pub struct CombineView<T> {
    pub last: Seq<Option<T>>,
    pub alive: nat,
}

impl<T> View for Combine<T> {
    type V = CombineView<T>;

    closed spec fn view(&self) -> CombineView<T> {
        CombineView { last: self.last@, alive: self.alive as nat }
    }
}

/// Every input has a value.
pub open spec fn all_present<T>(s: Seq<Option<T>>) -> bool {
    forall|i: int| 0 <= i < s.len() ==> #[trigger] s[i] is Some
}

/// The values of the inputs, in order.
pub open spec fn present_values<T>(s: Seq<Option<T>>) -> Seq<T> {
    s.map_values(|o: Option<T>| o->0)
}

impl<T: Copy> Combine<T> {
    /// The state for `n` running inputs, none of which has emitted.
    pub fn new(n: usize) -> (r: Combine<T>)
        ensures
            r@.last == Seq::new(n as nat, |i: int| None::<T>),
            r@.alive == n,
    {
        let mut last: Vec<Option<T>> = Vec::new();
        let mut i: usize = 0;
        while i < n
            invariant
                0 <= i <= n,
                last@ == Seq::new(i as nat, |k: int| None::<T>),
            decreases n - i,
        {
            last.push(None);
            proof {
                assert(last@ =~= Seq::new((i + 1) as nat, |k: int| None::<T>));
            }
            i += 1;
        }
        Combine { last, alive: n }
    }

    /// Input `input` takes the event `t` (`None` is its end). A value is remembered as
    /// the input's latest, and the combined stream emits the latest values of all
    /// inputs once every input has one. An end counts one input down; when it was the
    /// last running input, the combined stream ends.
    pub fn step(&mut self, input: usize, t: Option<T>) -> (r: Combined<T>)
        requires
            input < old(self)@.last.len(),
        ensures
            t is Some ==> {
                &&& final(self)@.last == old(self)@.last.update(input as int, t)
                &&& final(self)@.alive == old(self)@.alive
                &&& (r is Emit <==> all_present(final(self)@.last))
                &&& r !is End
                &&& r matches Combined::Emit(vs) ==> vs@ == present_values(final(self)@.last)
            },
            t is None ==> {
                &&& final(self)@.last == old(self)@.last
                &&& final(self)@.alive == if old(self)@.alive > 0 {
                    (old(self)@.alive - 1) as nat
                } else {
                    0
                }
                &&& r == if old(self)@.alive == 1 {
                    Combined::<T>::End
                } else {
                    Combined::<T>::Nothing
                }
            },
    {
        match t {
            None => {
                if self.alive > 0 {
                    self.alive = self.alive - 1;
                    if self.alive == 0 {
                        return Combined::End;
                    }
                }
                Combined::Nothing
            },
            Some(v) => {
                self.last.set(input, Some(v));
                let mut out: Vec<T> = Vec::new();
                let mut i: usize = 0;
                while i < self.last.len()
                    invariant
                        t == Some(v),
                        input < old(self)@.last.len(),
                        self@.last == old(self)@.last.update(input as int, t),
                        self@.alive == old(self)@.alive,
                        0 <= i <= self.last@.len(),
                        forall|k: int| 0 <= k < i ==> #[trigger] self.last@[k] is Some,
                        out@ == present_values(self.last@.take(i as int)),
                    decreases self.last@.len() - i,
                {
                    match self.last[i] {
                        Some(x) => {
                            proof {
                                assert(present_values(self.last@.take(i + 1)) =~= out@.push(x));
                            }
                            out.push(x);
                        },
                        None => {
                            return Combined::Nothing;
                        },
                    }
                    i += 1;
                }
                proof {
                    assert(self.last@.take(self.last@.len() as int) =~= self.last@);
                }
                Combined::Emit(out)
            },
        }
    }
}

/// Once every input has a value, each further value of any input makes the combined
/// stream emit; before that, no value does.
pub proof fn lemma_emits_once_all_present<T>(last: Seq<Option<T>>, input: int, v: T)
    requires
        0 <= input < last.len(),
    ensures
        all_present(last) ==> all_present(last.update(input, Some(v))),
        (exists|i: int| 0 <= i < last.len() && i != input && #[trigger] last[i] is None)
            ==> !all_present(last.update(input, Some(v))),
{
    if exists|i: int| 0 <= i < last.len() && i != input && #[trigger] last[i] is None {
        let i = choose|i: int| 0 <= i < last.len() && i != input && #[trigger] last[i] is None;
        assert(last.update(input, Some(v))[i] is None);
    }
}

} // verus!
