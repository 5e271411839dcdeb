//! An indexed container of reclaimable slots.
//!
//! A `Cage` owns a fixed number of [`Slot`]s, each populated at construction.
//! `access` and `replace` are the uniform, bounds-checked operations: they pin
//! a fresh guard, perform the read or the exchange, retire what was dislodged
//! and release the pin. An out-of-range index is reported immediately and
//! never corrupts any slot. Callers that need to hold a guard across several
//! operations use [`Cage::load`] and [`Cage::swap`] with a guard of their own.

use vstd::prelude::*;

verus! {

use vstd::multiset::Multiset;

use crate::collector::Collector;
use crate::collector::Deferred;
use crate::collector::Guard;
use crate::collector::RetireRecord;
use crate::collector::acts_of_executed;
use crate::slot::Slot;

broadcast use vstd::seq_lib::group_to_multiset_ensures, vstd::multiset::group_multiset_axioms;

/// The failure an out-of-range index produces.
#[derive(Clone, Copy, Debug, PartialEq, Eq, Structural)]
pub enum CageError {
    /// The requested index is not below the container's size.
    IndexOutOfBounds,
}

/// A fixed-size indexed collection of reclaimable slots.
pub struct Cage<T> {
    slots: Vec<Slot<T>>,
}

impl<T> Cage<T> {
    /// The slots this cage owns, in index order.
    pub closed spec fn slots_view(&self) -> Seq<Slot<T>> {
        self.slots@
    }

    /// The number of slots.
    pub open spec fn spec_len(&self) -> int {
        self.slots_view().len() as int
    }

    /// Every slot is well formed.
    pub open spec fn wf(&self) -> bool {
        forall|i: int| 0 <= i < self.spec_len() ==> (#[trigger] self.slots_view()[i]).wf()
    }

    /// Builds a cage with one slot per initial value; slot `i` starts
    /// populated with `init[i]`.
    pub fn new(init: Vec<T>) -> (cage: Cage<T>)
        ensures
            cage.wf(),
            cage.spec_len() == init@.len(),
            forall|i: int|
                0 <= i < init@.len() ==> (#[trigger] cage.slots_view()[i]).history() == seq![
                    init@[i],
                ],
    {
        let ghost init0 = init@;
        let mut init = init;
        let mut slots: Vec<Slot<T>> = Vec::new();
        while init.len() > 0
            invariant
                slots@.len() + init@.len() == init0.len(),
                init@ == init0.skip(slots@.len() as int),
                forall|i: int|
                    0 <= i < slots@.len() ==> (#[trigger] slots@[i]).wf() && slots@[i].history()
                        == seq![init0[i]],
            decreases init@.len(),
        {
            let ghost done = slots@.len() as int;
            let v = init.remove(0);
            proof {
                assert(v == init0.skip(done)[0]);
                assert(init0.skip(done)[0] == init0[done]);
                assert(init0.skip(done).remove(0) =~= init0.skip(done + 1));
            }
            slots.push(Slot::new(v));
        }
        Cage { slots }
    }

    /// The number of slots.
    pub fn len(&self) -> (n: usize)
        ensures
            n == self.spec_len(),
    {
        self.slots.len()
    }

    /// Reads slot `n` under a guard the caller already holds.
    pub fn load<'a>(&'a self, n: usize, g: &Guard, c: &Collector<T>) -> (r: &'a T)
        requires
            self.wf(),
            c.wf(),
            c.guard_live(g),
            n < self.spec_len(),
        ensures
            *r == self.slots_view()[n as int].history().last(),
    {
        self.slots[n].load(g, c)
    }

    /// Exchanges the value of slot `n` under a guard the caller already
    /// holds, returning the dislodged value; the caller must retire it.
    pub fn swap(&mut self, n: usize, v: T, g: &Guard, c: &Collector<T>) -> (prev: T)
        requires
            old(self).wf(),
            c.wf(),
            c.guard_live(g),
            n < old(self).spec_len(),
        ensures
            final(self).wf(),
            final(self).spec_len() == old(self).spec_len(),
            prev == old(self).slots_view()[n as int].history().last(),
            final(self).slots_view()[n as int].history() == old(self).slots_view()[n as int]
                .history().push(v),
            forall|m: int|
                0 <= m < old(self).spec_len() && m != n ==> final(self).slots_view()[m] == old(
                    self,
                ).slots_view()[m],
    {
        self.slots[n].swap(v, g, c)
    }

    /// Pins, reads slot `n`, and releases the pin. An out-of-range index
    /// fails immediately and changes nothing.
    pub fn access<'a>(&'a self, n: usize, c: &mut Collector<T>) -> (r: Result<&'a T, CageError>)
        requires
            self.wf(),
            old(c).wf(),
        ensures
            final(c).wf(),
            (n < self.spec_len()) <==> r is Ok,
            r is Ok ==> *r->Ok_0 == self.slots_view()[n as int].history().last(),
            r is Err ==> r->Err_0 == CageError::IndexOutOfBounds,
            n < self.spec_len() ==> final(c)@.pins == old(c)@.pins.push(None),
            n >= self.spec_len() ==> final(c)@.pins == old(c)@.pins,
            final(c)@.epoch == old(c)@.epoch,
            final(c)@.pending == old(c)@.pending,
            final(c)@.retired == old(c)@.retired,
            final(c)@.executed == old(c)@.executed,
            final(c)@.threshold == old(c)@.threshold,
    {
        if n >= self.slots.len() {
            return Err(CageError::IndexOutOfBounds);
        }
        let g = c.pin();
        let ghost gid = g.gid();
        let r = self.slots[n].load(&g, c);
        c.unpin(g);
        proof {
            assert(old(c)@.pins.push(Some(old(c)@.epoch)).update(gid, None) =~= old(
                c,
            )@.pins.push(None));
        }
        Ok(r)
    }

    /// Pins, swaps `v` into slot `n`, retires the dislodged value, runs a
    /// collection pass if garbage has crossed the drain threshold, and
    /// releases the pin. The returned actions are the ones whose grace period
    /// has passed; the caller executes them. An out-of-range index fails
    /// immediately and changes nothing.
    pub fn replace(&mut self, n: usize, v: T, c: &mut Collector<T>) -> (r: Result<
        Vec<Deferred<T>>,
        CageError,
    >)
        requires
            old(self).wf(),
            old(c).wf(),
        ensures
            final(self).wf(),
            final(c).wf(),
            (n < old(self).spec_len()) <==> r is Ok,
            r is Err ==> *final(self) == *old(self) && *final(c) == *old(c) && r->Err_0
                == CageError::IndexOutOfBounds,
            r is Ok ==> {
                &&& final(self).spec_len() == old(self).spec_len()
                &&& final(self).slots_view()[n as int].history() == old(self).slots_view()[n as int]
                    .history().push(v)
                &&& forall|m: int|
                    0 <= m < old(self).spec_len() && m != n ==> final(self).slots_view()[m] == old(
                        self,
                    ).slots_view()[m]
                &&& final(c)@.retired == old(c)@.retired.push(
                    RetireRecord {
                        act: Deferred::Destroy(
                            old(self).slots_view()[n as int].history().last(),
                        ),
                        deferred_at: old(c)@.epoch,
                    },
                )
                &&& final(c)@.pins == old(c)@.pins.push(None)
                &&& old(c)@.epoch <= final(c)@.epoch <= old(c)@.epoch + 1
                &&& final(c)@.threshold == old(c)@.threshold
                &&& acts_of_executed(final(c)@.executed) == acts_of_executed(old(c)@.executed)
                    + r->Ok_0@
                &&& old(c)@.pending.insert(
                    Deferred::Destroy(old(self).slots_view()[n as int].history().last()),
                ) == final(c)@.pending.add(r->Ok_0@.to_multiset())
            },
    {
        if n >= self.slots.len() {
            return Err(CageError::IndexOutOfBounds);
        }
        let g = c.pin();
        let ghost gid = g.gid();
        let prev = self.slots[n].swap(v, &g, c);
        c.defer_destroy(&g, prev);
        let drained = if c.over_threshold() {
            c.flush(&g)
        } else {
            Vec::new()
        };
        c.unpin(g);
        proof {
            assert(old(c)@.pins.push(Some(old(c)@.epoch)).update(gid, None) =~= old(
                c,
            )@.pins.push(None));
            assert(acts_of_executed(c@.executed) == acts_of_executed(old(c)@.executed)
                + drained@) by {
                assert(acts_of_executed(old(c)@.executed) + Seq::<Deferred<T>>::empty()
                    =~= acts_of_executed(old(c)@.executed));
            }
            assert(Seq::<Deferred<T>>::empty().to_multiset() =~= Multiset::<Deferred<T>>::empty());
            assert(c@.pending.add(Multiset::<Deferred<T>>::empty()) =~= c@.pending);
        }
        Ok(drained)
    }
}

} // verus!
