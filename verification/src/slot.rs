//! A single reclaimable storage cell with lock-free load and swap.
//!
//! A slot always holds exactly one live value — it is constructed populated
//! and mutated only by exchanging the whole value. The value dislodged by a
//! swap is handed to the caller, who must retire it through the collector.
//! Every replacement is recorded in the slot's ghost history, so all
//! observations are consistent with one total order of the swaps.

use vstd::prelude::*;

verus! {

use crate::collector::Collector;
use crate::collector::Deferred;
use crate::collector::Guard;
use crate::collector::RetireRecord;

/// A single reclaimable storage cell. Never empty after construction.
pub struct Slot<T> {
    value: T,
    hist: Ghost<Seq<T>>,
}

impl<T> Slot<T> {
    /// Every value this slot has ever held, oldest first; the last entry is
    /// the value currently stored.
    pub closed spec fn history(&self) -> Seq<T> {
        self.hist@
    }

    /// The value currently stored.
    pub closed spec fn current(&self) -> T {
        self.value
    }

    /// A slot is well formed when it has held at least its initial value and
    /// the stored value is the latest entry of its history.
    pub open spec fn wf(&self) -> bool {
        &&& self.history().len() >= 1
        &&& self.history().last() == self.current()
    }

    /// Creates a slot populated with `v`.
    pub fn new(v: T) -> (s: Slot<T>)
        ensures
            s.wf(),
            s.history() == seq![v],
    {
        let ghost h = seq![v];
        Slot { value: v, hist: Ghost(h) }
    }

    /// Reads the currently stored value. Requires a live guard of the
    /// governing collector: while that guard is held, the observed value
    /// cannot be reclaimed even if it is concurrently dislodged.
    pub fn load<'a>(&'a self, g: &Guard, c: &Collector<T>) -> (r: &'a T)
        requires
            self.wf(),
            c.wf(),
            c.guard_live(g),
        ensures
            *r == self.current(),
            *r == self.history().last(),
    {
        &self.value
    }

    /// Exchanges the stored value for `v`, returning the dislodged value.
    /// Ownership of the dislodged value passes to the caller, who must retire
    /// it (failing to is a leak, not a crash). All replacements of one slot
    /// form a single total order: each swap extends the history by exactly
    /// one entry.
    pub fn swap(&mut self, v: T, g: &Guard, c: &Collector<T>) -> (prev: T)
        requires
            old(self).wf(),
            c.wf(),
            c.guard_live(g),
        ensures
            final(self).wf(),
            prev == old(self).current(),
            prev == old(self).history().last(),
            final(self).current() == v,
            final(self).history() == old(self).history().push(v),
    {
        let mut v = v;
        core::mem::swap(&mut self.value, &mut v);
        proof {
            self.hist@ = self.hist@.push(self.value);
        }
        v
    }

    /// Unconditionally replaces the stored value, retiring the dislodged
    /// value into the collector on the caller's behalf.
    pub fn store(&mut self, v: T, g: &Guard, c: &mut Collector<T>)
        requires
            old(self).wf(),
            old(c).wf(),
            old(c).guard_live(g),
        ensures
            final(self).wf(),
            final(c).wf(),
            final(c).guard_live(g),
            final(self).current() == v,
            final(self).history() == old(self).history().push(v),
            final(c)@.retired == old(c)@.retired.push(
                RetireRecord {
                    act: Deferred::Destroy(old(self).history().last()),
                    deferred_at: old(c)@.epoch,
                },
            ),
            final(c)@.pending == old(c)@.pending.insert(
                Deferred::Destroy(old(self).history().last()),
            ),
            final(c)@.epoch == old(c)@.epoch,
            final(c)@.pins == old(c)@.pins,
            final(c)@.executed == old(c)@.executed,
            final(c)@.threshold == old(c)@.threshold,
    {
        let prev = self.swap(v, g, c);
        c.defer_destroy(g, prev);
    }
}

/// One step in a single slot's lifetime, for stating ordering laws over whole
/// operation sequences.
pub enum SlotOp<T> {
    /// A swap that installed the carried value.
    Swap(T),
    /// A load observing the value current at that moment.
    Load,
}

/// The slot history after running `ops` against a slot whose history starts
/// as `h0`: each swap appends its value, a load changes nothing — exactly the
/// contracts of [`Slot::swap`] and [`Slot::load`].
pub open spec fn hist_after<T>(h0: Seq<T>, ops: Seq<SlotOp<T>>) -> Seq<T>
    decreases ops.len(),
{
    if ops.len() == 0 {
        h0
    } else {
        let h = hist_after(h0, ops.drop_last());
        match ops.last() {
            SlotOp::Swap(v) => h.push(v),
            SlotOp::Load => h,
        }
    }
}

/// The observations the loads in `ops` make, in order: each entry pairs the
/// observed value with its position in the history at the moment of the load.
pub open spec fn observations<T>(h0: Seq<T>, ops: Seq<SlotOp<T>>) -> Seq<(T, int)>
    decreases ops.len(),
{
    if ops.len() == 0 {
        Seq::empty()
    } else {
        let h = hist_after(h0, ops.drop_last());
        let o = observations(h0, ops.drop_last());
        match ops.last() {
            SlotOp::Swap(v) => o,
            SlotOp::Load => o.push((h.last(), h.len() - 1)),
        }
    }
}

/// Total order per slot. For any sequence of loads and swaps against one
/// slot, every observed value sits at a fixed position of the final history —
/// the single total order of all replacements — and successive loads observe
/// positions that never move backwards: no value reappears out of order.
pub proof fn lemma_total_order_per_slot<T>(h0: Seq<T>, ops: Seq<SlotOp<T>>)
    requires
        h0.len() >= 1,
    ensures
        hist_after(h0, ops).len() >= h0.len(),
        forall|i: int|
            0 <= i < observations(h0, ops).len() ==> 0 <= (
            #[trigger] observations(h0, ops)[i]).1 < hist_after(h0, ops).len(),
        forall|i: int|
            0 <= i < observations(h0, ops).len() ==> hist_after(h0, ops)[(
            #[trigger] observations(h0, ops)[i]).1] == observations(h0, ops)[i].0,
        forall|i: int, j: int|
            0 <= i <= j < observations(h0, ops).len() ==> (#[trigger] observations(h0, ops)[i]).1
                <= (#[trigger] observations(h0, ops)[j]).1,
    decreases ops.len(),
{
    if ops.len() > 0 {
        let prev_ops = ops.drop_last();
        lemma_total_order_per_slot(h0, prev_ops);
        let h = hist_after(h0, prev_ops);
        let o = observations(h0, prev_ops);
        match ops.last() {
            SlotOp::Swap(v) => {
                assert(hist_after(h0, ops) == h.push(v));
                assert(observations(h0, ops) == o);
                assert forall|i: int|
                    0 <= i < o.len() implies hist_after(h0, ops)[(#[trigger] o[i]).1]
                    == o[i].0 by {
                    assert(h.push(v)[o[i].1] == h[o[i].1]);
                }
            },
            SlotOp::Load => {
                assert(hist_after(h0, ops) == h);
                assert(observations(h0, ops) == o.push((h.last(), h.len() - 1)));
            },
        }
    }
}

} // verus!
