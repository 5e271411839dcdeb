//! The reclamation context: epoch counter, pin registry and garbage bags.
//!
//! A `Collector` is an explicit, constructible context object; independent
//! collectors are fully isolated from one another. Participants `pin`
//! themselves to obtain a [`Guard`], retire cleanup actions through
//! [`Collector::defer`], and the collector hands actions back for execution
//! only once the global epoch has advanced at least twice past the phase under
//! which they were retired. That grace period is what makes it impossible for
//! a retired value to be destroyed while a guard that could still observe it
//! is alive.

use vstd::prelude::*;

verus! {

use vstd::multiset::Multiset;

broadcast use vstd::seq_lib::group_to_multiset_ensures, vstd::multiset::group_multiset_axioms;

/// A cleanup action awaiting safe execution.
///
/// Retirement queues one of these in a garbage bag; draining hands it back to
/// the caller, who either destroys the carried value or delivers the callback
/// payload to whoever deferred it.
pub enum Deferred<T> {
    /// Destroy the carried value.
    Destroy(T),
    /// Deliver a structured notification identified by the payload.
    Callback(u64),
}

/// Ghost record of one retirement: the action and the epoch current when it
/// was deferred.
pub struct RetireRecord<T> {
    /// The queued action.
    pub act: Deferred<T>,
    /// The global epoch at the moment the action was deferred.
    pub deferred_at: u64,
}

/// Ghost record of one executed action: when it was deferred and when it was
/// handed back for execution.
pub struct ExecRecord<T> {
    /// The action that was handed back.
    pub act: Deferred<T>,
    /// The global epoch at the moment the action was deferred.
    pub deferred_at: u64,
    /// The global epoch at the moment the action was drained.
    pub executed_at: u64,
}

/// The actions of a sequence of retire records, in retirement order.
pub open spec fn acts_of_retired<T>(rs: Seq<RetireRecord<T>>) -> Seq<Deferred<T>> {
    rs.map_values(|r: RetireRecord<T>| r.act)
}

/// The actions of a sequence of execution records, in execution order.
pub open spec fn acts_of_executed<T>(es: Seq<ExecRecord<T>>) -> Seq<Deferred<T>> {
    es.map_values(|e: ExecRecord<T>| e.act)
}

/// A scoped token representing an active pin.
///
/// A guard records the epoch that was current when it was created; the record
/// never changes afterwards, even if the global epoch advances. While a guard
/// is registered, the global epoch can advance at most once past its recorded
/// epoch, which bounds how far reclamation can progress and keeps every value
/// the guard could have observed alive.
///
/// Guards cannot be copied or cloned; releasing one through
/// [`Collector::unpin`] consumes it.
pub struct Guard {
    id: usize,
    epoch: u64,
}

impl Guard {
    /// The registry index of this guard's pin record.
    pub closed spec fn gid(&self) -> int {
        self.id as int
    }

    /// The epoch recorded when this guard was created.
    pub closed spec fn pin_epoch(&self) -> u64 {
        self.epoch
    }
}

/// One per-epoch garbage bag: the actions deferred while `epoch` was current,
/// in the order they were deferred.
struct Bag<T> {
    epoch: u64,
    items: Vec<Deferred<T>>,
}

/// The abstract state of a [`Collector`], used by every contract.
pub struct CollectorModel<T> {
    /// The global epoch: monotonically non-decreasing; its three logical
    /// phases are its value taken modulo 3.
    pub epoch: u64,
    /// The pin registry: entry `i` holds the recorded epoch of the live guard
    /// with id `i`, or `None` once that guard has been released.
    pub pins: Seq<Option<u64>>,
    /// The actions currently queued in garbage bags, awaiting execution.
    pub pending: Multiset<Deferred<T>>,
    /// Every retirement ever made, in order.
    pub retired: Seq<RetireRecord<T>>,
    /// Every action ever handed back for execution, in order.
    pub executed: Seq<ExecRecord<T>>,
    /// Bag size past which container operations eagerly attempt a collection
    /// pass, bounding garbage growth under sustained load.
    pub threshold: usize,
}

/// An isolated epoch-based reclamation context.
pub struct Collector<T> {
    epoch: u64,
    pins: Vec<Option<u64>>,
    bags: Vec<Bag<T>>,
    threshold: usize,
    retired: Ghost<Seq<RetireRecord<T>>>,
    executed: Ghost<Seq<ExecRecord<T>>>,
}

/// The multiset of actions held by a sequence of bags.
spec fn pending_of<T>(bags: Seq<Bag<T>>) -> Multiset<Deferred<T>>
    decreases bags.len(),
{
    if bags.len() == 0 {
        Multiset::empty()
    } else {
        bags[0].items@.to_multiset().add(pending_of(bags.drop_first()))
    }
}

proof fn lemma_pending_of_push<T>(bags: Seq<Bag<T>>, b: Bag<T>)
    ensures
        pending_of(bags.push(b)) == pending_of(bags).add(b.items@.to_multiset()),
    decreases bags.len(),
{
    let pushed = bags.push(b);
    if bags.len() == 0 {
        assert(pushed[0] == b);
        assert(pushed.drop_first() =~= Seq::<Bag<T>>::empty());
        assert(pending_of(pushed.drop_first()) == Multiset::<Deferred<T>>::empty());
        assert(pending_of(pushed) == b.items@.to_multiset().add(
            Multiset::<Deferred<T>>::empty(),
        ));
        assert(pending_of(bags) == Multiset::<Deferred<T>>::empty());
        assert(b.items@.to_multiset().add(Multiset::<Deferred<T>>::empty())
            =~= Multiset::<Deferred<T>>::empty().add(b.items@.to_multiset()));
    } else {
        assert(pushed[0] == bags[0]);
        assert(pushed.drop_first() =~= bags.drop_first().push(b));
        lemma_pending_of_push(bags.drop_first(), b);
        assert(pending_of(pushed) == bags[0].items@.to_multiset().add(
            pending_of(bags.drop_first()).add(b.items@.to_multiset()),
        ));
        assert(pending_of(bags) == bags[0].items@.to_multiset().add(
            pending_of(bags.drop_first()),
        ));
        assert(bags[0].items@.to_multiset().add(
            pending_of(bags.drop_first()).add(b.items@.to_multiset()),
        ) =~= pending_of(bags).add(b.items@.to_multiset()));
    }
}

proof fn lemma_pending_of_remove<T>(bags: Seq<Bag<T>>, i: int)
    requires
        0 <= i < bags.len(),
    ensures
        pending_of(bags) == pending_of(bags.remove(i)).add(bags[i].items@.to_multiset()),
    decreases bags.len(),
{
    let removed = bags.remove(i);
    if i == 0 {
        assert(removed =~= bags.drop_first());
        assert(pending_of(bags) == bags[0].items@.to_multiset().add(
            pending_of(bags.drop_first()),
        ));
        assert(bags[0].items@.to_multiset().add(pending_of(removed)) =~= pending_of(
            removed,
        ).add(bags[0].items@.to_multiset()));
    } else {
        assert(removed[0] == bags[0]);
        assert(removed.drop_first() =~= bags.drop_first().remove(i - 1));
        lemma_pending_of_remove(bags.drop_first(), i - 1);
        assert(bags.drop_first()[i - 1] == bags[i]);
        assert(pending_of(removed) == bags[0].items@.to_multiset().add(
            pending_of(bags.drop_first().remove(i - 1)),
        ));
        assert(pending_of(bags) == bags[0].items@.to_multiset().add(
            pending_of(bags.drop_first().remove(i - 1)).add(bags[i].items@.to_multiset()),
        ));
        assert(bags[0].items@.to_multiset().add(
            pending_of(bags.drop_first().remove(i - 1)).add(bags[i].items@.to_multiset()),
        ) =~= pending_of(removed).add(bags[i].items@.to_multiset()));
    }
}

impl<T> Collector<T> {
    /// The abstract state this collector is in.
    pub closed spec fn view(&self) -> CollectorModel<T> {
        CollectorModel {
            epoch: self.epoch,
            pins: self.pins@,
            pending: pending_of(self.bags@),
            retired: self.retired@,
            executed: self.executed@,
            threshold: self.threshold,
        }
    }

    /// Internal consistency of a collector. Established by [`Collector::new`]
    /// and preserved by every operation.
    pub closed spec fn wf(&self) -> bool {
        &&& forall|i: int|
            0 <= i < self.bags@.len() ==> (#[trigger] self.bags@[i]).epoch <= self.epoch
        &&& forall|i: int|
            0 <= i < self.pins@.len() ==> ((#[trigger] self.pins@[i]) matches Some(e) ==> e
                <= self.epoch && self.epoch <= e + 1)
        &&& forall|i: int|
            0 <= i < self.executed@.len() ==> (#[trigger] self.executed@[i]).deferred_at + 2
                <= self.executed@[i].executed_at && self.executed@[i].executed_at <= self.epoch
        &&& forall|i: int|
            0 <= i < self.retired@.len() ==> (#[trigger] self.retired@[i]).deferred_at
                <= self.epoch
        &&& acts_of_retired(self.retired@).to_multiset() == acts_of_executed(
            self.executed@,
        ).to_multiset().add(pending_of(self.bags@))
    }

    /// Whether `g` is a live pin of this collector.
    pub open spec fn guard_live(&self, g: &Guard) -> bool {
        &&& 0 <= g.gid() < self@.pins.len()
        &&& self@.pins[g.gid()] == Some(g.pin_epoch())
    }

    /// Whether every live pin has caught up with the global epoch. This is
    /// exactly the condition under which an advance attempt succeeds.
    pub open spec fn all_pins_current(&self) -> bool {
        forall|i: int|
            0 <= i < self@.pins.len() ==> ((#[trigger] self@.pins[i]) matches Some(e) ==> e
                == self@.epoch)
    }

    /// Whether no guard of this collector is live.
    pub open spec fn no_live_pins(&self) -> bool {
        forall|i: int| 0 <= i < self@.pins.len() ==> (#[trigger] self@.pins[i]) is None
    }

    /// Whether every queued action is too recent to be executed yet. Holds
    /// after every collection pass: eligible bags never linger.
    pub closed spec fn no_stale_bags(&self) -> bool {
        forall|i: int|
            0 <= i < self.bags@.len() ==> (#[trigger] self.bags@[i]).epoch + 2 > self.epoch
    }

    /// Creates an empty collector at epoch 0 with the given drain threshold.
    pub fn new(threshold: usize) -> (c: Collector<T>)
        ensures
            c.wf(),
            c.no_stale_bags(),
            c@.epoch == 0,
            c@.pins == Seq::<Option<u64>>::empty(),
            c@.pending == Multiset::<Deferred<T>>::empty(),
            c@.retired == Seq::<RetireRecord<T>>::empty(),
            c@.executed == Seq::<ExecRecord<T>>::empty(),
            c@.threshold == threshold,
    {
        let c = Collector {
            epoch: 0,
            pins: Vec::new(),
            bags: Vec::new(),
            threshold,
            retired: Ghost(Seq::empty()),
            executed: Ghost(Seq::empty()),
        };
        proof {
            assert(acts_of_retired(c.retired@) =~= Seq::<Deferred<T>>::empty());
            assert(acts_of_executed(c.executed@) =~= Seq::<Deferred<T>>::empty());
            assert(acts_of_retired(c.retired@).to_multiset() =~= acts_of_executed(
                c.executed@,
            ).to_multiset().add(pending_of(c.bags@)));
        }
        c
    }

    /// The current global epoch.
    pub fn epoch(&self) -> (e: u64)
        ensures
            e == self@.epoch,
    {
        self.epoch
    }

    /// The current logical phase: the epoch taken modulo 3.
    pub fn current_phase(&self) -> (p: u64)
        ensures
            p == self@.epoch % 3,
    {
        self.epoch % 3
    }

    /// Registers the caller as pinned at the current global epoch.
    ///
    /// Always succeeds. The returned guard's recorded epoch never changes,
    /// even if the global epoch advances while the guard is held.
    pub fn pin(&mut self) -> (g: Guard)
        requires
            old(self).wf(),
        ensures
            final(self).wf(),
            final(self).guard_live(&g),
            g.pin_epoch() == old(self)@.epoch,
            g.gid() == old(self)@.pins.len(),
            final(self)@.pins == old(self)@.pins.push(Some(old(self)@.epoch)),
            final(self)@.epoch == old(self)@.epoch,
            final(self)@.pending == old(self)@.pending,
            final(self)@.retired == old(self)@.retired,
            final(self)@.executed == old(self)@.executed,
            final(self)@.threshold == old(self)@.threshold,
            old(self).no_stale_bags() ==> final(self).no_stale_bags(),
    {
        let id = self.pins.len();
        let epoch = self.epoch;
        self.pins.push(Some(epoch));
        Guard { id, epoch }
    }

    /// Releases a pin, clearing its registry entry. This may immediately
    /// unblock a later advance attempt. Consumes the guard; draining is not
    /// attempted here — reclamation stays opportunistic, driven by flushes or
    /// by the drain threshold.
    pub fn unpin(&mut self, g: Guard)
        requires
            old(self).wf(),
        ensures
            final(self).wf(),
            old(self).guard_live(&g) ==> final(self)@.pins == old(self)@.pins.update(
                g.gid(),
                None,
            ),
            !old(self).guard_live(&g) ==> final(self)@.pins == old(self)@.pins,
            final(self)@.epoch == old(self)@.epoch,
            final(self)@.pending == old(self)@.pending,
            final(self)@.retired == old(self)@.retired,
            final(self)@.executed == old(self)@.executed,
            final(self)@.threshold == old(self)@.threshold,
            old(self).no_stale_bags() ==> final(self).no_stale_bags(),
    {
        if g.id < self.pins.len() {
            let entry = self.pins[g.id];
            match entry {
                Some(e) => {
                    if e == g.epoch {
                        self.pins[g.id] = None;
                    }
                },
                None => {},
            }
        }
    }

    /// Queues a cleanup action on behalf of a live guard.
    ///
    /// The action is never executed synchronously: it is sealed into the
    /// garbage bag of the phase current at this moment and waits there. A
    /// guard's recorded epoch is never ahead of the global epoch, so sealing
    /// under the current phase is at least as late as the deferring guard's
    /// own pin phase; the two-advance grace period measured from this seal
    /// therefore outlives every guard that could still observe the value.
    pub fn defer(&mut self, g: &Guard, act: Deferred<T>)
        requires
            old(self).wf(),
            old(self).guard_live(g),
        ensures
            final(self).wf(),
            final(self).guard_live(g),
            g.pin_epoch() <= old(self)@.epoch,
            final(self)@.retired == old(self)@.retired.push(
                RetireRecord { act, deferred_at: old(self)@.epoch },
            ),
            final(self)@.pending == old(self)@.pending.insert(act),
            final(self)@.epoch == old(self)@.epoch,
            final(self)@.pins == old(self)@.pins,
            final(self)@.executed == old(self)@.executed,
            final(self)@.threshold == old(self)@.threshold,
            old(self).no_stale_bags() ==> final(self).no_stale_bags(),
    {
        let ghost a = act;
        let ghost bags0 = self.bags@;
        let n = self.bags.len();
        let joined = n > 0 && self.bags[n - 1].epoch == self.epoch;
        if joined {
            let mut bag = self.bags.pop().unwrap();
            let ghost old_bag = bag;
            bag.items.push(act);
            self.bags.push(bag);
            proof {
                assert(bags0.drop_last().push(old_bag) =~= bags0);
                lemma_pending_of_push(bags0.drop_last(), old_bag);
                lemma_pending_of_push(bags0.drop_last(), self.bags@.last());
                assert(self.bags@.last().items@ == old_bag.items@.push(a));
                assert(old_bag.items@.push(a).to_multiset() =~= old_bag.items@.to_multiset()
                    .insert(a));
                assert(pending_of(self.bags@) =~= pending_of(bags0).insert(a));
            }
        } else {
            let mut items: Vec<Deferred<T>> = Vec::new();
            items.push(act);
            let epoch = self.epoch;
            self.bags.push(Bag { epoch, items });
            proof {
                lemma_pending_of_push(bags0, self.bags@.last());
                assert(Seq::<Deferred<T>>::empty().to_multiset() =~= Multiset::<
                    Deferred<T>,
                >::empty());
                assert(self.bags@.last().items@ == Seq::<Deferred<T>>::empty().push(a));
                assert(self.bags@.last().items@.to_multiset() =~= Multiset::<
                    Deferred<T>,
                >::empty().insert(a));
                assert(pending_of(self.bags@) =~= pending_of(bags0).insert(a));
            }
        }
        proof {
            self.retired@ = self.retired@.push(RetireRecord { act: a, deferred_at: self.epoch });
            assert(acts_of_retired(self.retired@) =~= acts_of_retired(old(self).retired@).push(a));
            assert(acts_of_retired(self.retired@).to_multiset() =~= acts_of_retired(
                old(self).retired@,
            ).to_multiset().insert(a));
            assert(acts_of_executed(self.executed@).to_multiset().add(
                pending_of(old(self).bags@).insert(a),
            ) =~= acts_of_executed(self.executed@).to_multiset().add(
                pending_of(old(self).bags@),
            ).insert(a));
        }
    }

    /// Schedules destruction of a retired value: [`Collector::defer`]
    /// specialized to a [`Deferred::Destroy`] action. Semantically identical
    /// to deferring the destruction by hand.
    pub fn defer_destroy(&mut self, g: &Guard, value: T)
        requires
            old(self).wf(),
            old(self).guard_live(g),
        ensures
            final(self).wf(),
            final(self).guard_live(g),
            final(self)@.retired == old(self)@.retired.push(
                RetireRecord { act: Deferred::Destroy(value), deferred_at: old(self)@.epoch },
            ),
            final(self)@.pending == old(self)@.pending.insert(Deferred::Destroy(value)),
            final(self)@.epoch == old(self)@.epoch,
            final(self)@.pins == old(self)@.pins,
            final(self)@.executed == old(self)@.executed,
            final(self)@.threshold == old(self)@.threshold,
            old(self).no_stale_bags() ==> final(self).no_stale_bags(),
    {
        self.defer(g, Deferred::Destroy(value))
    }

    /// Whether every live pin has caught up with the global epoch.
    fn pins_all_current(&self) -> (r: bool)
        ensures
            r == self.all_pins_current(),
    {
        let mut i: usize = 0;
        while i < self.pins.len()
            invariant
                0 <= i <= self.pins@.len(),
                forall|j: int|
                    0 <= j < i ==> ((#[trigger] self.pins@[j]) matches Some(e) ==> e
                        == self@.epoch),
            decreases self.pins@.len() - i,
        {
            match self.pins[i] {
                Some(e) => {
                    if e != self.epoch {
                        proof {
                            assert(self@.pins[i as int] matches Some(ep) && ep != self@.epoch);
                        }
                        return false;
                    }
                },
                None => {},
            }
            i += 1;
        }
        true
    }

    /// One collection pass: attempt a single epoch advance, then drain every
    /// bag whose phase is at least two behind, in queue order.
    fn advance_and_drain(&mut self) -> (r: (bool, Vec<Deferred<T>>))
        requires
            old(self).wf(),
        ensures
            final(self).wf(),
            final(self).no_stale_bags(),
            r.0 == (old(self).all_pins_current() && old(self)@.epoch < u64::MAX),
            r.0 ==> final(self)@.epoch == old(self)@.epoch + 1,
            !r.0 ==> final(self)@.epoch == old(self)@.epoch,
            final(self)@.pins == old(self)@.pins,
            final(self)@.retired == old(self)@.retired,
            final(self)@.threshold == old(self)@.threshold,
            acts_of_executed(final(self)@.executed) == acts_of_executed(old(self)@.executed)
                + r.1@,
            old(self)@.pending == final(self)@.pending.add(r.1@.to_multiset()),
            forall|i: int|
                0 <= i < final(self).bags@.len() ==> old(self).bags@.contains(
                    #[trigger] final(self).bags@[i],
                ),
    {
        let current = self.pins_all_current();
        let advanced = current && self.epoch < u64::MAX;
        if advanced {
            self.epoch = self.epoch + 1;
            proof {
                assert forall|i: int|
                    0 <= i < self.pins@.len() implies ((#[trigger] self.pins@[i]) matches Some(e)
                    ==> e <= self.epoch && self.epoch <= e + 1) by {
                    assert(old(self).pins@[i] matches Some(e) ==> e == old(self).epoch);
                }
            }
        }
        let ghost enow = self.epoch;
        let ghost bags0 = self.bags@;
        let ghost exec0 = self.executed@;
        let ghost pend0 = pending_of(self.bags@);
        let mut out: Vec<Deferred<T>> = Vec::new();
        let mut i: usize = 0;
        while i < self.bags.len()
            invariant
                self.wf(),
                0 <= i <= self.bags@.len(),
                self.epoch == enow,
                self.pins@ == old(self).pins@,
                self.retired@ == old(self).retired@,
                self.threshold == old(self).threshold,
                forall|k: int| 0 <= k < i ==> (#[trigger] self.bags@[k]).epoch + 2 > self.epoch,
                forall|k: int|
                    0 <= k < self.bags@.len() ==> bags0.contains(#[trigger] self.bags@[k]),
                acts_of_executed(self.executed@) == acts_of_executed(exec0) + out@,
                pend0 == pending_of(self.bags@).add(out@.to_multiset()),
            decreases self.bags@.len() - i,
        {
            let eligible = self.epoch >= 2 && self.bags[i].epoch <= self.epoch - 2;
            if eligible {
                let ghost bags_before = self.bags@;
                let ghost out_before = out@;
                let ghost exec_before = self.executed@;
                let mut bag = self.bags.remove(i);
                let ghost bag_items = bag.items@;
                let ghost bepoch = bag.epoch;
                out.append(&mut bag.items);
                proof {
                    self.executed@ = self.executed@ + bag_items.map_values(
                        |x: Deferred<T>|
                            ExecRecord { act: x, deferred_at: bepoch, executed_at: enow },
                    );
                    lemma_pending_of_remove(bags_before, i as int);
                    vstd::seq_lib::lemma_multiset_commutative(out_before, bag_items);
                    vstd::seq_lib::lemma_multiset_commutative(
                        acts_of_executed(exec_before),
                        bag_items,
                    );
                    assert(acts_of_executed(self.executed@) =~= acts_of_executed(exec_before)
                        + bag_items);
                    assert(acts_of_executed(self.executed@) =~= acts_of_executed(exec0) + out@);
                    assert(pend0 == pending_of(self.bags@).add(out@.to_multiset())) by {
                        assert(pending_of(bags_before) == pending_of(self.bags@).add(
                            bag_items.to_multiset(),
                        ));
                        assert(pending_of(self.bags@).add(bag_items.to_multiset()).add(
                            out_before.to_multiset(),
                        ) =~= pending_of(self.bags@).add(out@.to_multiset()));
                    }
                    assert(acts_of_retired(self.retired@).to_multiset() == acts_of_executed(
                        self.executed@,
                    ).to_multiset().add(pending_of(self.bags@))) by {
                        assert(acts_of_executed(self.executed@).to_multiset()
                            =~= acts_of_executed(exec_before).to_multiset().add(
                            bag_items.to_multiset(),
                        ));
                        assert(acts_of_executed(exec_before).to_multiset().add(
                            pending_of(bags_before),
                        ) =~= acts_of_executed(self.executed@).to_multiset().add(
                            pending_of(self.bags@),
                        ));
                    }
                    assert forall|k: int|
                        0 <= k < self.executed@.len() implies (#[trigger] self.executed@[k]).deferred_at
                        + 2 <= self.executed@[k].executed_at && self.executed@[k].executed_at
                        <= self.epoch by {
                        if k >= exec_before.len() {
                            assert(self.executed@[k].deferred_at == bepoch);
                            assert(self.executed@[k].executed_at == enow);
                        }
                    }
                    assert forall|k: int|
                        0 <= k < self.bags@.len() implies bags0.contains(
                        #[trigger] self.bags@[k],
                    ) by {
                        if k < i {
                            assert(self.bags@[k] == bags_before[k]);
                        } else {
                            assert(self.bags@[k] == bags_before[k + 1]);
                        }
                    }
                }
            } else {
                i += 1;
            }
        }
        (advanced, out)
    }

    /// Attempts to advance the global epoch by one phase, then hands back
    /// every queued action whose grace period has passed, in the order the
    /// actions were deferred.
    ///
    /// The advance succeeds exactly when no live pin's recorded epoch is older
    /// than the current global epoch (and the counter has room left). A single
    /// straggling pin makes the advance a no-op: progress is sacrificed in
    /// favour of safety, an accepted liveness tradeoff.
    pub fn try_advance(&mut self) -> (r: (bool, Vec<Deferred<T>>))
        requires
            old(self).wf(),
        ensures
            final(self).wf(),
            final(self).no_stale_bags(),
            r.0 == (old(self).all_pins_current() && old(self)@.epoch < u64::MAX),
            r.0 ==> final(self)@.epoch == old(self)@.epoch + 1,
            !r.0 ==> final(self)@.epoch == old(self)@.epoch,
            final(self)@.pins == old(self)@.pins,
            final(self)@.retired == old(self)@.retired,
            final(self)@.threshold == old(self)@.threshold,
            acts_of_executed(final(self)@.executed) == acts_of_executed(old(self)@.executed)
                + r.1@,
            old(self)@.pending == final(self)@.pending.add(r.1@.to_multiset()),
    {
        self.advance_and_drain()
    }

    /// Explicit, best-effort collection pass on behalf of a live guard: one
    /// advance attempt, then every action whose grace period has passed is
    /// handed back for execution. Calling `flush` zero, one or many times
    /// changes only when cleanup runs, never whether it is correct.
    pub fn flush(&mut self, g: &Guard) -> (out: Vec<Deferred<T>>)
        requires
            old(self).wf(),
            old(self).guard_live(g),
        ensures
            final(self).wf(),
            final(self).no_stale_bags(),
            final(self).guard_live(g),
            old(self)@.epoch <= final(self)@.epoch <= old(self)@.epoch + 1,
            final(self)@.pins == old(self)@.pins,
            final(self)@.retired == old(self)@.retired,
            final(self)@.threshold == old(self)@.threshold,
            acts_of_executed(final(self)@.executed) == acts_of_executed(old(self)@.executed)
                + out@,
            old(self)@.pending == final(self)@.pending.add(out@.to_multiset()),
    {
        let r = self.advance_and_drain();
        r.1
    }

    /// Loops advance attempts until no bag phase remains reclaimable, handing
    /// back every action whose grace period has passed.
    ///
    /// With no guard live (and room left on the epoch counter) this is a full
    /// drain: afterwards no action is pending any more, and every action ever
    /// retired has been handed back for execution exactly once.
    pub fn drain_all(&mut self) -> (out: Vec<Deferred<T>>)
        requires
            old(self).wf(),
        ensures
            final(self).wf(),
            final(self).no_stale_bags(),
            final(self)@.pins == old(self)@.pins,
            final(self)@.retired == old(self)@.retired,
            final(self)@.threshold == old(self)@.threshold,
            acts_of_executed(final(self)@.executed) == acts_of_executed(old(self)@.executed)
                + out@,
            old(self)@.pending == final(self)@.pending.add(out@.to_multiset()),
            old(self).no_live_pins() && old(self)@.epoch + 2 <= u64::MAX ==> {
                &&& final(self)@.pending == Multiset::<Deferred<T>>::empty()
                &&& acts_of_retired(final(self)@.retired).to_multiset() == acts_of_executed(
                    final(self)@.executed,
                ).to_multiset()
                &&& final(self)@.epoch == old(self)@.epoch + 2
            },
    {
        let ghost bags_start = self.bags@;
        let r1 = self.advance_and_drain();
        let ghost bags_mid = self.bags@;
        let mut out = r1.1;
        let r2 = self.advance_and_drain();
        let mut more = r2.1;
        out.append(&mut more);
        proof {
            assert(acts_of_executed(self.executed@) =~= acts_of_executed(old(self).executed@)
                + out@);
            vstd::seq_lib::lemma_multiset_commutative(r1.1@, r2.1@);
            assert(pending_of(old(self).bags@) == pending_of(self.bags@).add(out@.to_multiset()))
                by {
                assert(pending_of(self.bags@).add(r2.1@.to_multiset()).add(r1.1@.to_multiset())
                    =~= pending_of(self.bags@).add(out@.to_multiset()));
            }
            if old(self).no_live_pins() && old(self)@.epoch + 2 <= u64::MAX {
                assert(old(self).all_pins_current());
                assert(r1.0);
                assert(self.pins@ == old(self).pins@);
                assert(r2.0);
                assert(self.bags@.len() == 0) by {
                    if self.bags@.len() > 0 {
                        let b = self.bags@[0];
                        assert(bags_mid.contains(b));
                        let j = choose|j: int| 0 <= j < bags_mid.len() && bags_mid[j] == b;
                        assert(bags_start.contains(bags_mid[j]));
                        let k = choose|k: int|
                            0 <= k < bags_start.len() && bags_start[k] == bags_mid[j];
                        assert(bags_start[k].epoch <= old(self).epoch);
                        assert(b.epoch + 2 > self.epoch);
                    }
                }
                assert(pending_of(self.bags@) =~= Multiset::<Deferred<T>>::empty());
                assert(acts_of_retired(self.retired@).to_multiset() =~= acts_of_executed(
                    self.executed@,
                ).to_multiset());
            }
        }
        out
    }

    /// Whether any garbage bag has grown past the configured threshold: the
    /// signal that garbage is accumulating and the next advance opportunity
    /// should also drain. Surfaced as a metric so container operations can
    /// trigger collection automatically under sustained load.
    pub fn over_threshold(&self) -> (r: bool)
        ensures
            r == self.some_bag_over_threshold(),
    {
        let mut i: usize = 0;
        while i < self.bags.len()
            invariant
                0 <= i <= self.bags@.len(),
                forall|j: int|
                    0 <= j < i ==> !((#[trigger] self.bags@[j]).items@.len() > self.threshold),
            decreases self.bags@.len() - i,
        {
            if self.bags[i].items.len() > self.threshold {
                proof {
                    assert((#[trigger] self.bags@[i as int]).items@.len() > self.threshold);
                }
                return true;
            }
            i += 1;
        }
        false
    }

    /// Whether some garbage bag holds more than `threshold` queued actions.
    pub closed spec fn some_bag_over_threshold(&self) -> bool {
        exists|i: int|
            0 <= i < self.bags@.len() && (#[trigger] self.bags@[i]).items@.len() > self.threshold
    }
}

/// No use-after-free. While a guard is live, every action that has already
/// been handed back for execution was deferred strictly before the guard's
/// recorded epoch. Since an action deferred while the guard is live is sealed
/// at the then-current global epoch — which is never below the guard's
/// recorded epoch ([`Collector::defer`] ensures both) — no value retired
/// during the guard's lifetime (in particular, no value the guard observed
/// through a load before it was dislodged) is ever executed while the guard is
/// alive.
pub proof fn lemma_no_use_after_free<T>(c: &Collector<T>, g: &Guard)
    requires
        c.wf(),
        c.guard_live(g),
    ensures
        forall|i: int|
            0 <= i < c@.executed.len() ==> (#[trigger] c@.executed[i]).deferred_at
                < g.pin_epoch(),
        g.pin_epoch() <= c@.epoch,
{
    assert(c@.pins[g.gid()] == Some(g.pin_epoch()));
    assert forall|i: int|
        0 <= i < c@.executed.len() implies (#[trigger] c@.executed[i]).deferred_at
        < g.pin_epoch() by {
        assert(c@.executed[i].deferred_at + 2 <= c@.executed[i].executed_at);
        assert(c@.executed[i].executed_at <= c@.epoch);
        assert(c@.epoch <= g.pin_epoch() + 1);
    }
}

/// Grace-period correctness. Every action ever handed back for execution was
/// executed only once the global epoch had advanced at least twice past the
/// phase under which the action was deferred.
pub proof fn lemma_grace_period<T>(c: &Collector<T>)
    requires
        c.wf(),
    ensures
        forall|i: int|
            0 <= i < c@.executed.len() ==> (#[trigger] c@.executed[i]).deferred_at + 2
                <= c@.executed[i].executed_at,
        forall|i: int|
            0 <= i < c@.executed.len() ==> (#[trigger] c@.executed[i]).executed_at <= c@.epoch,
{
}

/// Exactly-once destruction. Every action ever retired is either still
/// pending in a garbage bag or has been handed back for execution, and the
/// counts match exactly: nothing is lost, nothing is executed more often than
/// it was retired. Together with [`Collector::drain_all`] — after which, with
/// no live pins, nothing is pending — every retired action is executed exactly
/// once, eventually.
pub proof fn lemma_exactly_once<T>(c: &Collector<T>)
    requires
        c.wf(),
    ensures
        acts_of_retired(c@.retired).to_multiset() == acts_of_executed(
            c@.executed,
        ).to_multiset().add(c@.pending),
        forall|a: Deferred<T>|
            #[trigger] acts_of_executed(c@.executed).to_multiset().count(a) <= acts_of_retired(
                c@.retired,
            ).to_multiset().count(a),
{
}

} // verus!
