use birdcage::canary::Canary;
use birdcage::collector::Collector;
use birdcage::collector::Deferred;
use birdcage::slot::Slot;

#[test]
fn canary_new_keeps_name() {
    let c = Canary::new("Canary 0");
    assert_eq!(c.name, "Canary 0");
}

#[test]
fn fresh_collector_starts_at_epoch_zero() {
    let c: Collector<u64> = Collector::new(256);
    assert_eq!(c.epoch(), 0);
    assert_eq!(c.current_phase(), 0);
    assert!(!c.over_threshold());
}

#[test]
fn phase_cycles_through_three_values() {
    let mut c: Collector<u64> = Collector::new(256);
    assert_eq!(c.current_phase(), 0);
    let (advanced, _) = c.try_advance();
    assert!(advanced);
    assert_eq!(c.current_phase(), 1);
    let (advanced, _) = c.try_advance();
    assert!(advanced);
    assert_eq!(c.current_phase(), 2);
    let (advanced, _) = c.try_advance();
    assert!(advanced);
    assert_eq!(c.current_phase(), 0);
    assert_eq!(c.epoch(), 3);
}

#[test]
fn straggler_blocks_advance_until_unpinned() {
    let mut c: Collector<u64> = Collector::new(256);
    let g = c.pin();
    // the pin is current, so one advance succeeds and leaves it one behind
    let (advanced, _) = c.try_advance();
    assert!(advanced);
    assert_eq!(c.epoch(), 1);
    // now the pin is a straggler: advancing is a no-op
    let (advanced, _) = c.try_advance();
    assert!(!advanced);
    assert_eq!(c.epoch(), 1);
    c.unpin(g);
    let (advanced, _) = c.try_advance();
    assert!(advanced);
    assert_eq!(c.epoch(), 2);
}

#[test]
fn deferred_action_waits_two_advances() {
    let mut c: Collector<u64> = Collector::new(256);
    let g = c.pin();
    c.defer_destroy(&g, 42);
    c.unpin(g);
    // deferred under epoch 0: nothing may run before epoch 2
    let (advanced, drained) = c.try_advance();
    assert!(advanced);
    assert!(drained.is_empty());
    let (advanced, drained) = c.try_advance();
    assert!(advanced);
    assert_eq!(drained.len(), 1);
    assert!(matches!(drained[0], Deferred::Destroy(42)));
    // nothing is ever handed back twice
    let more = c.drain_all();
    assert!(more.is_empty());
}

#[test]
fn live_guard_keeps_retired_value_pending() {
    let mut c: Collector<u64> = Collector::new(256);
    let mut slot = Slot::new(7u64);
    let reader = c.pin();
    let seen = *slot.load(&reader, &c);
    assert_eq!(seen, 7);
    // a writer dislodges the value the reader observed and retires it
    let writer = c.pin();
    let prev = slot.swap(8, &writer, &c);
    assert_eq!(prev, 7);
    c.defer_destroy(&writer, prev);
    c.unpin(writer);
    // while the reader is alive no collection pass may hand the value back
    let (_, drained) = c.try_advance();
    assert!(drained.is_empty());
    let (_, drained) = c.try_advance();
    assert!(drained.is_empty());
    assert_eq!(*slot.load(&reader, &c), 8);
    c.unpin(reader);
    let drained = c.drain_all();
    assert_eq!(drained.len(), 1);
    assert!(matches!(drained[0], Deferred::Destroy(7)));
}

#[test]
fn callbacks_are_delivered_in_defer_order() {
    let mut c: Collector<u64> = Collector::new(256);
    let g = c.pin();
    c.defer(&g, Deferred::Callback(7));
    c.defer(&g, Deferred::Callback(9));
    c.unpin(g);
    let drained = c.drain_all();
    assert_eq!(drained.len(), 2);
    assert!(matches!(drained[0], Deferred::Callback(7)));
    assert!(matches!(drained[1], Deferred::Callback(9)));
}

#[test]
fn drain_all_on_empty_collector_returns_nothing() {
    let mut c: Collector<u64> = Collector::new(256);
    let drained = c.drain_all();
    assert!(drained.is_empty());
    assert_eq!(c.epoch(), 2);
}

#[test]
fn store_retires_the_dislodged_value() {
    let mut c: Collector<u64> = Collector::new(256);
    let mut slot = Slot::new(10u64);
    let g = c.pin();
    slot.store(20, &g, &mut c);
    assert_eq!(*slot.load(&g, &c), 20);
    c.unpin(g);
    let drained = c.drain_all();
    assert_eq!(drained.len(), 1);
    assert!(matches!(drained[0], Deferred::Destroy(10)));
}

#[test]
fn swap_orders_all_replacements() {
    let mut c: Collector<u64> = Collector::new(256);
    let mut slot = Slot::new(1u64);
    let g = c.pin();
    assert_eq!(*slot.load(&g, &c), 1);
    let prev = slot.swap(2, &g, &c);
    assert_eq!(prev, 1);
    assert_eq!(*slot.load(&g, &c), 2);
    let prev = slot.swap(3, &g, &c);
    assert_eq!(prev, 2);
    assert_eq!(*slot.load(&g, &c), 3);
    c.defer_destroy(&g, prev);
    c.unpin(g);
    c.drain_all();
}
