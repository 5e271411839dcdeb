use birdcage::cage::Cage;
use birdcage::cage::CageError;
use birdcage::canary::Canary;
use birdcage::collector::Collector;
use birdcage::collector::Deferred;

fn destroyed_names(actions: &[Deferred<Canary>]) -> Vec<String> {
    let mut names = Vec::new();
    for a in actions {
        if let Deferred::Destroy(c) = a {
            names.push(c.name.clone());
        }
    }
    names
}

#[test]
fn readers_and_writer_share_one_slot() {
    let mut c: Collector<Canary> = Collector::new(16);
    let init = vec![Canary::new("A"), Canary::new("B"), Canary::new("C")];
    let mut cage = Cage::new(init);

    let r1 = c.pin();
    let r2 = c.pin();
    assert_eq!(cage.load(1, &r1, &c).name, "B");

    let w = c.pin();
    let prev = cage.swap(1, Canary::new("D"), &w, &c);
    assert_eq!(prev.name, "B");
    c.defer_destroy(&w, prev);
    assert_eq!(cage.load(1, &r2, &c).name, "D");
    let prev = cage.swap(1, Canary::new("E"), &w, &c);
    assert_eq!(prev.name, "D");
    c.defer_destroy(&w, prev);
    c.unpin(w);
    assert_eq!(cage.load(1, &r1, &c).name, "E");

    // while either reader is alive, neither B nor D may be destroyed
    let (_, drained) = c.try_advance();
    assert!(drained.is_empty());
    let (_, drained) = c.try_advance();
    assert!(drained.is_empty());

    c.unpin(r1);
    c.unpin(r2);
    let drained = c.drain_all();
    let names = destroyed_names(&drained);
    assert_eq!(names.iter().filter(|n| *n == "B").count(), 1);
    assert_eq!(names.iter().filter(|n| *n == "D").count(), 1);
    assert_eq!(names.iter().filter(|n| *n == "E").count(), 0);
    assert_eq!(names.len(), 2);
    // the untouched slots still hold their original values
    let a = c.pin();
    assert_eq!(cage.load(0, &a, &c).name, "A");
    assert_eq!(cage.load(2, &a, &c).name, "C");
    c.unpin(a);
}

#[test]
fn threshold_crossing_drains_with_one_cycle_of_delay() {
    let mut c: Collector<Canary> = Collector::new(256);
    let mut cage = Cage::new(vec![Canary::new("retired 0")]);
    let mut destroyed: Vec<String> = Vec::new();
    for i in 0..300usize {
        let fresh = Canary::new(&format!("retired {}", i + 1));
        let drained = cage.replace(0, fresh, &mut c).unwrap();
        destroyed.extend(destroyed_names(&drained));
    }
    // the threshold (256) was crossed during the loop, so collection passes
    // already ran; a final full drain empties every bag
    let drained = c.drain_all();
    destroyed.extend(destroyed_names(&drained));
    assert_eq!(destroyed.len(), 300);
    for i in 0..300usize {
        let expected = format!("retired {}", i);
        assert_eq!(
            destroyed.iter().filter(|n| **n == expected).count(),
            1,
            "value {} must be destroyed exactly once",
            expected
        );
    }
    // the current occupant was never destroyed, and nothing is left over
    let g = c.pin();
    assert_eq!(cage.load(0, &g, &c).name, "retired 300");
    c.unpin(g);
    assert!(c.drain_all().is_empty());
}

#[test]
fn out_of_range_access_fails_without_corruption() {
    let mut c: Collector<Canary> = Collector::new(256);
    let init = vec![Canary::new("A"), Canary::new("B"), Canary::new("C")];
    let mut cage = Cage::new(init);
    assert_eq!(cage.len(), 3);

    match cage.access(5, &mut c) {
        Err(CageError::IndexOutOfBounds) => {}
        Ok(_) => panic!("out-of-range access must fail"),
    }
    match cage.replace(7, Canary::new("Z"), &mut c) {
        Err(CageError::IndexOutOfBounds) => {}
        Ok(_) => panic!("out-of-range replace must fail"),
    }

    // no slot was touched and nothing was retired
    assert_eq!(cage.access(0, &mut c).unwrap().name, "A");
    assert_eq!(cage.access(1, &mut c).unwrap().name, "B");
    assert_eq!(cage.access(2, &mut c).unwrap().name, "C");
    assert_eq!(c.epoch(), 0);
    assert!(c.drain_all().is_empty());
}

#[test]
fn access_releases_its_pin() {
    let mut c: Collector<Canary> = Collector::new(256);
    let cage = Cage::new(vec![Canary::new("A")]);
    assert_eq!(cage.access(0, &mut c).unwrap().name, "A");
    // the pin taken by access is gone, so the epoch can advance
    let (advanced, _) = c.try_advance();
    assert!(advanced);
    assert_eq!(c.epoch(), 1);
}

#[test]
fn replace_retires_exactly_the_dislodged_value() {
    let mut c: Collector<Canary> = Collector::new(256);
    let mut cage = Cage::new(vec![Canary::new("old")]);
    let drained = cage.replace(0, Canary::new("new"), &mut c).unwrap();
    assert!(destroyed_names(&drained).is_empty());
    let drained = c.drain_all();
    let names = destroyed_names(&drained);
    assert_eq!(names, vec!["old".to_string()]);
    assert_eq!(cage.access(0, &mut c).unwrap().name, "new");
}
