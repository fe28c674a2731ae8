use broadcast_ring::ref_count::{RefCount, TryDecrement};

#[test]
fn new_counter_is_zero() {
    let rc = RefCount::new();
    assert_eq!(rc.current(), 0);
}

#[test]
fn increment_adds_one_holder() {
    let mut rc = RefCount::new();
    rc.increment();
    assert_eq!(rc.current(), 1);
    rc.increment();
    rc.increment();
    assert_eq!(rc.current(), 3);
}

#[test]
fn decrement_reports_alive_while_holders_remain() {
    let mut rc = RefCount::new();
    rc.increment();
    rc.increment();
    rc.increment();
    assert_eq!(rc.decrement(), TryDecrement::Alive);
    assert_eq!(rc.current(), 2);
    assert_eq!(rc.decrement(), TryDecrement::Alive);
    assert_eq!(rc.current(), 1);
}

#[test]
fn decrement_reports_dead_exactly_at_zero() {
    let mut rc = RefCount::new();
    rc.increment();
    assert_eq!(rc.decrement(), TryDecrement::Dead);
    assert_eq!(rc.current(), 0);
    rc.increment();
    rc.increment();
    assert_eq!(rc.decrement(), TryDecrement::Alive);
    assert_eq!(rc.decrement(), TryDecrement::Dead);
    assert_eq!(rc.current(), 0);
}
