use broadcast_ring::ref_count::TryDecrement;
use broadcast_ring::rr_lock::{Content, NotDead, ReadReleaseLock, TryRead, TryWrite};
use std::sync::atomic::{AtomicUsize, Ordering};
use std::sync::Arc;
use std::task::{Context, Wake, Waker};

struct Counter {
    wakes: AtomicUsize,
}

impl Wake for Counter {
    fn wake(self: Arc<Self>) {
        self.wakes.fetch_add(1, Ordering::SeqCst);
    }
}

fn counter() -> (Arc<Counter>, Waker) {
    let counter = Arc::new(Counter { wakes: AtomicUsize::new(0) });
    let waker = Waker::from(counter.clone());
    (counter, waker)
}

#[test]
fn new_slot_is_empty_and_unheld() {
    let slot = ReadReleaseLock::<u8>::new();
    assert_eq!(slot.content(), Content::Empty);
    assert!(!slot.is_occupied());
    assert_eq!(slot.holders(), 0);
    assert_eq!(slot.readers_waiting(), 0);
    assert_eq!(slot.writers_waiting(), 0);
}

#[test]
fn slot_life_cycle() {
    let waker = Waker::noop();
    let cx = Context::from_waker(&waker);
    let mut slot = ReadReleaseLock::<u8>::new();
    slot.acquire();
    assert_eq!(slot.content(), Content::Empty);
    assert!(matches!(slot.try_write(5, &cx), TryWrite::Ready));
    assert_eq!(slot.content(), Content::Filled);
    assert_eq!(slot.decrement(), TryDecrement::Dead);
    assert_eq!(slot.content(), Content::Dead);
    assert!(slot.is_occupied());
    assert_eq!(slot.release(), Ok(()));
    assert_eq!(slot.content(), Content::Empty);
    assert!(!slot.is_occupied());
}

#[test]
fn acquire_counts_holders() {
    let mut slot = ReadReleaseLock::<u8>::new();
    slot.acquire();
    slot.acquire();
    slot.acquire_next();
    assert_eq!(slot.holders(), 3);
}

#[test]
fn write_to_an_unheld_empty_slot_is_filled_with_no_holder() {
    let waker = Waker::noop();
    let cx = Context::from_waker(&waker);
    let mut slot = ReadReleaseLock::<u8>::new();
    assert!(matches!(slot.try_write(5, &cx), TryWrite::Ready));
    assert_eq!(slot.content(), Content::Filled);
    assert_eq!(slot.holders(), 0);
    assert_eq!(slot.release(), Err(NotDead));
    assert_eq!(slot.content(), Content::Filled);
}

#[test]
fn write_to_a_filled_slot_hands_the_value_back() {
    let waker = Waker::noop();
    let cx = Context::from_waker(&waker);
    let mut slot = ReadReleaseLock::<u8>::new();
    slot.acquire();
    assert!(matches!(slot.try_write(5, &cx), TryWrite::Ready));
    assert!(matches!(slot.try_write(6, &cx), TryWrite::Pending(6)));
    assert!(matches!(slot.try_read(&cx), TryRead::Read(5)));
    assert_eq!(slot.writers_waiting(), 1);
}

#[test]
fn write_to_a_dead_slot_hands_the_value_back() {
    let waker = Waker::noop();
    let cx = Context::from_waker(&waker);
    let mut slot = ReadReleaseLock::<u8>::new();
    slot.acquire();
    assert!(matches!(slot.try_write(5, &cx), TryWrite::Ready));
    assert_eq!(slot.decrement(), TryDecrement::Dead);
    assert!(matches!(slot.try_write(6, &cx), TryWrite::Pending(6)));
    assert_eq!(slot.content(), Content::Dead);
    assert_eq!(slot.release(), Ok(()));
    assert!(matches!(slot.try_write(6, &cx), TryWrite::Ready));
    slot.acquire();
    assert!(matches!(slot.try_read(&cx), TryRead::Read(6)));
}

#[test]
fn read_of_an_unheld_slot_is_not_locked() {
    let waker = Waker::noop();
    let cx = Context::from_waker(&waker);
    let mut slot = ReadReleaseLock::<u8>::new();
    assert!(matches!(slot.try_read(&cx), TryRead::NotLocked));
    assert!(matches!(slot.try_write(5, &cx), TryWrite::Ready));
    assert!(matches!(slot.try_read(&cx), TryRead::NotLocked));
    assert_eq!(slot.readers_waiting(), 0);
}

#[test]
fn read_of_a_held_empty_slot_is_pending_and_subscribes() {
    let waker = Waker::noop();
    let cx = Context::from_waker(&waker);
    let mut slot = ReadReleaseLock::<u8>::new();
    slot.acquire();
    assert!(matches!(slot.try_read(&cx), TryRead::Pending));
    assert_eq!(slot.readers_waiting(), 1);
    assert_eq!(slot.holders(), 1);
    assert_eq!(slot.content(), Content::Empty);
}

#[test]
fn read_hands_out_copies_and_keeps_the_value() {
    let waker = Waker::noop();
    let cx = Context::from_waker(&waker);
    let mut slot = ReadReleaseLock::<String>::new();
    slot.acquire();
    slot.acquire();
    assert!(matches!(slot.try_write(String::from("value"), &cx), TryWrite::Ready));
    match slot.try_read(&cx) {
        TryRead::Read(v) => assert_eq!(v, "value"),
        _ => panic!("expected a value"),
    }
    match slot.try_read(&cx) {
        TryRead::Read(v) => assert_eq!(v, "value"),
        _ => panic!("expected a value"),
    }
    assert_eq!(slot.holders(), 2);
    assert_eq!(slot.content(), Content::Filled);
}

#[test]
fn decrement_is_alive_until_the_last_holder_leaves() {
    let waker = Waker::noop();
    let cx = Context::from_waker(&waker);
    let mut slot = ReadReleaseLock::<u8>::new();
    slot.acquire();
    slot.acquire();
    assert!(matches!(slot.try_write(1, &cx), TryWrite::Ready));
    assert_eq!(slot.decrement(), TryDecrement::Alive);
    assert_eq!(slot.content(), Content::Filled);
    assert_eq!(slot.holders(), 1);
    assert_eq!(slot.decrement(), TryDecrement::Dead);
    assert_eq!(slot.content(), Content::Dead);
    assert_eq!(slot.holders(), 0);
}

#[test]
fn last_holder_leaving_an_empty_slot_leaves_it_empty() {
    let mut slot = ReadReleaseLock::<u8>::new();
    slot.acquire();
    assert_eq!(slot.decrement(), TryDecrement::Dead);
    assert_eq!(slot.content(), Content::Empty);
    assert_eq!(slot.release(), Err(NotDead));
    assert_eq!(slot.content(), Content::Empty);
}

#[test]
fn acquire_revives_a_dead_slot() {
    let waker = Waker::noop();
    let cx = Context::from_waker(&waker);
    let mut slot = ReadReleaseLock::<u8>::new();
    slot.acquire();
    assert!(matches!(slot.try_write(9, &cx), TryWrite::Ready));
    assert_eq!(slot.decrement(), TryDecrement::Dead);
    slot.acquire();
    assert_eq!(slot.content(), Content::Filled);
    assert_eq!(slot.release(), Err(NotDead));
    assert!(matches!(slot.try_read(&cx), TryRead::Read(9)));
}

#[test]
fn release_of_a_held_slot_fails_and_changes_nothing() {
    let waker = Waker::noop();
    let cx = Context::from_waker(&waker);
    let mut slot = ReadReleaseLock::<u8>::new();
    slot.acquire();
    assert!(matches!(slot.try_write(9, &cx), TryWrite::Ready));
    assert_eq!(slot.release(), Err(NotDead));
    assert_eq!(slot.holders(), 1);
    assert!(matches!(slot.try_read(&cx), TryRead::Read(9)));
}

#[test]
fn decrement_next_undoes_acquire_next() {
    let mut slot = ReadReleaseLock::<u8>::new();
    slot.acquire();
    slot.acquire_next();
    assert_eq!(slot.holders(), 2);
    slot.decrement_next();
    assert_eq!(slot.holders(), 1);
    assert_eq!(slot.content(), Content::Empty);
}

#[test]
fn write_wakes_the_waiting_readers() {
    let (count, waker) = counter();
    let cx = Context::from_waker(&waker);
    let quiet = Waker::noop();
    let writer_cx = Context::from_waker(&quiet);
    let mut slot = ReadReleaseLock::<u8>::new();
    slot.acquire();
    assert!(matches!(slot.try_read(&cx), TryRead::Pending));
    assert_eq!(count.wakes.load(Ordering::SeqCst), 0);
    assert!(matches!(slot.try_write(3, &writer_cx), TryWrite::Ready));
    assert_eq!(count.wakes.load(Ordering::SeqCst), 1);
    assert_eq!(slot.readers_waiting(), 0);
}

#[test]
fn subscribe_write_registers_a_reader() {
    let (count, waker) = counter();
    let cx = Context::from_waker(&waker);
    let quiet = Waker::noop();
    let writer_cx = Context::from_waker(&quiet);
    let mut slot = ReadReleaseLock::<u8>::new();
    slot.subscribe_write(&cx);
    slot.subscribe_write(&cx);
    assert_eq!(slot.readers_waiting(), 1);
    assert!(matches!(slot.try_write(3, &writer_cx), TryWrite::Ready));
    assert_eq!(count.wakes.load(Ordering::SeqCst), 1);
}

#[test]
fn release_wakes_the_waiting_writers() {
    let (count, waker) = counter();
    let cx = Context::from_waker(&waker);
    let mut slot = ReadReleaseLock::<u8>::new();
    slot.acquire();
    assert!(matches!(slot.try_write(3, &cx), TryWrite::Ready));
    assert!(matches!(slot.try_write(4, &cx), TryWrite::Pending(4)));
    assert_eq!(slot.writers_waiting(), 1);
    assert_eq!(slot.decrement(), TryDecrement::Dead);
    assert_eq!(count.wakes.load(Ordering::SeqCst), 0);
    assert_eq!(slot.release(), Ok(()));
    assert_eq!(count.wakes.load(Ordering::SeqCst), 1);
    assert_eq!(slot.writers_waiting(), 0);
}

#[test]
fn failed_release_wakes_nobody() {
    let (count, waker) = counter();
    let cx = Context::from_waker(&waker);
    let mut slot = ReadReleaseLock::<u8>::new();
    slot.acquire();
    assert!(matches!(slot.try_write(3, &cx), TryWrite::Ready));
    assert!(matches!(slot.try_write(4, &cx), TryWrite::Pending(4)));
    assert_eq!(slot.release(), Err(NotDead));
    assert_eq!(count.wakes.load(Ordering::SeqCst), 0);
    assert_eq!(slot.writers_waiting(), 1);
}
