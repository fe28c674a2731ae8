use broadcast_ring::notifier::Notifier;
use std::sync::atomic::{AtomicUsize, Ordering};
use std::sync::Arc;
use std::task::{Context, Wake, Waker};

struct Counter {
    wakes: AtomicUsize,
}

impl Wake for Counter {
    fn wake(self: Arc<Self>) {
        self.wakes.fetch_add(1, Ordering::SeqCst);
    }
}

fn counter() -> (Arc<Counter>, Waker) {
    let counter = Arc::new(Counter { wakes: AtomicUsize::new(0) });
    let waker = Waker::from(counter.clone());
    (counter, waker)
}

#[test]
fn new_notifier_has_nobody_waiting() {
    let notifier = Notifier::new();
    assert_eq!(notifier.pending(), 0);
}

#[test]
fn subscribe_registers_the_task() {
    let (_counter, waker) = counter();
    let cx = Context::from_waker(&waker);
    let mut notifier = Notifier::new();
    notifier.subscribe(&cx);
    assert_eq!(notifier.pending(), 1);
}

#[test]
fn subscribing_again_replaces_the_earlier_interest() {
    let (count, waker) = counter();
    let cx = Context::from_waker(&waker);
    let mut notifier = Notifier::new();
    notifier.subscribe(&cx);
    notifier.subscribe(&cx);
    notifier.subscribe(&cx);
    assert_eq!(notifier.pending(), 1);
    notifier.notify();
    assert_eq!(count.wakes.load(Ordering::SeqCst), 1);
}

#[test]
fn different_tasks_are_registered_side_by_side() {
    let (first, first_waker) = counter();
    let (second, second_waker) = counter();
    let first_cx = Context::from_waker(&first_waker);
    let second_cx = Context::from_waker(&second_waker);
    let mut notifier = Notifier::new();
    notifier.subscribe(&first_cx);
    notifier.subscribe(&second_cx);
    notifier.subscribe(&first_cx);
    assert_eq!(notifier.pending(), 2);
    notifier.notify();
    assert_eq!(first.wakes.load(Ordering::SeqCst), 1);
    assert_eq!(second.wakes.load(Ordering::SeqCst), 1);
}

#[test]
fn notify_wakes_everyone_once_and_empties_the_list() {
    let (count, waker) = counter();
    let cx = Context::from_waker(&waker);
    let mut notifier = Notifier::new();
    notifier.subscribe(&cx);
    notifier.notify();
    assert_eq!(notifier.pending(), 0);
    assert_eq!(count.wakes.load(Ordering::SeqCst), 1);
    notifier.notify();
    assert_eq!(count.wakes.load(Ordering::SeqCst), 1);
}

#[test]
fn notify_on_an_empty_list_wakes_nobody() {
    let mut notifier = Notifier::new();
    notifier.notify();
    assert_eq!(notifier.pending(), 0);
}
