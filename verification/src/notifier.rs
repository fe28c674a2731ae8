//! Wake lists: the tasks to notify when a slot changes.

use std::task::{Context, Waker};
use vstd::prelude::*;

verus! {

/// `std::task::Context`, carried through as an opaque value.
#[verifier::external_type_specification]
#[verifier::external_body]
pub struct ExContext<'a>(Context<'a>);

/// `std::task::Waker`, carried through as an opaque value.
#[verifier::external_type_specification]
#[verifier::external_body]
pub struct ExWaker(Waker);

/// The wake handle that a context carries.
pub uninterp spec fn waker_of(cx: Context<'_>) -> Waker;

/// What `Waker::will_wake` answers for two handles. A true answer means
/// that both wake the same task; a false answer means nothing.
pub uninterp spec fn known_same_task(waker: Waker, other: Waker) -> bool;

/// `Context::waker`: the wake handle of the polling task, which is the one
/// that the context carries.
pub assume_specification<'a>[ Context::<'a>::waker ](cx: &Context<'a>) -> (waker: &'a Waker)
    ensures
        *waker == waker_of(*cx),
;

/// `Waker::clone`: another handle for the same task. Nothing is claimed of
/// the copy but that it is a clone.
pub assume_specification[ <Waker as Clone>::clone ](waker: &Waker) -> (copy: Waker);

/// `Waker::will_wake`: compares the two handles. The answer depends on the
/// handles alone.
pub assume_specification[ Waker::will_wake ](waker: &Waker, other: &Waker) -> (same: bool)
    ensures
        same == known_same_task(*waker, *other),
;

/// `Waker::wake`: notifies the task behind the handle. Nothing is claimed of
/// the effect.
pub assume_specification[ Waker::wake ](waker: Waker);

/// The first handle in `list` that is known to wake the task of `waker`
/// stands at `i`.
pub open spec fn first_match(list: Seq<Waker>, waker: Waker, i: int) -> bool {
    &&& 0 <= i < list.len()
    &&& known_same_task(list[i], waker)
    &&& forall|j: int| 0 <= j < i ==> !known_same_task(#[trigger] list[j], waker)
}

/// How a wake list changes when a handle is registered: it replaces the
/// first handle that is known to wake the same task, and goes to the end of
/// the list if there is none.
pub open spec fn placed(before: Seq<Waker>, waker: Waker, after: Seq<Waker>) -> bool {
    if exists|i: int| 0 <= i < before.len() && known_same_task(#[trigger] before[i], waker) {
        exists|i: int| #[trigger] first_match(before, waker, i) && after == before.update(i, waker)
    } else {
        after == before.push(waker)
    }
}

/// How a wake list changes when the task polling through `cx` registers: a
/// clone of the handle that the context carries is placed in the list.
pub open spec fn subscribed(before: Seq<Waker>, cx: Context<'_>, after: Seq<Waker>) -> bool {
    exists|waker: Waker| cloned(waker_of(cx), waker) && #[trigger] placed(before, waker, after)
}

/// The tasks that have registered interest in one event.
#[derive(Debug)]
pub struct Notifier {
    wakers: Vec<Waker>,
}

impl View for Notifier {
    type V = Seq<Waker>;

    closed spec fn view(&self) -> Seq<Waker> {
        self.wakers@
    }
}

impl Notifier {
    /// A list with nobody waiting.
    pub fn new() -> (n: Self)
        ensures
            n@.len() == 0,
    {
        Notifier { wakers: Vec::new() }
    }

    /// Registers the task polling through `cx`. If the task is known to be
    /// registered already, its handle is replaced where it stands; otherwise
    /// the handle goes to the end of the list.
    pub fn subscribe(&mut self, cx: &Context<'_>)
        ensures
            subscribed(old(self)@, *cx, final(self)@),
    {
        let waker = cx.waker().clone();
        assert(cloned(waker_of(*cx), waker));
        let mut i: usize = 0;
        while i < self.wakers.len()
            invariant
                self.wakers@ == old(self)@,
                i <= self.wakers.len(),
                cloned(waker_of(*cx), waker),
                forall|j: int| 0 <= j < i ==> !known_same_task(#[trigger] self.wakers@[j], waker),
            decreases self.wakers.len() - i,
        {
            if self.wakers[i].will_wake(&waker) {
                self.wakers.set(i, waker);
                assert(first_match(old(self)@, waker, i as int));
                assert(placed(old(self)@, waker, self@));
                return ;
            }
            i = i + 1;
        }
        self.wakers.push(waker);
        assert(placed(old(self)@, waker, self@));
    }

    /// Wakes every registered task and empties the list.
    pub fn notify(&mut self)
        ensures
            final(self)@.len() == 0,
    {
        while self.wakers.len() > 0
            decreases self.wakers.len(),
        {
            let waker = self.wakers.pop();
            match waker {
                Some(w) => w.wake(),
                None => {},
            }
        }
    }

    /// The number of registered tasks.
    pub fn pending(&self) -> (n: usize)
        ensures
            n == self@.len(),
    {
        self.wakers.len()
    }
}

} // verus!
