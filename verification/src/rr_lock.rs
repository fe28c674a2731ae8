//! The slot: one value cell with its holders and its wake lists.
//!
//! A slot is `Empty` until it is written, `Filled` while it holds a value
//! and `Dead` once the last holder of a filled slot has left. A dead slot
//! keeps its value until it is released.

use crate::notifier::{subscribed, Notifier};
use crate::ref_count::{RefCount, TryDecrement};
use std::task::{Context, Waker};
use vstd::prelude::*;

verus! {

/// What the cell of a slot holds.
#[derive(Clone, Copy, Debug, PartialEq, Eq, Structural)]
pub enum Content {
    /// No value: the slot can be written.
    Empty,
    /// A value that holders may still read.
    Filled,
    /// A value that every holder has left behind.
    Dead,
}

/// Outcome of a write attempt on a slot.
#[derive(Debug)]
pub enum TryWrite<T> {
    /// The slot took the value.
    Ready,
    /// The slot is occupied: the value comes back.
    Pending(T),
}

/// Outcome of a read attempt on a slot.
#[derive(Debug)]
pub enum TryRead<T> {
    /// Nobody holds the slot.
    NotLocked,
    /// A copy of the value in the slot.
    Read(T),
    /// The slot is held and still waits for its value.
    Pending,
}

/// The slot was asked to give up a value that is not dead.
#[derive(Clone, Copy, Debug, PartialEq, Eq, Structural)]
pub struct NotDead;

/// The state of a slot as contracts see it.
pub struct SlotView<T> {
    /// The value in the cell.
    pub value: Option<T>,
    /// The number of cursors that hold the slot.
    pub refs: nat,
    /// Whether the last holder of the value has left.
    pub dead: bool,
    /// The readers to wake when a value arrives.
    pub readers_waiting: Seq<Waker>,
    /// The writers to wake when the slot is released.
    pub writers_waiting: Seq<Waker>,
}

impl<T> SlotView<T> {
    /// The content state of the cell.
    pub open spec fn content(self) -> Content {
        if self.value is None {
            Content::Empty
        } else if self.dead {
            Content::Dead
        } else {
            Content::Filled
        }
    }

    /// A dead slot holds a value and has no holder.
    pub open spec fn wf(self) -> bool {
        self.dead ==> self.value is Some && self.refs == 0
    }

    /// The slot after it has gained a holder, with `waiting` as the readers
    /// that wait on it.
    pub open spec fn entered(self, waiting: Seq<Waker>) -> SlotView<T> {
        SlotView { refs: self.refs + 1, dead: false, readers_waiting: waiting, ..self }
    }

    /// The slot after a holder has left it: emptied, with its writers
    /// woken, if it was `reclaimed`, and otherwise dead if that was the last
    /// holder of a value.
    pub open spec fn left(self, reclaimed: bool) -> SlotView<T> {
        if reclaimed {
            SlotView {
                value: None,
                refs: (self.refs - 1) as nat,
                dead: false,
                writers_waiting: Seq::empty(),
                ..self
            }
        } else {
            SlotView {
                refs: (self.refs - 1) as nat,
                dead: self.refs == 1 && self.value is Some,
                ..self
            }
        }
    }
}

/// A reservation on an empty slot that is given up again leaves the slot
/// as it was.
pub proof fn lemma_reservation_undone<T>(slot: SlotView<T>)
    requires
        slot.wf(),
        slot.value is None,
    ensures
        slot.entered(slot.readers_waiting).left(false) == slot,
{
}

/// One cell of the buffer.
#[derive(Debug)]
pub struct ReadReleaseLock<T> {
    value: Option<T>,
    dead: bool,
    readers: RefCount,
    on_write: Notifier,
    on_release: Notifier,
}

impl<T> View for ReadReleaseLock<T> {
    type V = SlotView<T>;

    closed spec fn view(&self) -> SlotView<T> {
        SlotView {
            value: self.value,
            refs: self.readers@,
            dead: self.dead,
            readers_waiting: self.on_write@,
            writers_waiting: self.on_release@,
        }
    }
}

impl<T> ReadReleaseLock<T> {
    /// An empty slot that nobody holds or waits for.
    pub fn new() -> (slot: Self)
        ensures
            slot@.wf(),
            slot@ == (SlotView::<T> {
                value: None,
                refs: 0,
                dead: false,
                readers_waiting: Seq::empty(),
                writers_waiting: Seq::empty(),
            }),
    {
        let slot = ReadReleaseLock {
            value: None,
            dead: false,
            readers: RefCount::new(),
            on_write: Notifier::new(),
            on_release: Notifier::new(),
        };
        assert(slot@.readers_waiting =~= Seq::empty());
        assert(slot@.writers_waiting =~= Seq::empty());
        slot
    }

    /// Adds a holder. A dead value is held again and so is no longer dead.
    pub fn acquire(&mut self)
        requires
            old(self)@.wf(),
            old(self)@.refs < usize::MAX,
        ensures
            final(self)@.wf(),
            final(self)@ == old(self)@.entered(old(self)@.readers_waiting),
    {
        self.dead = false;
        self.readers.increment();
    }

    /// Adds a holder that reserves the slot ahead of the value it waits for.
    pub fn acquire_next(&mut self)
        requires
            old(self)@.wf(),
            old(self)@.refs < usize::MAX,
        ensures
            final(self)@.wf(),
            final(self)@ == old(self)@.entered(old(self)@.readers_waiting),
    {
        self.dead = false;
        self.readers.increment();
    }

    /// Stores `value` if the slot is empty and wakes the readers that wait
    /// for it. An occupied slot hands the value back and registers the
    /// writer to be woken when the slot is released.
    pub fn try_write(&mut self, value: T, cx: &Context<'_>) -> (outcome: TryWrite<T>)
        requires
            old(self)@.wf(),
        ensures
            final(self)@.wf(),
            old(self)@.value is None ==> outcome == TryWrite::<T>::Ready && final(self)@ == (
            SlotView { value: Some(value), readers_waiting: Seq::empty(), ..old(self)@ }),
            old(self)@.value is Some ==> outcome == TryWrite::Pending(value) && subscribed(
                old(self)@.writers_waiting,
                *cx,
                final(self)@.writers_waiting,
            ) && final(self)@ == (SlotView {
                writers_waiting: final(self)@.writers_waiting,
                ..old(self)@
            }),
    {
        if self.value.is_none() {
            self.value = Some(value);
            self.on_write.notify();
            assert(self@.readers_waiting =~= Seq::empty());
            TryWrite::Ready
        } else {
            self.on_release.subscribe(cx);
            TryWrite::Pending(value)
        }
    }

    /// Hands out a copy of the value to a holder. A held slot without a
    /// value registers the reader to be woken by the write.
    pub fn try_read(&mut self, cx: &Context<'_>) -> (outcome: TryRead<T>) where T: Clone
        requires
            old(self)@.wf(),
        ensures
            final(self)@.wf(),
            old(self)@.refs == 0 ==> outcome is NotLocked && final(self)@ == old(self)@,
            old(self)@.refs > 0 && old(self)@.value is Some ==> outcome is Read && cloned(
                old(self)@.value->0,
                outcome->Read_0,
            ) && final(self)@ == old(self)@,
            old(self)@.refs > 0 && old(self)@.value is None ==> outcome is Pending && subscribed(
                old(self)@.readers_waiting,
                *cx,
                final(self)@.readers_waiting,
            ) && final(self)@ == (SlotView {
                readers_waiting: final(self)@.readers_waiting,
                ..old(self)@
            }),
    {
        if self.readers.current() == 0 {
            return TryRead::NotLocked;
        }
        match &self.value {
            Some(v) => TryRead::Read(v.clone()),
            None => {
                self.on_write.subscribe(cx);
                TryRead::Pending
            },
        }
    }

    /// Removes a holder. `Dead` says that this was the last one; a value
    /// left behind by its last holder is dead.
    pub fn decrement(&mut self) -> (outcome: TryDecrement)
        requires
            old(self)@.wf(),
            old(self)@.refs > 0,
        ensures
            final(self)@.wf(),
            outcome == (if old(self)@.refs == 1 {
                TryDecrement::Dead
            } else {
                TryDecrement::Alive
            }),
            final(self)@ == old(self)@.left(false),
    {
        let outcome = self.readers.decrement();
        self.dead = self.readers.current() == 0 && self.value.is_some();
        outcome
    }

    /// Gives up a reservation made with `acquire_next`.
    pub fn decrement_next(&mut self)
        requires
            old(self)@.wf(),
            old(self)@.refs > 0,
        ensures
            final(self)@.wf(),
            final(self)@ == old(self)@.left(false),
    {
        let _ = self.readers.decrement();
        self.dead = self.readers.current() == 0 && self.value.is_some();
    }

    /// Empties a dead slot and wakes the writers that wait for it. A slot
    /// that is not dead is left as it is.
    pub fn release(&mut self) -> (outcome: Result<(), NotDead>)
        requires
            old(self)@.wf(),
        ensures
            final(self)@.wf(),
            old(self)@.content() == Content::Dead ==> outcome is Ok && final(self)@ == (SlotView {
                value: None,
                dead: false,
                writers_waiting: Seq::empty(),
                ..old(self)@
            }),
            old(self)@.content() != Content::Dead ==> outcome is Err && final(self)@ == old(
                self,
            )@,
    {
        if self.dead && self.value.is_some() {
            self.dead = false;
            self.value = None;
            self.on_release.notify();
            assert(self@.writers_waiting =~= Seq::empty());
            Ok(())
        } else {
            Err(NotDead)
        }
    }

    /// Registers the reader polling through `cx` to be woken by the next
    /// write to this slot.
    pub fn subscribe_write(&mut self, cx: &Context<'_>)
        requires
            old(self)@.wf(),
        ensures
            final(self)@.wf(),
            subscribed(old(self)@.readers_waiting, *cx, final(self)@.readers_waiting),
            final(self)@ == (SlotView {
                readers_waiting: final(self)@.readers_waiting,
                ..old(self)@
            }),
    {
        self.on_write.subscribe(cx);
    }

    /// The number of cursors that hold the slot.
    pub fn holders(&self) -> (n: usize)
        ensures
            n == self@.refs,
    {
        self.readers.current()
    }

    /// Whether the cell holds a value.
    pub fn is_occupied(&self) -> (b: bool)
        ensures
            b == (self@.value is Some),
    {
        self.value.is_some()
    }

    /// The content state of the cell.
    pub fn content(&self) -> (c: Content)
        ensures
            c == self@.content(),
    {
        if self.value.is_none() {
            Content::Empty
        } else if self.dead {
            Content::Dead
        } else {
            Content::Filled
        }
    }

    /// The number of readers that wait for a value.
    pub fn readers_waiting(&self) -> (n: usize)
        ensures
            n == self@.readers_waiting.len(),
    {
        self.on_write.pending()
    }

    /// The number of writers that wait for the slot to be released.
    pub fn writers_waiting(&self) -> (n: usize)
        ensures
            n == self@.writers_waiting.len(),
    {
        self.on_release.pending()
    }
}

} // verus!
