//! The circular buffer and its reader cursors.

use crate::protocol::{
    lemma_distinct_slots, lemma_enroll_holders, lemma_enroll_wf, lemma_holders_bounded,
    lemma_holders_excluding, lemma_reclaim_wf,
    lemma_same_slot, lemma_strike_holders, lemma_strike_wf, lemma_unheld_iff_no_holders,
    lemma_write_wf, Cursor, ReaderState, Ring,
};
use crate::notifier::subscribed;
use crate::ref_count::TryDecrement;
use crate::rr_lock;
use crate::rr_lock::{ReadReleaseLock, SlotView};
use crate::state_cell::{held_state, load_state, new_state, store_state};
use atomic::Atomic;
use std::task::Context;
use vstd::prelude::*;

verus! {

/// A fixed array of slots with the position of the next write (the head),
/// the position of the oldest value that still occupies a slot (the tail)
/// and the admission lock that guards the head.
pub struct MpmcCircularBuffer<T> {
    buffer: Vec<ReadReleaseLock<T>>,
    /// Marks the span in which the head is read and the slot that it names
    /// is taken: by a write, and by a cursor that advances. Every operation
    /// has the buffer to itself, so none ever finds the lock held and none
    /// reads it; it is kept to make that span explicit, and validity says
    /// that it is free between operations.
    head_lock: bool,
    head: usize,
    tail: usize,
    /// Every value written so far.
    log: Ghost<Seq<T>>,
    /// The register of cursors.
    cursors: Ghost<Map<nat, Cursor>>,
    /// The identity that the next cursor gets.
    next_id: Ghost<nat>,
}

/// Outcome of a write attempt.
#[derive(Debug)]
pub enum TryWrite<T> {
    /// The buffer is full: the value comes back.
    Pending(T),
    /// The value was written.
    Ready,
}

/// Outcome of a read attempt.
#[derive(Debug)]
pub enum TryRead<T> {
    /// A value is ready
    Ready(T),
    /// A value is pending in this slot
    Pending,
}

/// A consumer's position in the buffer.
pub struct BufferReader {
    index: usize,
    state: Atomic<ReaderState>,
    id: Ghost<nat>,
}

impl<T> View for MpmcCircularBuffer<T> {
    type V = Ring<T>;

    closed spec fn view(&self) -> Ring<T> {
        Ring {
            capacity: self.buffer@.len(),
            log: self.log@,
            tail: self.tail as nat,
            cursors: self.cursors@,
        }
    }
}

impl<T> MpmcCircularBuffer<T> {
    /// The slots, in physical order.
    pub closed spec fn slots(&self) -> Seq<SlotView<T>> {
        Seq::new(self.buffer@.len(), |s: int| self.buffer@[s]@)
    }

    /// The value in the slot that serves position `index`.
    pub open spec fn cell(&self, index: nat) -> Option<T> {
        self.slots()[self@.slot_of(index) as int].value
    }

    /// The number of cursors that hold the slot.
    pub open spec fn refs(&self, slot: nat) -> nat {
        self.slots()[slot as int].refs
    }

    /// The slots hold exactly the values between the tail and the head,
    /// each in the slot that serves its position.
    closed spec fn cells_match(&self) -> bool {
        &&& forall|i: nat|
            self.tail <= i < self.head ==> #[trigger] self.cell(i) == Some(self.log@[i as int])
        &&& forall|i: nat|
            self.head <= i < self.tail + self.buffer@.len() ==> #[trigger] self.cell(i) is None
    }

    /// Each slot counts the cursors whose position it serves, and one hold
    /// more on the slot `surplus`.
    closed spec fn counts_match(&self, surplus: Option<nat>) -> bool {
        forall|s: nat|
            s < self.buffer@.len() ==> #[trigger] self.refs(s) == self@.holders(s).len() + (
            if surplus == Some(s) {
                1nat
            } else {
                0nat
            })
    }

    /// What validity asks beyond the cells and the counts: the view is
    /// valid, the head is the length of the log, admission is free, every
    /// slot is well formed, every identity in use is below the next one and
    /// the number of cursors fits the counters.
    closed spec fn framed(&self) -> bool {
        &&& self@.wf()
        &&& self.head as nat == self.log@.len()
        &&& !self.head_lock
        &&& forall|s: int| 0 <= s < self.buffer@.len() ==> (#[trigger] self.slots()[s]).wf()
        &&& forall|id: nat| #[trigger] self.cursors@.contains_key(id) ==> id < self.next_id@
        &&& self.cursors@.dom().len() <= usize::MAX
    }

    /// The state agrees with its view, but for one hold on the slot
    /// `surplus` that no registered cursor accounts for.
    closed spec fn inv(&self, surplus: Option<nat>) -> bool {
        &&& self.framed()
        &&& self.cells_match()
        &&& self.counts_match(surplus)
    }

    /// The buffer is valid: its slots hold exactly the values between the
    /// tail and the head, each in the slot that serves its position, and
    /// each slot counts the cursors whose position it serves.
    pub closed spec fn wf(&self) -> bool {
        self.inv(None)
    }

    /// Whether a write or a cursor's advance holds the admission lock. No
    /// operation leaves it held.
    pub closed spec fn admission_held(&self) -> bool {
        self.head_lock
    }

    /// The cursor `reader` is registered with this buffer at its position
    /// and in its state.
    pub open spec fn holds(&self, reader: &BufferReader) -> bool {
        &&& self@.cursors.contains_key(reader.id())
        &&& self@.cursors[reader.id()] == reader.cursor()
    }

    /// What a valid buffer's slots hold.
    pub proof fn lemma_slots(&self)
        requires
            self.wf(),
        ensures
            self@.wf(),
            !self.admission_held(),
            self@.cursors.dom().len() <= usize::MAX,
            self.slots().len() == self@.capacity,
            forall|s: int| 0 <= s < self.slots().len() ==> (#[trigger] self.slots()[s]).wf(),
            forall|i: nat|
                self@.tail <= i < self@.head() ==> #[trigger] self.cell(i) == Some(
                    self@.log[i as int],
                ),
            forall|i: nat|
                self@.head() <= i < self@.tail + self@.capacity ==> #[trigger] self.cell(i) is None,
            forall|s: nat|
                s < self@.capacity ==> #[trigger] self.refs(s) == self@.holders(s).len(),
    {
    }

    /// The number of slots.
    pub fn len(&self) -> (n: usize)
        ensures
            n == self@.capacity,
    {
        self.buffer.len()
    }

    /// The position of the next value to be written.
    pub fn head(&self) -> (n: usize)
        requires
            self.wf(),
        ensures
            n == self@.head(),
    {
        self.head
    }

    /// The position of the oldest value that still occupies a slot.
    pub fn tail(&self) -> (n: usize)
        ensures
            n == self@.tail,
    {
        self.tail
    }

    /// The slot that serves position `id`.
    pub fn get_slot(&self, id: usize) -> (slot: &ReadReleaseLock<T>)
        requires
            self.wf(),
        ensures
            slot@ == self.slots()[self@.slot_of(id as nat) as int],
    {
        let index = id % self.len();
        &self.buffer[index]
    }

    /// A buffer of `capacity` slots, or of two if `capacity` is less, with
    /// its first cursor, which reads at position 0.
    pub fn new(capacity: usize) -> (made: (Self, BufferReader))
        ensures
            made.0.wf(),
            made.1.cursor() == (Cursor { index: 0, state: ReaderState::Reading }),
            made.0@ == (Ring::<T> {
                capacity: if capacity < 2 {
                    2
                } else {
                    capacity as nat
                },
                log: Seq::empty(),
                tail: 0,
                cursors: Map::empty().insert(made.1.id(), made.1.cursor()),
            }),
            forall|s: int| 0 <= s < made.0.slots().len() ==> #[trigger] made.0.slots()[s] == (
            SlotView::<T> {
                value: None,
                refs: if s == 0 {
                    1
                } else {
                    0
                },
                dead: false,
                readers_waiting: Seq::empty(),
                writers_waiting: Seq::empty(),
            }),
    {
        let capacity: usize = if capacity < 2 {
            2
        } else {
            capacity
        };
        let mut vec: Vec<ReadReleaseLock<T>> = Vec::new();
        while vec.len() < capacity
            invariant
                vec@.len() <= capacity,
                forall|s: int|
                    0 <= s < vec@.len() ==> #[trigger] vec@[s]@ == (SlotView::<T> {
                        value: None,
                        refs: 0,
                        dead: false,
                        readers_waiting: Seq::empty(),
                        writers_waiting: Seq::empty(),
                    }),
            decreases capacity - vec.len(),
        {
            vec.push(ReadReleaseLock::new());
        }
        vec[0].acquire();
        let ghost cursor = Cursor { index: 0, state: ReaderState::Reading };
        let this = MpmcCircularBuffer {
            buffer: vec,
            head_lock: false,
            head: 0,
            tail: 0,
            log: Ghost(Seq::empty()),
            cursors: Ghost(Map::empty().insert(0, cursor)),
            next_id: Ghost(1),
        };
        let reader = BufferReader {
            index: 0,
            state: new_state(ReaderState::Reading),
            id: Ghost(0),
        };
        proof {
            let empty = Ring::<T> {
                capacity: capacity as nat,
                log: Seq::empty(),
                tail: 0,
                cursors: Map::empty(),
            };
            assert(this@ == empty.enroll(0, cursor));
            assert(this@.cursors.dom() =~= set![0nat]);
            assert forall|s: nat| s < capacity implies #[trigger] this.refs(s) == this@.holders(
                s,
            ).len() by {
                assert(empty.holders(s) =~= Set::empty());
                lemma_enroll_holders(empty, 0, cursor, s);
                vstd::arithmetic::div_mod::lemma_small_mod(0, capacity as nat);
            }
            assert forall|i: nat| 0 <= i < capacity implies #[trigger] this.cell(i) is None by {
                vstd::arithmetic::div_mod::lemma_mod_bound(i as int, capacity as int);
            }
        }
        (this, reader)
    }

    /// Writes `value` at the head unless the buffer is full. A successful
    /// write wakes the readers that wait for the value; a refused one hands
    /// the value back and registers the writer to be woken when the slot at
    /// the head is released.
    pub fn try_write(&mut self, value: T, cx: &Context<'_>) -> (outcome: TryWrite<T>)
        requires
            old(self).wf(),
            !old(self)@.is_full() ==> old(self)@.head() < usize::MAX,
        ensures
            final(self).wf(),
            final(self)@ == old(self)@.write(value),
            outcome == (if old(self)@.is_full() {
                TryWrite::Pending(value)
            } else {
                TryWrite::Ready
            }),
            final(self).slots().len() == old(self).slots().len(),
            forall|s: int|
                0 <= s < old(self).slots().len() && s != old(self)@.slot_of(old(self)@.head())
                    ==> #[trigger] final(self).slots()[s] == old(self).slots()[s],
            ({
                let s = old(self)@.slot_of(old(self)@.head()) as int;
                let before = old(self).slots()[s];
                let after = final(self).slots()[s];
                if old(self)@.is_full() {
                    &&& subscribed(before.writers_waiting, *cx, after.writers_waiting)
                    &&& after == (SlotView { writers_waiting: after.writers_waiting, ..before })
                } else {
                    after == (SlotView {
                        value: Some(value),
                        readers_waiting: Seq::empty(),
                        ..before
                    })
                }
            }),
    {
        self.head_lock = true;
        let head_id = self.head;
        let index = head_id % self.buffer.len();
        proof {
            vstd::arithmetic::div_mod::lemma_mod_bound(head_id as int, self.buffer@.len() as int);
            assert(old(self).cell(head_id as nat) == old(self).slots()[index as int].value);
            if old(self)@.is_full() {
                lemma_same_slot(self.tail as nat, self.buffer@.len() as nat);
                assert(old(self).cell(self.tail as nat) is Some);
            }
        }
        match self.buffer[index].try_write(value, cx) {
            rr_lock::TryWrite::Ready => {
                self.head = head_id + 1;
                self.head_lock = false;
                self.log = Ghost(self.log@.push(value));
                proof {
                    self.lemma_written(*old(self), value);
                }
                TryWrite::Ready
            },
            rr_lock::TryWrite::Pending(v) => {
                self.head_lock = false;
                proof {
                    self.lemma_same_cells(*old(self), None);
                }
                TryWrite::Pending(v)
            },
        }
    }

    /// Registers a new cursor at the head, so that it never sees a value
    /// that was written before it was made. The cursor reads; only on a full
    /// buffer, where the slot of the head still holds the oldest value, is it
    /// blocked until the value of its own position is written.
    pub fn new_reader(&mut self) -> (reader: BufferReader)
        requires
            old(self).wf(),
            old(self)@.cursors.dom().len() < usize::MAX,
        ensures
            final(self).wf(),
            !old(self)@.cursors.contains_key(reader.id()),
            reader.cursor() == old(self)@.joining(),
            final(self)@ == old(self)@.enroll(reader.id(), reader.cursor()),
            ({
                let s = old(self)@.slot_of(old(self)@.head()) as int;
                let before = old(self).slots()[s];
                final(self).slots() == old(self).slots().update(
                    s,
                    before.entered(before.readers_waiting),
                )
            }),
    {
        let index = self.head;
        let s = index % self.buffer.len();
        let state = if index - self.tail == self.buffer.len() {
            ReaderState::Blocked
        } else {
            ReaderState::Reading
        };
        let ghost id = self.next_id@;
        let ghost cursor = Cursor { index: index as nat, state };
        proof {
            vstd::arithmetic::div_mod::lemma_mod_bound(index as int, self.buffer@.len() as int);
            assert(self.refs(s as nat) == self@.holders(s as nat).len());
            lemma_holders_bounded(self@, s as nat);
            if self.cursors@.contains_key(id) {
                assert(id < self.next_id@);
            }
        }
        self.buffer[s].acquire();
        self.cursors = Ghost(self.cursors@.insert(id, cursor));
        self.next_id = Ghost(id + 1);
        proof {
            self.lemma_enrolled(*old(self), id, cursor, None);
            assert(self.slots() =~= old(self).slots().update(
                s as int,
                old(self).slots()[s as int].entered(old(self).slots()[s as int].readers_waiting),
            ));
        }
        BufferReader { index, state: new_state(state), id: Ghost(id) }
    }

    /// Slots that are unchanged or well formed are all well formed.
    proof fn lemma_slots_wf(&self, before: Self)
        requires
            self.buffer@.len() == before.buffer@.len(),
            forall|s: int| 0 <= s < before.buffer@.len() ==> (#[trigger] before.slots()[s]).wf(),
            forall|s: int|
                0 <= s < self.buffer@.len() ==> (#[trigger] self.slots()[s]).wf() || self.slots()[s]
                    == before.slots()[s],
        ensures
            forall|s: int| 0 <= s < self.buffer@.len() ==> (#[trigger] self.slots()[s]).wf(),
    {
        assert forall|s: int| 0 <= s < self.buffer@.len() implies (#[trigger] self.slots()[
            s
        ]).wf() by {
            assert(before.slots()[s].wf());
        }
    }

    /// Where every slot kept its value, but for the one that serves the
    /// position `but`, every position less than a capacity away from `but`
    /// still finds the value that it found before.
    proof fn lemma_cells_kept(&self, before: Self, but: Option<nat>)
        requires
            0 < self.buffer@.len() == before.buffer@.len(),
            forall|s: int|
                0 <= s < self.buffer@.len() && (but matches Some(p) ==> s != before@.slot_of(p))
                    ==> (#[trigger] self.slots()[s]).value == before.slots()[s].value,
        ensures
            forall|i: nat|
                (but matches Some(p) ==> p < i < p + self.buffer@.len() || i < p < i
                    + self.buffer@.len()) ==> #[trigger] self.cell(i) == before.cell(i),
    {
        let capacity = self.buffer@.len() as nat;
        assert forall|i: nat|
            (but matches Some(p) ==> p < i < p + capacity || i < p < i
                + capacity) implies #[trigger] self.cell(i) == before.cell(i) by {
            vstd::arithmetic::div_mod::lemma_mod_bound(i as int, capacity as int);
            if let Some(p) = but {
                if p < i {
                    lemma_distinct_slots(p, i, capacity);
                } else {
                    lemma_distinct_slots(i, p, capacity);
                }
            }
        }
    }

    /// A change that keeps the log, the head, the tail and the value of
    /// every slot keeps the buffer framed and its cells matching.
    proof fn lemma_frame(&self, before: Self)
        requires
            before.framed(),
            before.cells_match(),
            self@.wf(),
            self@.log == before@.log,
            self@.tail == before@.tail,
            self.head == before.head,
            self.head_lock == before.head_lock,
            self.buffer@.len() == before.buffer@.len(),
            self.next_id@ >= before.next_id@,
            self.cursors@.dom().len() <= usize::MAX,
            forall|id: nat| #[trigger]
                self.cursors@.contains_key(id) ==> before.cursors@.contains_key(id) || id
                    < self.next_id@,
            forall|s: int|
                0 <= s < self.buffer@.len() ==> (#[trigger] self.slots()[s]).value
                    == before.slots()[s].value,
            forall|s: int|
                0 <= s < self.buffer@.len() ==> (#[trigger] self.slots()[s]).wf() || self.slots()[s]
                    == before.slots()[s],
        ensures
            self.framed(),
            self.cells_match(),
    {
        self.lemma_slots_wf(before);
        assert forall|id: nat| #[trigger] self.cursors@.contains_key(id) implies id
            < self.next_id@ by {
            if before.cursors@.contains_key(id) {
                assert(id < before.next_id@);
            }
        }
        self.lemma_cells_kept(before, None);
    }

    /// With the same cursors, the counts match once the surplus hold has
    /// been taken off its slot.
    proof fn lemma_counts_kept(&self, before: Self, surplus: Option<nat>)
        requires
            before.counts_match(surplus),
            self@.cursors == before@.cursors,
            self.buffer@.len() == before.buffer@.len(),
            forall|s: nat|
                s < self.buffer@.len() ==> #[trigger] self.refs(s) + (if surplus == Some(s) {
                    1nat
                } else {
                    0nat
                }) == before.refs(s),
        ensures
            self.counts_match(None),
    {
        assert forall|s: nat| s < self.buffer@.len() implies #[trigger] self.refs(s)
            == self@.holders(s).len() by {
            assert(before.refs(s) == before@.holders(s).len() + (if surplus == Some(s) {
                1nat
            } else {
                0nat
            }));
            assert(self@.holders(s) =~= before@.holders(s));
        }
    }

    /// The buffer is valid after a change that kept the view and every
    /// cell, and took the hold `surplus`, if any, off its slot.
    proof fn lemma_same_cells(&self, before: Self, surplus: Option<nat>)
        requires
            before.inv(surplus),
            self@ == before@,
            self.head == before.head,
            self.head_lock == before.head_lock,
            self.next_id@ == before.next_id@,
            forall|s: int|
                0 <= s < self.buffer@.len() ==> (#[trigger] self.slots()[s]).value
                    == before.slots()[s].value,
            forall|s: nat|
                s < self.buffer@.len() ==> #[trigger] self.refs(s) + (if surplus == Some(s) {
                    1nat
                } else {
                    0nat
                }) == before.refs(s),
            forall|s: int|
                0 <= s < self.buffer@.len() ==> (#[trigger] self.slots()[s]).wf() || self.slots()[s]
                    == before.slots()[s],
        ensures
            self.inv(None),
    {
        self.lemma_frame(before);
        self.lemma_counts_kept(before, surplus);
    }

    /// The buffer after the cursor `id` has been registered, moved or put
    /// into another state, where the slot of its new position has gained a
    /// hold: valid, but for the hold on the slot `surplus` that it left
    /// without giving it up.
    proof fn lemma_enrolled(&self, before: Self, id: nat, cursor: Cursor, surplus: Option<nat>)
        requires
            before.inv(None),
            before@.fits(cursor),
            before@.cursors.contains_key(id) || before@.cursors.dom().len() < usize::MAX,
            self@ == before@.enroll(id, cursor),
            self.head == before.head,
            self.head_lock == before.head_lock,
            self.next_id@ > id,
            self.next_id@ >= before.next_id@,
            self.buffer@.len() == before.buffer@.len(),
            forall|s: int|
                0 <= s < self.buffer@.len() ==> (#[trigger] self.slots()[s]).value
                    == before.slots()[s].value,
            forall|s: nat|
                s < self.buffer@.len() ==> #[trigger] self.refs(s) + (if before@.holders(
                    s,
                ).contains(id) {
                    1nat
                } else {
                    0nat
                }) == before.refs(s) + (if self@.slot_of(cursor.index) == s {
                    1nat
                } else {
                    0nat
                }) + (if surplus == Some(s) {
                    1nat
                } else {
                    0nat
                }),
            forall|s: int|
                0 <= s < self.buffer@.len() ==> (#[trigger] self.slots()[s]).wf() || self.slots()[s]
                    == before.slots()[s],
        ensures
            self.inv(surplus),
    {
        lemma_enroll_wf(before@, id, cursor);
        assert(self@.cursors.dom() =~= before@.cursors.dom().insert(id));
        self.lemma_frame(before);
        assert forall|s: nat| s < self.buffer@.len() implies #[trigger] self.refs(s)
            == self@.holders(s).len() + (if surplus == Some(s) {
            1nat
        } else {
            0nat
        }) by {
            assert(before.refs(s) == before@.holders(s).len());
            lemma_enroll_holders(before@, id, cursor, s);
        }
    }

    /// The buffer after a cursor has been taken off the register: valid if
    /// the cursor's hold was given up with it, and otherwise with that hold
    /// as a surplus.
    proof fn lemma_struck(&self, before: Self, id: nat, given_up: bool)
        requires
            before.inv(None),
            before@.cursors.contains_key(id),
            self@ == before@.strike(id),
            self.head == before.head,
            self.head_lock == before.head_lock,
            self.next_id@ == before.next_id@,
            self.buffer@.len() == before.buffer@.len(),
            forall|s: int|
                0 <= s < self.buffer@.len() ==> (#[trigger] self.slots()[s]).value
                    == before.slots()[s].value,
            forall|s: nat|
                s < self.buffer@.len() ==> #[trigger] self.refs(s) + (if given_up
                    && before@.slot_of(before@.cursors[id].index) == s {
                    1nat
                } else {
                    0nat
                }) == before.refs(s),
            forall|s: int|
                0 <= s < self.buffer@.len() ==> (#[trigger] self.slots()[s]).wf() || self.slots()[s]
                    == before.slots()[s],
        ensures
            self.inv(
                if given_up {
                    None
                } else {
                    Some(before@.slot_of(before@.cursors[id].index))
                },
            ),
    {
        lemma_strike_wf(before@, id);
        assert(self@.cursors.dom() =~= before@.cursors.dom().remove(id));
        self.lemma_frame(before);
        assert forall|s: nat| s < self.buffer@.len() implies #[trigger] self.refs(s)
            == self@.holders(s).len() + (if !given_up && before@.slot_of(
            before@.cursors[id].index,
        ) == s {
            1nat
        } else {
            0nat
        }) by {
            assert(before.refs(s) == before@.holders(s).len());
            lemma_strike_holders(before@, id, s);
        }
    }

    /// The buffer is valid after a value has been written to the empty slot
    /// at the head.
    proof fn lemma_written(&self, before: Self, value: T)
        requires
            before.inv(None),
            !before@.is_full(),
            self@ == before@.write(value),
            self.head == before.head + 1,
            self.head_lock == before.head_lock,
            self.next_id@ == before.next_id@,
            self.buffer@.len() == before.buffer@.len(),
            self.cell(before@.head()) == Some(value),
            forall|s: int|
                0 <= s < self.buffer@.len() && s != before@.slot_of(before@.head())
                    ==> #[trigger] self.slots()[s] == before.slots()[s],
            forall|s: nat| s < self.buffer@.len() ==> #[trigger] self.refs(s) == before.refs(s),
            self.slots()[before@.slot_of(before@.head()) as int].wf(),
        ensures
            self.inv(None),
    {
        lemma_write_wf(before@, value);
        self.lemma_slots_wf(before);
        self.lemma_counts_kept(before, None);
        self.lemma_cells_kept(before, Some(before@.head()));
    }

    /// The buffer is valid after the oldest value, whose slot had one last
    /// hold that no registered cursor accounted for, has been reclaimed.
    proof fn lemma_reclaimed(&self, before: Self)
        requires
            before.inv(Some(before@.slot_of(before@.tail))),
            before@.tail < before@.head(),
            before@.unheld(before@.slot_of(before@.tail)),
            self@ == before@.reclaim(before@.tail),
            self.head == before.head,
            self.head_lock == before.head_lock,
            self.next_id@ == before.next_id@,
            self.buffer@.len() == before.buffer@.len(),
            self.cell(before@.tail) is None,
            forall|s: int|
                0 <= s < self.buffer@.len() && s != before@.slot_of(before@.tail)
                    ==> #[trigger] self.slots()[s] == before.slots()[s],
            forall|s: nat|
                s < self.buffer@.len() ==> #[trigger] self.refs(s) + (if Some(
                    before@.slot_of(before@.tail),
                ) == Some(s) {
                    1nat
                } else {
                    0nat
                }) == before.refs(s),
            self.slots()[before@.slot_of(before@.tail) as int].wf(),
        ensures
            self.inv(None),
    {
        let tail = before@.tail;
        lemma_reclaim_wf(before@, tail);
        self.lemma_slots_wf(before);
        self.lemma_counts_kept(before, Some(before@.slot_of(tail)));
        self.lemma_cells_kept(before, Some(tail));
        lemma_same_slot(tail, self.buffer@.len() as nat);
    }

    /// The slot of a registered cursor is in range and held, and it holds
    /// the value of the cursor's position if that has been written. Under a
    /// cursor that reads at the head it is empty.
    proof fn lemma_cursor_slot(&self, id: nat)
        requires
            self.wf(),
            self@.cursors.contains_key(id),
        ensures
            self@.slot_of(self@.cursors[id].index) < self.buffer@.len(),
            self.refs(self@.slot_of(self@.cursors[id].index)) > 0,
            self@.cursors[id].index < self@.head() ==> self.cell(self@.cursors[id].index) == Some(
                self@.log[self@.cursors[id].index as int],
            ),
            self@.cursors[id].index == self@.head() && self@.cursors[id].state
                == ReaderState::Reading ==> self.cell(self@.cursors[id].index) is None,
    {
        let index = self@.cursors[id].index;
        let s = self@.slot_of(index);
        vstd::arithmetic::div_mod::lemma_mod_bound(index as int, self.buffer@.len() as int);
        assert(self.refs(s) == self@.holders(s).len());
        lemma_strike_holders(self@, id, s);
        assert(self@.holders(s).contains(id));
    }
}

impl BufferReader {
    /// The identity under which the cursor is registered.
    pub closed spec fn id(&self) -> nat {
        self.id@
    }

    /// The position of the next value that the cursor will read.
    pub closed spec fn index(&self) -> nat {
        self.index as nat
    }

    /// Whether the cursor reads or waits.
    pub closed spec fn state(&self) -> ReaderState {
        held_state(self.state)
    }

    /// The cursor as the register records it.
    pub open spec fn cursor(&self) -> Cursor {
        Cursor { index: self.index(), state: self.state() }
    }

    /// The position of the next value that the cursor will read.
    pub fn position(&self) -> (n: usize)
        ensures
            n == self.index(),
    {
        self.index
    }

    /// Whether the cursor reads or waits.
    pub fn current_state(&self) -> (state: ReaderState)
        ensures
            state == self.state(),
    {
        load_state(&self.state)
    }

    /// Tries to read the value at the cursor's position. If it has been
    /// written, the cursor hands out a copy, moves on to the next position
    /// and gives up the slot it leaves, which is reclaimed if it is the
    /// oldest and nobody else holds it. Otherwise the reader is registered
    /// to be woken by the write.
    pub fn try_read<T>(&mut self, buffer: &mut MpmcCircularBuffer<T>, cx: &Context<'_>) -> (outcome:
        TryRead<T>) where T: Clone
        requires
            old(buffer).wf(),
            old(buffer).holds(old(self)),
        ensures
            final(buffer).wf(),
            final(buffer).holds(final(self)),
            final(self).id() == old(self).id(),
            final(buffer)@ == old(buffer)@.read(old(self).id()),
            match outcome {
                TryRead::Ready(value) => old(self).index() < old(buffer)@.head() && cloned(
                    old(buffer)@.log[old(self).index() as int],
                    value,
                ),
                TryRead::Pending => old(self).index() >= old(buffer)@.head(),
            },
            outcome is Pending ==> ({
                let s = old(buffer)@.slot_of(old(self).index()) as int;
                let before = old(buffer).slots()[s];
                let after = final(buffer).slots()[s];
                &&& subscribed(before.readers_waiting, *cx, after.readers_waiting)
                &&& final(buffer).slots() == old(buffer).slots().update(
                    s,
                    SlotView { readers_waiting: after.readers_waiting, ..before },
                )
            }),
            outcome is Ready ==> ({
                let here = old(buffer)@.slot_of(old(self).index()) as int;
                let next = old(buffer)@.slot_of(old(self).index() + 1) as int;
                let waiting = final(buffer).slots()[next].readers_waiting;
                &&& final(buffer).slots() == old(buffer).slots().update(
                    next,
                    old(buffer).slots()[next].entered(waiting),
                ).update(
                    here,
                    old(buffer).slots()[here].left(final(buffer)@.tail != old(buffer)@.tail),
                )
                &&& if final(self).state() == ReaderState::Blocked {
                    subscribed(old(buffer).slots()[next].readers_waiting, *cx, waiting)
                } else {
                    waiting == old(buffer).slots()[next].readers_waiting
                }
            }),
    {
        let ghost rid = self.id@;
        let ghost capacity = buffer.buffer@.len() as nat;
        let index = self.index;
        let s = index % buffer.buffer.len();
        proof {
            buffer.lemma_cursor_slot(rid);
        }
        match load_state(&self.state) {
            ReaderState::Blocked => {
                let head = buffer.head;
                if index >= head {
                    buffer.buffer[s].subscribe_write(cx);
                    proof {
                        buffer.lemma_same_cells(*old(buffer), None);
                        assert(buffer.slots() =~= old(buffer).slots().update(
                            s as int,
                            SlotView {
                                readers_waiting: buffer.slots()[s as int].readers_waiting,
                                ..old(buffer).slots()[s as int]
                            },
                        ));
                    }
                    return TryRead::Pending;
                }
                store_state(&mut self.state, ReaderState::Reading);
                buffer.cursors = Ghost(
                    buffer.cursors@.insert(
                        rid,
                        Cursor { index: index as nat, state: ReaderState::Reading },
                    ),
                );
                proof {
                    buffer.lemma_enrolled(
                        *old(buffer),
                        rid,
                        Cursor { index: index as nat, state: ReaderState::Reading },
                        None,
                    );
                    assert(buffer.slots() =~= old(buffer).slots());
                }
            },
            ReaderState::Reading => {},
        }
        let ghost mid = *buffer;
        proof {
            buffer.lemma_cursor_slot(rid);
        }
        match buffer.buffer[s].try_read(cx) {
            rr_lock::TryRead::NotLocked => {
                vstd::pervasive::unreached()
            },
            rr_lock::TryRead::Read(value) => {
                proof {
                    buffer.lemma_same_cells(mid, None);
                }
                let ghost held = *buffer;
                self.advance(index, buffer, cx);
                let ghost passed = *buffer;
                self.release(index, buffer);
                proof {
                    assert(mid@.pass(rid).cursors =~= old(buffer)@.pass(rid).cursors);
                    assert(buffer@.cursors.contains_key(rid));
                    let here = s as int;
                    let next = old(buffer)@.slot_of(index as nat + 1) as int;
                    vstd::arithmetic::div_mod::lemma_mod_bound(index + 1, capacity as int);
                    lemma_distinct_slots(index as nat, index as nat + 1, capacity);
                    assert(held.slots() =~= old(buffer).slots());
                    assert(passed.slots()[here] == old(buffer).slots()[here]);
                }
                TryRead::Ready(value)
            },
            rr_lock::TryRead::Pending => {
                proof {
                    buffer.lemma_same_cells(mid, None);
                    assert(buffer.slots() =~= old(buffer).slots().update(
                        s as int,
                        SlotView {
                            readers_waiting: buffer.slots()[s as int].readers_waiting,
                            ..old(buffer).slots()[s as int]
                        },
                    ));
                }
                TryRead::Pending
            },
        }
    }

    /// Registers another cursor at this cursor's position and in its state.
    /// Both hold the slot.
    pub fn clone<T>(&self, buffer: &mut MpmcCircularBuffer<T>) -> (copy: Self)
        requires
            old(buffer).wf(),
            old(buffer).holds(self),
            old(buffer)@.cursors.dom().len() < usize::MAX,
        ensures
            final(buffer).wf(),
            !old(buffer)@.cursors.contains_key(copy.id()),
            copy.cursor() == self.cursor(),
            final(buffer)@ == old(buffer)@.enroll(copy.id(), copy.cursor()),
            final(buffer).holds(self),
            final(buffer).holds(&copy),
            ({
                let s = old(buffer)@.slot_of(self.index()) as int;
                let before = old(buffer).slots()[s];
                final(buffer).slots() == old(buffer).slots().update(
                    s,
                    before.entered(before.readers_waiting),
                )
            }),
    {
        let index = self.index;
        let s = index % buffer.buffer.len();
        let state = load_state(&self.state);
        let ghost id = buffer.next_id@;
        let ghost cursor = Cursor { index: index as nat, state };
        proof {
            buffer.lemma_cursor_slot(self.id@);
            assert(buffer.refs(s as nat) == buffer@.holders(s as nat).len());
            lemma_holders_bounded(buffer@, s as nat);
            if buffer.cursors@.contains_key(id) {
                assert(id < buffer.next_id@);
            }
        }
        buffer.buffer[s].acquire();
        buffer.cursors = Ghost(buffer.cursors@.insert(id, cursor));
        buffer.next_id = Ghost(id + 1);
        proof {
            buffer.lemma_enrolled(*old(buffer), id, cursor, None);
            assert(buffer.slots() =~= old(buffer).slots().update(
                s as int,
                SlotView {
                    refs: old(buffer).slots()[s as int].refs + 1,
                    dead: false,
                    ..old(buffer).slots()[s as int]
                },
            ));
        }
        BufferReader { index, state: new_state(state), id: Ghost(id) }
    }

    /// Disposes of the cursor. A blocked cursor withdraws its reservation; a
    /// reading cursor gives up its slot, which is reclaimed if it is the
    /// oldest and nobody else holds it. Afterwards the cursor is no longer
    /// registered.
    pub fn drop<T>(&mut self, buffer: &mut MpmcCircularBuffer<T>)
        requires
            old(buffer).wf(),
            old(buffer).holds(old(self)),
        ensures
            final(buffer).wf(),
            final(buffer)@ == old(buffer)@.retire(old(self).id()),
            !final(buffer)@.cursors.contains_key(old(self).id()),
            final(self).id() == old(self).id(),
            final(self).cursor() == old(self).cursor(),
            ({
                let here = old(buffer)@.slot_of(old(self).index()) as int;
                final(buffer).slots() == old(buffer).slots().update(
                    here,
                    old(buffer).slots()[here].left(final(buffer)@.tail != old(buffer)@.tail),
                )
            }),
    {
        let ghost rid = self.id@;
        let index = self.index;
        let s = index % buffer.buffer.len();
        proof {
            buffer.lemma_cursor_slot(rid);
        }
        match load_state(&self.state) {
            ReaderState::Blocked => {
                buffer.buffer[s].decrement_next();
                buffer.cursors = Ghost(buffer.cursors@.remove(rid));
                proof {
                    buffer.lemma_struck(*old(buffer), rid, true);
                }
            },
            ReaderState::Reading => {
                buffer.cursors = Ghost(buffer.cursors@.remove(rid));
                proof {
                    buffer.lemma_struck(*old(buffer), rid, false);
                }
                self.release(index, buffer);
            },
        }
    }

    /// Moves the cursor from position `id`, whose value it has read, to the
    /// next one. The slot of the next position gains a hold; if its value
    /// has not been written, the cursor blocks and registers to be woken by
    /// the write. The hold on the slot of `id` stays, to be given up next.
    fn advance<T>(&mut self, id: usize, buffer: &mut MpmcCircularBuffer<T>, cx: &Context<'_>)
        requires
            old(buffer).wf(),
            old(buffer).holds(old(self)),
            old(self).state() == ReaderState::Reading,
            id == old(self).index(),
            id < old(buffer)@.head(),
        ensures
            final(buffer).inv(Some(old(buffer)@.slot_of(id as nat))),
            final(buffer)@ == old(buffer)@.pass(old(self).id()),
            final(buffer).holds(final(self)),
            final(self).id() == old(self).id(),
            final(self).index() == id + 1,
            ({
                let next = old(buffer)@.slot_of(id as nat + 1) as int;
                let waiting = final(buffer).slots()[next].readers_waiting;
                &&& final(buffer).slots() == old(buffer).slots().update(
                    next,
                    old(buffer).slots()[next].entered(waiting),
                )
                &&& if final(self).state() == ReaderState::Blocked {
                    subscribed(old(buffer).slots()[next].readers_waiting, *cx, waiting)
                } else {
                    waiting == old(buffer).slots()[next].readers_waiting
                }
            }),
    {
        let ghost rid = self.id@;
        let ghost capacity = buffer.buffer@.len() as nat;
        let next_id = id + 1;
        let next = next_id % buffer.buffer.len();
        proof {
            vstd::arithmetic::div_mod::lemma_mod_bound(next_id as int, capacity as int);
            vstd::arithmetic::div_mod::lemma_mod_bound(id as int, capacity as int);
            lemma_distinct_slots(id as nat, next_id as nat, capacity);
            assert(buffer.refs(next as nat) == buffer@.holders(next as nat).len());
            lemma_holders_excluding(buffer@, next as nat, rid);
        }
        buffer.head_lock = true;
        let head_id = buffer.head;
        if next_id >= head_id {
            buffer.buffer[next].acquire_next();
            buffer.head_lock = false;
            store_state(&mut self.state, ReaderState::Blocked);
            buffer.buffer[next].subscribe_write(cx);
        } else {
            buffer.buffer[next].acquire();
            buffer.head_lock = false;
        }
        self.index = next_id;
        let ghost cursor = Cursor { index: next_id as nat, state: self.state() };
        buffer.cursors = Ghost(buffer.cursors@.insert(rid, cursor));
        proof {
            buffer.lemma_enrolled(
                *old(buffer),
                rid,
                cursor,
                Some(old(buffer)@.slot_of(id as nat)),
            );
        }
    }

    /// Gives up the hold on the slot of position `id` that no registered
    /// cursor accounts for. If it was the last hold on the oldest value, the
    /// slot is released and the tail moves on.
    fn release<T>(&self, id: usize, buffer: &mut MpmcCircularBuffer<T>)
        requires
            old(buffer).inv(Some(old(buffer)@.slot_of(id as nat))),
            old(buffer)@.tail <= id <= old(buffer)@.head(),
            id == old(buffer)@.head() ==> !old(buffer)@.is_full(),
        ensures
            final(buffer).wf(),
            final(buffer)@ == old(buffer)@.reclaim(id as nat),
            ({
                let here = old(buffer)@.slot_of(id as nat) as int;
                final(buffer).slots() == old(buffer).slots().update(
                    here,
                    old(buffer).slots()[here].left(final(buffer)@.tail != old(buffer)@.tail),
                )
            }),
    {
        let ghost capacity = buffer.buffer@.len() as nat;
        let s = id % buffer.buffer.len();
        proof {
            vstd::arithmetic::div_mod::lemma_mod_bound(id as int, capacity as int);
            assert(buffer.refs(s as nat) == buffer@.holders(s as nat).len() + 1);
            lemma_unheld_iff_no_holders(buffer@, s as nat);
            if id < buffer.head {
                assert(buffer.cell(id as nat) == Some(buffer.log@[id as int]));
            } else {
                assert(buffer.cell(id as nat) is None);
            }
        }
        match buffer.buffer[s].decrement() {
            TryDecrement::Alive => {
                proof {
                    buffer.lemma_same_cells(*old(buffer), Some(s as nat));
                }
            },
            TryDecrement::Dead => {
                let tail = buffer.tail;
                if id == tail {
                    match buffer.buffer[s].release() {
                        Ok(()) => {
                            buffer.tail = tail + 1;
                            proof {
                                buffer.lemma_reclaimed(*old(buffer));
                            }
                        },
                        Err(_) => {
                            proof {
                                buffer.lemma_same_cells(*old(buffer), Some(s as nat));
                            }
                        },
                    }
                } else {
                    proof {
                        buffer.lemma_same_cells(*old(buffer), Some(s as nat));
                    }
                }
            },
        }
    }
}

} // verus!
