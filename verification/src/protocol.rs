//! The protocol as a mathematical state: the values written so far, the
//! reclamation frontier and the registered cursors.

use vstd::arithmetic::div_mod::{
    lemma_mod_add_multiples_vanish, lemma_mod_equivalence, lemma_small_mod,
};
use vstd::prelude::*;

verus! {

/// The state of a reader cursor.
#[derive(Clone, Copy, Debug, PartialEq, Eq, Structural)]
pub enum ReaderState {
    /// The cursor consumes the value at its position.
    Reading,
    /// The cursor waits for the value at its position to be written.
    Blocked,
}

/// A registered cursor: its position in write order and its state.
pub struct Cursor {
    /// The position of the next value that the cursor will read.
    pub index: nat,
    /// Whether the cursor reads or waits.
    pub state: ReaderState,
}

/// The buffer as contracts see it.
pub struct Ring<T> {
    /// The number of slots.
    pub capacity: nat,
    /// Every value written so far, in write order.
    pub log: Seq<T>,
    /// The position of the oldest value that still occupies a slot.
    pub tail: nat,
    /// The registered cursors, by identity.
    pub cursors: Map<nat, Cursor>,
}

impl<T> Ring<T> {
    /// The position of the next value to be written.
    pub open spec fn head(self) -> nat {
        self.log.len()
    }

    /// The slot that serves a position.
    pub open spec fn slot_of(self, index: nat) -> nat {
        index % self.capacity
    }

    /// Every slot holds a value that has not been reclaimed.
    pub open spec fn is_full(self) -> bool {
        self.head() == self.tail + self.capacity
    }

    /// The cursors whose position is served by `slot`.
    pub open spec fn holders(self, slot: nat) -> Set<nat> {
        Set::new(
            |id: nat| self.cursors.contains_key(id) && self.slot_of(self.cursors[id].index) == slot,
        )
    }

    /// No cursor has its position served by `slot`.
    pub open spec fn unheld(self, slot: nat) -> bool {
        forall|id: nat| #[trigger]
            self.cursors.contains_key(id) ==> self.slot_of(self.cursors[id].index) != slot
    }

    /// The cursor stands between the tail and the head, and if it reads at
    /// the head, it stands on an empty slot.
    pub open spec fn fits(self, cursor: Cursor) -> bool {
        &&& self.tail <= cursor.index <= self.head()
        &&& (cursor.state == ReaderState::Reading && cursor.index == self.head()
            ==> !self.is_full())
    }

    /// The invariant of the protocol: the values that occupy slots are the
    /// last `head - tail` of the log and fit the capacity, and every
    /// registered cursor fits.
    pub open spec fn wf(self) -> bool {
        &&& 2 <= self.capacity
        &&& self.tail <= self.head() <= self.tail + self.capacity
        &&& self.cursors.dom().finite()
        &&& forall|id: nat| #[trigger]
            self.cursors.contains_key(id) ==> self.fits(self.cursors[id])
    }

    /// A write attempt: the value is appended unless the buffer is full.
    pub open spec fn write(self, value: T) -> Ring<T> {
        if self.is_full() {
            self
        } else {
            Ring { log: self.log.push(value), ..self }
        }
    }

    /// The cursor that a new reader starts as: at the head, reading. Only
    /// on a full buffer, where the slot of the head still holds the oldest
    /// value, does it start blocked, so that it waits for the value of its
    /// own position.
    pub open spec fn joining(self) -> Cursor {
        Cursor {
            index: self.head(),
            state: if self.is_full() {
                ReaderState::Blocked
            } else {
                ReaderState::Reading
            },
        }
    }

    /// A cursor is registered under a new identity.
    pub open spec fn enroll(self, id: nat, cursor: Cursor) -> Ring<T> {
        Ring { cursors: self.cursors.insert(id, cursor), ..self }
    }

    /// A cursor is taken off the register.
    pub open spec fn strike(self, id: nat) -> Ring<T> {
        Ring { cursors: self.cursors.remove(id), ..self }
    }

    /// The cursor moves past the value at its position. It blocks if the
    /// next value has not been written.
    pub open spec fn pass(self, id: nat) -> Ring<T> {
        let next = self.cursors[id].index + 1;
        let state = if next >= self.head() {
            ReaderState::Blocked
        } else {
            ReaderState::Reading
        };
        self.enroll(id, Cursor { index: next, state })
    }

    /// The value at `index` is reclaimed if it is the oldest one and no
    /// cursor holds its slot.
    pub open spec fn reclaim(self, index: nat) -> Ring<T> {
        if index == self.tail && index < self.head() && self.unheld(self.slot_of(index)) {
            Ring { tail: self.tail + 1, ..self }
        } else {
            self
        }
    }

    /// A read attempt by a registered cursor: if the value at its position
    /// has been written, the cursor passes it and the value is reclaimed
    /// where that is due.
    pub open spec fn read(self, id: nat) -> Ring<T> {
        let index = self.cursors[id].index;
        if index < self.head() {
            self.pass(id).reclaim(index)
        } else {
            self
        }
    }

    /// A registered cursor is disposed of. A reading cursor gives its slot
    /// up for reclamation; a blocked cursor only withdraws its reservation.
    pub open spec fn retire(self, id: nat) -> Ring<T> {
        let cursor = self.cursors[id];
        match cursor.state {
            ReaderState::Reading => self.strike(id).reclaim(cursor.index),
            ReaderState::Blocked => self.strike(id),
        }
    }
}

/// A write attempt keeps the invariant of the protocol.
pub proof fn lemma_write_wf<T>(ring: Ring<T>, value: T)
    requires
        ring.wf(),
    ensures
        ring.write(value).wf(),
{
}

/// Registering a cursor that fits keeps the invariant.
pub proof fn lemma_enroll_wf<T>(ring: Ring<T>, id: nat, cursor: Cursor)
    requires
        ring.wf(),
        ring.fits(cursor),
    ensures
        ring.enroll(id, cursor).wf(),
{
}

/// Taking a cursor off the register keeps the invariant.
pub proof fn lemma_strike_wf<T>(ring: Ring<T>, id: nat)
    requires
        ring.wf(),
    ensures
        ring.strike(id).wf(),
{
}

/// Reclaiming keeps the invariant.
pub proof fn lemma_reclaim_wf<T>(ring: Ring<T>, index: nat)
    requires
        ring.wf(),
    ensures
        ring.reclaim(index).wf(),
{
}

/// A read attempt by a registered cursor keeps the invariant.
pub proof fn lemma_read_wf<T>(ring: Ring<T>, id: nat)
    requires
        ring.wf(),
        ring.cursors.contains_key(id),
    ensures
        ring.read(id).wf(),
{
    if ring.cursors[id].index < ring.head() {
        lemma_enroll_wf(ring, id, ring.pass(id).cursors[id]);
        lemma_reclaim_wf(ring.pass(id), ring.cursors[id].index);
    }
}

/// Disposing of a registered cursor keeps the invariant.
pub proof fn lemma_retire_wf<T>(ring: Ring<T>, id: nat)
    requires
        ring.wf(),
        ring.cursors.contains_key(id),
    ensures
        ring.retire(id).wf(),
{
    lemma_strike_wf(ring, id);
    lemma_reclaim_wf(ring.strike(id), ring.cursors[id].index);
}

/// Two positions less than a capacity apart are served by different slots.
pub proof fn lemma_distinct_slots(a: nat, b: nat, capacity: nat)
    requires
        a < b < a + capacity,
    ensures
        a % capacity != b % capacity,
{
    lemma_mod_equivalence(b as int, a as int, capacity as int);
    lemma_small_mod((b - a) as nat, capacity);
}

/// Positions a whole capacity apart are served by the same slot.
pub proof fn lemma_same_slot(a: nat, capacity: nat)
    requires
        0 < capacity,
    ensures
        (a + capacity) % capacity == a % capacity,
{
    lemma_mod_add_multiples_vanish(a as int, capacity as int);
}


/// The holders of a slot are finitely many, and no more than there are
/// registered cursors.
pub proof fn lemma_holders_bounded<T>(ring: Ring<T>, slot: nat)
    requires
        ring.cursors.dom().finite(),
    ensures
        ring.holders(slot).finite(),
        ring.holders(slot).len() <= ring.cursors.dom().len(),
{
    vstd::set_lib::lemma_set_subset_finite(ring.cursors.dom(), ring.holders(slot));
    vstd::set_lib::lemma_len_subset(ring.holders(slot), ring.cursors.dom());
}

/// A slot has fewer holders than there are registered cursors if some
/// cursor stands elsewhere.
pub proof fn lemma_holders_excluding<T>(ring: Ring<T>, slot: nat, id: nat)
    requires
        ring.cursors.dom().finite(),
        ring.cursors.contains_key(id),
        ring.slot_of(ring.cursors[id].index) != slot,
    ensures
        ring.holders(slot).len() < ring.cursors.dom().len(),
{
    let others = ring.cursors.dom().remove(id);
    vstd::set_lib::lemma_len_subset(ring.holders(slot), others);
}

/// A slot without holders is unheld, and conversely.
pub proof fn lemma_unheld_iff_no_holders<T>(ring: Ring<T>, slot: nat)
    requires
        ring.cursors.dom().finite(),
    ensures
        ring.unheld(slot) <==> ring.holders(slot).len() == 0,
{
    lemma_holders_bounded(ring, slot);
    if ring.unheld(slot) {
        assert(ring.holders(slot) =~= Set::empty());
    }
    if ring.holders(slot).len() == 0 {
        ring.holders(slot).lemma_len0_is_empty();
        assert forall|id: nat| #[trigger] ring.cursors.contains_key(id) implies ring.slot_of(
            ring.cursors[id].index,
        ) != slot by {
            assert(!ring.holders(slot).contains(id));
        }
    }
}

/// Registering a cursor, or moving a registered one, changes the number of
/// holders of a slot by the cursor alone.
pub proof fn lemma_enroll_holders<T>(ring: Ring<T>, id: nat, cursor: Cursor, slot: nat)
    requires
        ring.cursors.dom().finite(),
    ensures
        ring.enroll(id, cursor).holders(slot).len() + (if ring.holders(slot).contains(id) {
            1nat
        } else {
            0nat
        }) == ring.holders(slot).len() + (if ring.slot_of(cursor.index) == slot {
            1nat
        } else {
            0nat
        }),
{
    lemma_holders_bounded(ring, slot);
    let before = ring.holders(slot);
    let after = ring.enroll(id, cursor).holders(slot);
    if ring.slot_of(cursor.index) == slot {
        assert(after =~= before.insert(id));
    } else {
        assert(after =~= before.remove(id));
    }
}

/// Taking a cursor off the register changes the number of holders of a slot
/// by the cursor alone.
pub proof fn lemma_strike_holders<T>(ring: Ring<T>, id: nat, slot: nat)
    requires
        ring.cursors.dom().finite(),
    ensures
        ring.strike(id).holders(slot).len() + (if ring.holders(slot).contains(id) {
            1nat
        } else {
            0nat
        }) == ring.holders(slot).len(),
{
    lemma_holders_bounded(ring, slot);
    assert(ring.strike(id).holders(slot) =~= ring.holders(slot).remove(id));
}

} // verus!
