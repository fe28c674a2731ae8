//! What holds of the protocol over any sequence of operations.
//!
//! A history is a sequence of steps, each one an operation of the buffer or
//! of a cursor as the view of the buffer sees it. The laws below are stated
//! over every valid history.

use crate::protocol::{
    lemma_enroll_wf, lemma_read_wf, lemma_retire_wf, lemma_write_wf, Cursor, ReaderState, Ring,
};
use vstd::prelude::*;

verus! {

/// One operation on the buffer.
pub enum Step<T> {
    /// A write attempt with a value.
    Write(T),
    /// A read attempt by the cursor with the given identity.
    Read(nat),
    /// A new cursor is made at the head under the given identity.
    NewReader(nat),
    /// The first cursor is cloned; the clone gets the second identity.
    Clone(nat, nat),
    /// The cursor with the given identity is disposed of.
    Drop(nat),
}

/// Whether the operation can be asked for in this state: a cursor that
/// acts is registered and a new identity is unused.
pub open spec fn enabled<T>(ring: Ring<T>, step: Step<T>) -> bool {
    match step {
        Step::Write(_) => true,
        Step::Read(id) => ring.cursors.contains_key(id),
        Step::NewReader(id) => !ring.cursors.contains_key(id),
        Step::Clone(source, id) => ring.cursors.contains_key(source) && !ring.cursors.contains_key(
            id,
        ),
        Step::Drop(id) => ring.cursors.contains_key(id),
    }
}

/// The state after the operation.
pub open spec fn apply<T>(ring: Ring<T>, step: Step<T>) -> Ring<T> {
    match step {
        Step::Write(value) => ring.write(value),
        Step::Read(id) => ring.read(id),
        Step::NewReader(id) => ring.enroll(id, ring.joining()),
        Step::Clone(source, id) => ring.enroll(id, ring.cursors[source]),
        Step::Drop(id) => ring.retire(id),
    }
}

/// The values that the operation hands to the cursor `id`: the value at
/// its position if the step is a read attempt of that cursor and the value
/// has been written, and nothing otherwise.
pub open spec fn delivered<T>(ring: Ring<T>, step: Step<T>, id: nat) -> Seq<T> {
    match step {
        Step::Read(reader) => if reader == id && ring.cursors[id].index < ring.head() {
            seq![ring.log[ring.cursors[id].index as int]]
        } else {
            Seq::empty()
        },
        _ => Seq::empty(),
    }
}

/// The values that the operation writes: the value of a write attempt on a
/// buffer that is not full, and nothing otherwise.
pub open spec fn accepted<T>(ring: Ring<T>, step: Step<T>) -> Seq<T> {
    match step {
        Step::Write(value) => if ring.is_full() {
            Seq::empty()
        } else {
            seq![value]
        },
        _ => Seq::empty(),
    }
}

/// Every step of the history can be asked for in the state it meets.
pub open spec fn valid<T>(ring: Ring<T>, steps: Seq<Step<T>>) -> bool
    decreases steps.len(),
{
    if steps.len() == 0 {
        true
    } else {
        enabled(ring, steps[0]) && valid(apply(ring, steps[0]), steps.drop_first())
    }
}

/// The state after the history.
pub open spec fn run<T>(ring: Ring<T>, steps: Seq<Step<T>>) -> Ring<T>
    decreases steps.len(),
{
    if steps.len() == 0 {
        ring
    } else {
        run(apply(ring, steps[0]), steps.drop_first())
    }
}

/// The values handed to the cursor `id` over the history, in the order in
/// which it got them.
pub open spec fn received<T>(ring: Ring<T>, steps: Seq<Step<T>>, id: nat) -> Seq<T>
    decreases steps.len(),
{
    if steps.len() == 0 {
        Seq::empty()
    } else {
        delivered(ring, steps[0], id) + received(apply(ring, steps[0]), steps.drop_first(), id)
    }
}

/// The values written over the history, in write order.
pub open spec fn written<T>(ring: Ring<T>, steps: Seq<Step<T>>) -> Seq<T>
    decreases steps.len(),
{
    if steps.len() == 0 {
        Seq::empty()
    } else {
        accepted(ring, steps[0]) + written(apply(ring, steps[0]), steps.drop_first())
    }
}

/// The history never disposes of the cursor `id`.
pub open spec fn spares<T>(steps: Seq<Step<T>>, id: nat) -> bool {
    forall|k: int| 0 <= k < steps.len() ==> #[trigger] steps[k] != Step::<T>::Drop(id)
}

/// One step of a history keeps the invariant and the capacity, adds to
/// the log exactly what was written and never moves the tail back.
pub proof fn lemma_step_wf<T>(ring: Ring<T>, step: Step<T>)
    requires
        ring.wf(),
        enabled(ring, step),
    ensures
        apply(ring, step).wf(),
        apply(ring, step).capacity == ring.capacity,
        apply(ring, step).log == ring.log + accepted(ring, step),
        ring.tail <= apply(ring, step).tail,
{
    match step {
        Step::Write(value) => {
            lemma_write_wf(ring, value);
        },
        Step::Read(reader) => {
            lemma_read_wf(ring, reader);
        },
        Step::NewReader(new) => {
            lemma_enroll_wf(ring, new, ring.joining());
        },
        Step::Clone(source, new) => {
            lemma_enroll_wf(ring, new, ring.cursors[source]);
        },
        Step::Drop(reader) => {
            lemma_retire_wf(ring, reader);
        },
    }
    assert(apply(ring, step).log =~= ring.log + accepted(ring, step));
}

/// One step of a history as a cursor sees it: a cursor that is not disposed
/// of stays registered and moves forward by what it was handed, which is the
/// part of the log that it passed over.
pub proof fn lemma_step<T>(ring: Ring<T>, step: Step<T>, id: nat)
    requires
        ring.wf(),
        enabled(ring, step),
        ring.cursors.contains_key(id),
        step != Step::<T>::Drop(id),
    ensures
        apply(ring, step).cursors.contains_key(id),
        apply(ring, step).cursors[id].index == ring.cursors[id].index + delivered(
            ring,
            step,
            id,
        ).len(),
        delivered(ring, step, id) == ring.log.subrange(
            ring.cursors[id].index as int,
            apply(ring, step).cursors[id].index as int,
        ),
{
    assert(delivered(ring, step, id) =~= ring.log.subrange(
        ring.cursors[id].index as int,
        apply(ring, step).cursors[id].index as int,
    ));
}

/// A valid history keeps the invariant and the capacity, adds to the log
/// exactly what was written and never moves the tail back.
pub proof fn lemma_run_wf<T>(ring: Ring<T>, steps: Seq<Step<T>>)
    requires
        ring.wf(),
        valid(ring, steps),
    ensures
        run(ring, steps).wf(),
        run(ring, steps).capacity == ring.capacity,
        run(ring, steps).log == ring.log + written(ring, steps),
        ring.tail <= run(ring, steps).tail,
    decreases steps.len(),
{
    if steps.len() > 0 {
        lemma_step_wf(ring, steps[0]);
        lemma_run_wf(apply(ring, steps[0]), steps.drop_first());
    }
    assert(run(ring, steps).log =~= ring.log + written(ring, steps));
}

/// Cursors are independent. A step that is not a read attempt or the
/// disposal of a cursor leaves that cursor at its position and in its state,
/// whatever other cursors do.
pub proof fn lemma_cursors_independent<T>(ring: Ring<T>, step: Step<T>, id: nat)
    requires
        ring.wf(),
        enabled(ring, step),
        ring.cursors.contains_key(id),
        step != Step::<T>::Read(id),
        step != Step::<T>::Drop(id),
    ensures
        apply(ring, step).cursors.contains_key(id),
        apply(ring, step).cursors[id] == ring.cursors[id],
{
}

/// Over a valid history that does not dispose of the cursor `id`: the
/// invariant is kept; the log grows by exactly the values written, so what
/// was written before stays in place; the cursor stays registered, never
/// moves back and never passes the head; and the values it is handed are
/// exactly the part of the log between its first position and its last.
pub proof fn lemma_delivery<T>(ring: Ring<T>, steps: Seq<Step<T>>, id: nat)
    requires
        ring.wf(),
        valid(ring, steps),
        ring.cursors.contains_key(id),
        spares(steps, id),
    ensures
        run(ring, steps).wf(),
        run(ring, steps).capacity == ring.capacity,
        run(ring, steps).log == ring.log + written(ring, steps),
        run(ring, steps).cursors.contains_key(id),
        ring.cursors[id].index <= run(ring, steps).cursors[id].index <= run(ring, steps).head(),
        received(ring, steps, id) == run(ring, steps).log.subrange(
            ring.cursors[id].index as int,
            run(ring, steps).cursors[id].index as int,
        ),
    decreases steps.len(),
{
    let end = run(ring, steps);
    if steps.len() == 0 {
        assert(end.log =~= ring.log + written(ring, steps));
        assert(received(ring, steps, id) =~= end.log.subrange(
            ring.cursors[id].index as int,
            end.cursors[id].index as int,
        ));
    } else {
        let next = apply(ring, steps[0]);
        let rest = steps.drop_first();
        lemma_step_wf(ring, steps[0]);
        lemma_step(ring, steps[0], id);
        assert forall|k: int| 0 <= k < rest.len() implies #[trigger] rest[k] != Step::<T>::Drop(
            id,
        ) by {
            assert(rest[k] == steps[k + 1]);
        }
        lemma_delivery(next, rest, id);
        assert(end.log =~= ring.log + written(ring, steps));
        assert(received(ring, steps, id) =~= end.log.subrange(
            ring.cursors[id].index as int,
            end.cursors[id].index as int,
        ));
    }
}

/// Exactly-once delivery. A cursor that stands at the head, as a cursor
/// does when it is made, and that has read until nothing is left at the end
/// of a history, has been handed exactly the values written over the
/// history, in write order, with none twice and none left out.
pub proof fn lemma_exactly_once<T>(ring: Ring<T>, steps: Seq<Step<T>>, id: nat)
    requires
        ring.wf(),
        valid(ring, steps),
        ring.cursors.contains_key(id),
        spares(steps, id),
        ring.cursors[id].index == ring.head(),
        run(ring, steps).cursors[id].index == run(ring, steps).head(),
    ensures
        received(ring, steps, id) == written(ring, steps),
{
    lemma_delivery(ring, steps, id);
    let end = run(ring, steps);
    assert(end.log.subrange(ring.head() as int, end.head() as int) =~= written(ring, steps));
}

/// In-order delivery at any moment. Whatever a cursor that started at the
/// head has been handed so far is the beginning of what has been written
/// since, in write order.
pub proof fn lemma_in_order<T>(ring: Ring<T>, steps: Seq<Step<T>>, id: nat)
    requires
        ring.wf(),
        valid(ring, steps),
        ring.cursors.contains_key(id),
        spares(steps, id),
        ring.cursors[id].index == ring.head(),
    ensures
        received(ring, steps, id).len() <= written(ring, steps).len(),
        received(ring, steps, id) == written(ring, steps).subrange(
            0,
            received(ring, steps, id).len() as int,
        ),
{
    lemma_delivery(ring, steps, id);
    let end = run(ring, steps);
    assert(received(ring, steps, id) =~= written(ring, steps).subrange(
        0,
        received(ring, steps, id).len() as int,
    ));
}

/// Late join. A cursor made after some values were written is handed none
/// of them: over any history that follows its making, what it is handed is
/// the beginning of what is written after its making, and the earlier
/// values stay where they were in the log, before its first position.
pub proof fn lemma_late_join<T>(ring: Ring<T>, id: nat, steps: Seq<Step<T>>)
    requires
        ring.wf(),
        !ring.cursors.contains_key(id),
        valid(apply(ring, Step::NewReader(id)), steps),
        spares(steps, id),
    ensures
        ({
            let joined = apply(ring, Step::NewReader(id));
            let end = run(joined, steps);
            &&& joined.cursors[id].index == ring.log.len()
            &&& end.log.subrange(0, ring.log.len() as int) == ring.log
            &&& received(joined, steps, id) == end.log.subrange(
                ring.log.len() as int,
                end.cursors[id].index as int,
            )
            &&& received(joined, steps, id) == written(joined, steps).subrange(
                0,
                received(joined, steps, id).len() as int,
            )
        }),
{
    let joined = apply(ring, Step::NewReader(id));
    lemma_enroll_wf(ring, id, ring.joining());
    lemma_delivery(joined, steps, id);
    lemma_in_order(joined, steps, id);
    let end = run(joined, steps);
    assert(end.log.subrange(0, ring.log.len() as int) =~= ring.log);
}

/// Clone fidelity. After a cursor is cloned, the source and the clone
/// are handed the same values in the same order over any history that
/// follows, however far one runs ahead of the other: each is handed the part
/// of the log from the position of the cloning to its own position.
pub proof fn lemma_clone_fidelity<T>(ring: Ring<T>, source: nat, id: nat, steps: Seq<Step<T>>)
    requires
        ring.wf(),
        ring.cursors.contains_key(source),
        !ring.cursors.contains_key(id),
        valid(apply(ring, Step::Clone(source, id)), steps),
        spares(steps, source),
        spares(steps, id),
    ensures
        ({
            let cloned = apply(ring, Step::Clone(source, id));
            let end = run(cloned, steps);
            let first = received(cloned, steps, source);
            let second = received(cloned, steps, id);
            &&& first == end.log.subrange(
                ring.cursors[source].index as int,
                end.cursors[source].index as int,
            )
            &&& second == end.log.subrange(
                ring.cursors[source].index as int,
                end.cursors[id].index as int,
            )
            &&& forall|k: int| 0 <= k < first.len() && k < second.len() ==> first[k] == second[k]
            &&& end.cursors[source].index == end.cursors[id].index ==> first == second
        }),
{
    let cloned = apply(ring, Step::Clone(source, id));
    lemma_enroll_wf(ring, id, ring.cursors[source]);
    lemma_delivery(cloned, steps, source);
    lemma_delivery(cloned, steps, id);
}

/// Backpressure. While a cursor stays at its position, the tail cannot
/// pass it, so the head gets at most a capacity ahead of it. Over a history
/// through which the cursor has not moved, at most `capacity` values are
/// written, and at most `capacity - 1` if a value was waiting for the cursor
/// when the history began. Once the buffer is full, a write attempt changes
/// nothing.
pub proof fn lemma_backpressure<T>(ring: Ring<T>, steps: Seq<Step<T>>, id: nat)
    requires
        ring.wf(),
        valid(ring, steps),
        ring.cursors.contains_key(id),
        spares(steps, id),
        run(ring, steps).cursors[id].index == ring.cursors[id].index,
    ensures
        run(ring, steps).tail <= ring.cursors[id].index,
        run(ring, steps).head() <= ring.cursors[id].index + ring.capacity,
        ring.head() + written(ring, steps).len() <= ring.cursors[id].index + ring.capacity,
        written(ring, steps).len() <= ring.capacity,
        ring.cursors[id].index < ring.head() ==> written(ring, steps).len() <= ring.capacity - 1,
        forall|value: T|
            run(ring, steps).is_full() ==> #[trigger] run(ring, steps).write(value) == run(
                ring,
                steps,
            ),
{
    lemma_delivery(ring, steps, id);
}

/// Writes succeed again only after a release. The tail moves only by a
/// read attempt or a disposal of a cursor that stands at the tail, and then
/// by one; no other step makes room in a full buffer.
pub proof fn lemma_room_only_by_release<T>(ring: Ring<T>, step: Step<T>)
    requires
        ring.wf(),
        enabled(ring, step),
    ensures
        apply(ring, step).tail == ring.tail || apply(ring, step).tail == ring.tail + 1,
        apply(ring, step).tail != ring.tail ==> match step {
            Step::Read(id) => ring.cursors[id].index == ring.tail,
            Step::Drop(id) => ring.cursors[id].index == ring.tail && ring.cursors[id].state
                == ReaderState::Reading,
            _ => false,
        },
        ring.is_full() && apply(ring, step).tail == ring.tail ==> apply(ring, step).is_full(),
{
}

/// Disposal of a blocked cursor. It takes the cursor off the register and
/// changes nothing else: the log, the tail and every other cursor stay, and
/// each slot is held by the cursors that held it before, but for the one
/// disposed of.
pub proof fn lemma_blocked_disposal<T>(ring: Ring<T>, id: nat)
    requires
        ring.wf(),
        ring.cursors.contains_key(id),
        ring.cursors[id].state == ReaderState::Blocked,
    ensures
        ring.retire(id) == (Ring { cursors: ring.cursors.remove(id), ..ring }),
        ring.retire(id).wf(),
        forall|slot: nat| #[trigger]
            ring.retire(id).holders(slot) == ring.holders(slot).remove(id),
{
    lemma_retire_wf(ring, id);
    assert forall|slot: nat| #[trigger]
        ring.retire(id).holders(slot) == ring.holders(slot).remove(id) by {
        assert(ring.retire(id).holders(slot) =~= ring.holders(slot).remove(id));
    }
}

/// A cursor that reads the newest value, and so blocks on the next
/// position, and is then disposed of leaves the slot that it reserved with
/// the holders that it had before.
pub proof fn lemma_reservation_withdrawn<T>(ring: Ring<T>, id: nat)
    requires
        ring.wf(),
        ring.cursors.contains_key(id),
        ring.cursors[id].index + 1 == ring.head(),
    ensures
        ring.read(id).cursors[id] == (Cursor { index: ring.head(), state: ReaderState::Blocked }),
        ring.read(id).retire(id).holders(ring.slot_of(ring.head())) == ring.holders(
            ring.slot_of(ring.head()),
        ),
        ring.read(id).retire(id).log == ring.log,
{
    let index = ring.cursors[id].index;
    crate::protocol::lemma_distinct_slots(index, index + 1, ring.capacity);
    assert(ring.read(id).retire(id).holders(ring.slot_of(ring.head())) =~= ring.holders(
        ring.slot_of(ring.head()),
    ));
}

/// A cursor that is made and disposed of before it reads leaves the buffer
/// as if it had never existed, so every history that follows runs as it
/// would have run without it.
pub proof fn lemma_disposal_leaves_no_trace<T>(ring: Ring<T>, id: nat, steps: Seq<Step<T>>)
    requires
        ring.wf(),
        !ring.cursors.contains_key(id),
    ensures
        apply(apply(ring, Step::NewReader(id)), Step::Drop(id)) == ring,
        run(apply(apply(ring, Step::NewReader(id)), Step::Drop(id)), steps) == run(ring, steps),
{
    let joined = apply(ring, Step::<T>::NewReader(id));
    let left = apply(joined, Step::<T>::Drop(id));
    assert(left.cursors =~= ring.cursors);
}

/// The oldest value is unattended: it occupies a slot and no cursor stands
/// on it.
pub open spec fn unattended<T>(ring: Ring<T>) -> bool {
    &&& ring.tail < ring.head()
    &&& forall|id: nat| #[trigger]
        ring.cursors.contains_key(id) ==> ring.cursors[id].index != ring.tail
}

/// The last cursor on the oldest value reclaims it. When a cursor at the
/// tail reads and no other cursor holds the slot, the tail moves on by one.
pub proof fn lemma_last_reader_reclaims<T>(ring: Ring<T>, id: nat)
    requires
        ring.wf(),
        ring.cursors.contains_key(id),
        ring.cursors[id].index == ring.tail,
        ring.tail < ring.head(),
        forall|other: nat| #[trigger]
            ring.cursors.contains_key(other) && other != id ==> ring.slot_of(
                ring.cursors[other].index,
            ) != ring.slot_of(ring.tail),
    ensures
        ring.read(id).tail == ring.tail + 1,
{
    crate::protocol::lemma_distinct_slots(ring.tail, ring.tail + 1, ring.capacity);
}

/// A cursor a whole lap ahead holds the oldest value back. When the buffer
/// is full and a cursor waits at the head, the slot of the oldest value is
/// the slot that it has reserved: the last cursor on the oldest value reads
/// it without reclaiming it, and leaves it unattended.
pub proof fn lemma_cursor_a_lap_ahead_holds_back<T>(ring: Ring<T>, slow: nat, fast: nat)
    requires
        ring.wf(),
        ring.cursors.contains_key(slow),
        ring.cursors.contains_key(fast),
        ring.cursors[slow].index == ring.tail,
        ring.cursors[fast].index == ring.tail + ring.capacity,
        forall|other: nat| #[trigger]
            ring.cursors.contains_key(other) && other != slow ==> ring.cursors[other].index
                != ring.tail,
    ensures
        ring.read(slow).tail == ring.tail,
        unattended(ring.read(slow)),
{
    crate::protocol::lemma_same_slot(ring.tail, ring.capacity);
    let passed = ring.pass(slow);
    assert(passed.cursors.contains_key(fast));
    assert(!passed.unheld(ring.slot_of(ring.tail)));
    assert forall|id: nat| #[trigger] ring.read(slow).cursors.contains_key(id) implies ring.read(
        slow,
    ).cursors[id].index != ring.tail by {
        if id != slow {
            assert(ring.cursors.contains_key(id));
        }
    }
}

/// An unattended value is never reclaimed. Cursors are made at the head and
/// only move forward, so none comes to stand on the oldest value again: over
/// every valid history the tail stays where it is, and the head gets no
/// further than a capacity beyond it.
pub proof fn lemma_unattended_value_stays<T>(ring: Ring<T>, steps: Seq<Step<T>>)
    requires
        ring.wf(),
        valid(ring, steps),
        unattended(ring),
    ensures
        run(ring, steps).tail == ring.tail,
        unattended(run(ring, steps)),
        run(ring, steps).head() <= ring.tail + ring.capacity,
        ring.head() + written(ring, steps).len() <= ring.tail + ring.capacity,
    decreases steps.len(),
{
    lemma_run_wf(ring, steps);
    if steps.len() > 0 {
        let next = apply(ring, steps[0]);
        lemma_step_wf(ring, steps[0]);
        assert forall|id: nat| #[trigger] next.cursors.contains_key(id) implies next.cursors[id]
            .index != next.tail by {
            match steps[0] {
                Step::Write(_) => {
                    assert(ring.cursors.contains_key(id));
                },
                Step::Read(reader) => {
                    assert(ring.cursors.contains_key(id));
                    assert(ring.cursors.contains_key(reader));
                },
                Step::NewReader(new) => {
                    if id != new {
                        assert(ring.cursors.contains_key(id));
                    }
                },
                Step::Clone(source, new) => {
                    assert(ring.cursors.contains_key(source));
                    if id != new {
                        assert(ring.cursors.contains_key(id));
                    }
                },
                Step::Drop(reader) => {
                    assert(ring.cursors.contains_key(id));
                    assert(ring.cursors.contains_key(reader));
                },
            }
        }
        lemma_unattended_value_stays(next, steps.drop_first());
    }
}

/// The tail never passes a registered cursor, and no cursor passes the
/// head.
pub proof fn lemma_cursors_between_tail_and_head<T>(ring: Ring<T>, id: nat)
    requires
        ring.wf(),
        ring.cursors.contains_key(id),
    ensures
        ring.tail <= ring.cursors[id].index <= ring.head(),
{
}

} // verus!
