//! A fixed-capacity circular buffer with broadcast delivery: every value
//! written is handed, in write order and exactly once, to every reader
//! cursor that is registered at the time of the write.
//!
//! The crate verifies the synchronisation protocol itself: the life cycle of
//! a slot, write admission, the cursor state machine and slot reclamation.
//! Every operation takes exclusive access to the state it changes.

pub mod ref_count;
pub mod notifier;
pub mod rr_lock;
pub mod protocol;
pub mod state_cell;
pub mod circular;
pub mod laws;
