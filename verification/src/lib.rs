//! Canal: a library of inter-thread communication primitives, modeled and
//! verified as sequential state machines.
//!
//! The core is a bounded ring-buffer queue ([`mpmc::LockFreeQueue`]) whose
//! slots carry sequence numbers, and a channel state machine
//! ([`mpmc::channel::Canal`]) layered on top of it that adds sender/receiver
//! reference counting and disconnect detection.  Every operation is specified
//! by a contract over the mathematical contents of the queue, and the
//! contracts are machine-checked.

pub mod mpmc;
pub mod sync;
