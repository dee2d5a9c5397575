//! Low-level synchronization primitives: a conditional compare-and-swap and
//! a multi-word compare-and-swap, modeled over plain machine words.

pub mod ccas;
pub mod mcas;
pub mod utils;
