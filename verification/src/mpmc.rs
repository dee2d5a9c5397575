//! Multi-producer, multi-consumer communication primitives.

pub mod channel;
pub mod mpmc_bounded_queue;
pub mod mutex_linked_list;

pub use self::channel::Canal;
pub use self::channel::Failure;
pub use self::mpmc_bounded_queue::LockFreeQueue;
pub use self::mutex_linked_list::MutexLinkedList;
