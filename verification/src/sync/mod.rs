//! Synchronisation primitives.
pub mod semaphore;
