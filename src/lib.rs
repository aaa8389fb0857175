//! A single-threaded wait/notify registry: tasks suspend on a wait until the next
//! `notify_all`, with the waiters kept in a doubly linked cycle of slots.

pub mod laws;
pub mod runtime;
