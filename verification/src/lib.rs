//! SCQD-F: a FIFO queue made of circular rings with a distributed free list.
//!
//! - [`position`], [`entry`] and [`lap`]: the geometry of a ring and the words in its slots.
//! - [`access`], [`enqueue`] and [`dequeue`]: the operations on a ring, one access at a time.
//! - [`decisions`] and [`progress`]: what these operations make of the words that they find, and
//!   what they come to if nobody gets in their way.
//! - [`contents`], [`solo`] and [`lfring`]: a ring for an owner that has it to itself.
//! - [`interleaving`], [`outcomes`], [`lateness`], [`turns`] and [`emptiness`]: what threads can
//!   count on that share a ring.
//! - [`layout`] and [`backlog`]: what a queue of values keeps where, and what its users see of it.
//! - [`scqd_f`] and [`mpsc`]: the queue of values and the two ends of its channel.
pub mod access;
pub mod backlog;
pub mod contents;
pub mod decisions;
pub mod dequeue;
pub mod emptiness;
pub mod enqueue;
pub mod entry;
pub mod interleaving;
pub mod lap;
pub mod lateness;
pub mod layout;
pub mod lfring;
pub mod mpsc;
pub mod outcomes;
pub mod position;
pub mod progress;
pub mod scqd_f;
pub mod solo;
pub mod turns;
