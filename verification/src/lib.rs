//! A monitor-style producer/consumer core, verified: a FIFO buffer of work
//! items and shutdown sentinels, the producer and consumer state machines
//! that run against it, and the coordinator protocol that joins producers
//! before injecting exactly one sentinel per consumer.
//!
//! The surrounding material — prime generation as the work-item source,
//! grid stepping, fibonacci, word counting — is pure computation and is
//! verified here as well. Thread spawning, locking and printing live in the
//! unverified binary around this library.

pub mod buffer;
pub mod consumer;
pub mod producer;
pub mod coordinator;
pub mod primes;
pub mod primes_u32;
pub mod life;
pub mod fib;
pub mod words;
