//! The rules of a runtime on top of `io_uring`: what becomes of operations in flight, how a
//! driver is shut down, and how a TCP stream reads and writes through the ring.
//!
//! The ring itself, and everything else that talks to the kernel, belongs to the caller.

pub mod driver;
pub mod net;
