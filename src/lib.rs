//! Pointer-chain discovery over a snapshot of a process's pointers.
//!
//! The crate builds a pointer map (every word-sized location whose value points
//! back into the scanned regions), stores and reloads it, and searches the
//! reverse of that map for chains `Module[i]+B @ O1 @ ... @ Ok` that lead to a
//! target address.

pub mod error;
pub mod num;
pub mod codec;
pub mod index;
pub mod stack;
pub mod scan;
pub mod scanner;
pub mod builder;
pub mod region;
pub mod resolve;
pub mod cmd;
pub mod laws;
pub mod diff;
