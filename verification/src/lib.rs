//! Memory-management core of a small microkernel: per-process virtual address
//! spaces, page-table maintenance, and the cross-process page-lending protocol
//! that transfers whole pages between processes instead of copying them.
//!
//! The crate is organised leaf-first:
//!
//! - [`types`] holds the plain data the whole crate speaks of: access flags,
//!   error codes, frame states, page-table entries, and loan records.
//! - [`frames`] is the physical page allocator, which tracks the owner of
//!   every physical frame.
//! - [`manager`] is the process-wide memory manager: all live address spaces,
//!   every page-table entry, the loan table, and the backing memory itself.
//! - [`lending`] holds the lending protocol: move, lend, return, and the
//!   revocation sweep run when a process terminates.
//! - [`laws`] states and proves the crate-wide theorems: lookup correctness,
//!   round trips, writer exclusion, loan flatness, and frame conservation.

pub mod frames;
pub mod laws;
pub mod lending;
pub mod manager;
pub mod types;
