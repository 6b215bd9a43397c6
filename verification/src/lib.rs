//! Bookkeeping core of a device virtual-memory manager.
//!
//! A [`virtual_mem::VirMem`] owns one reserved virtual address range and an
//! ordered region table that partitions the range into `Mapped` and `Vacant`
//! segments.  Mapping a shareable [`virtual_mem::PhyMem`] handle splits the
//! vacant segment it lands in; unmapping replaces a mapped segment by a vacant
//! one of the same length without merging neighbours.  The driver that backs
//! the ranges is an external collaborator: this crate verifies the decisions
//! and the table, not the driver's side effects.
//!
//! [`symbol::Symbol`] is a small scanner for `extern "C"` kernel symbols in
//! device source text.

pub mod symbol;
pub mod virtual_mem;

pub use symbol::Symbol;
pub use virtual_mem::{MemError, MemProp, PhyMem, Segment, VirByte, VirMem};
