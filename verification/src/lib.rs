//! An address-ordered free-list memory allocator, modelled over integer
//! addresses.
//!
//! The allocator manages a bounded arena of raw memory.  Free extents are
//! kept in a single list sorted by base address; every extent carries its
//! bookkeeping (a node record and alignment padding) at its front, and the
//! arithmetic that places that bookkeeping is what `MetaData` computes.
//! Allocation scans the list for the first compatible extent, splits it,
//! and returns the payload address; deallocation re-inserts the extent in
//! sorted position and coalesces it with address-adjacent neighbours.
//!
//! Addresses are plain `usize` values: the allocator decides where every
//! block lives, and a thin unverified shell may map those decisions onto a
//! real arena obtained from the operating environment.

pub mod allocator;
pub mod deque_list;
pub mod layout;
pub mod meta_utils;
