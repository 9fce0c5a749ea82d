//! Early-boot memory management core: a first-fit heap allocator fed by
//! firmware memory-map regions, and a four-level page-table engine that
//! builds virtual-to-physical mappings out of allocator-backed tables.

use vstd::prelude::*;

pub mod allocator;
pub mod paging;
pub mod uefi;

verus! {

/// Failure values returned by the allocator and the page-table engine.
///
/// Failures are explicit sentinels, never panics: callers decide whether a
/// failed allocation or mapping aborts the boot.
#[derive(Clone, Copy, PartialEq, Eq, Structural, Debug)]
pub enum Error {
    /// No power of two that covers the request fits in the address width.
    OutOfRange,
    /// No free block can provide the requested allocation.
    OutOfMemory,
    /// A physical address that must be page-aligned is not.
    NotAligned,
    /// An entry is already populated where a child table was expected.
    AlreadyPopulated,
}



} // verus!
