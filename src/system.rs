//! The boundary to the kernel: raw memory, page tables and TLB flushes.

use vstd::prelude::*;

verus! {

/// What the allocator needs from the system it runs on. Implementations map
/// and unmap single huge pages and flush the TLBs of every CPU. The library
/// keeps its own record of what it asked for (see `GlobalData::mapped` and
/// `QuantumStorage::flushes`); nothing is assumed of what these calls return.
pub trait SystemInterface {
    /// A base address of a fresh virtual reservation of `size` bytes aligned
    /// to `align`.
    fn allocate_virtual(&mut self, size: u64, align: u64) -> (r: u64);

    /// A base address of fresh physical memory of `size` bytes aligned to
    /// `align`.
    fn allocate_physical(&mut self, size: u64, align: u64) -> (r: u64);

    /// Invalidates the TLBs of every CPU, returning once that is done.
    fn global_tlb_flush(&mut self);

    /// The direct-map virtual address of physical address `addr`.
    fn vaddr(&self, addr: u64) -> (r: u64);

    /// The physical address behind direct-map virtual address `addr`.
    fn paddr(&self, addr: u64) -> (r: u64);

    /// Populates the intermediate page tables of the huge pages from `start`
    /// to `end` inclusive.
    fn prepare_page_table(&mut self, start: u64, end: u64);

    /// Maps huge page `page` to `frame`.
    fn map(&mut self, page: u64, frame: u64);

    /// Unmaps huge page `page` and returns the frame it was mapped to.
    fn unmap(&mut self, page: u64) -> (r: u64);
}

} // verus!
