//! Page mapping: where a virtual address lies in the page directory and in
//! its page table, and the entries that map frames.
//!
//! The page directory lies at `PAGE_DIRECTORY`; each of its 512 entries maps
//! 2 MiB through a page table of 512 entries of 4 KiB each. The table at
//! `WINDOW_TABLE` maps the window at `WINDOW`, through which a page table in
//! any frame is written.
pub use crate::memory::allocate_memory;

use vstd::prelude::*;

verus! {

/// The physical address of the page directory.
pub const PAGE_DIRECTORY: u64 = 0x12000;

/// The physical address of the page table that maps the window.
pub const WINDOW_TABLE: u64 = 0x13000;

/// The virtual address through which page tables are written.
pub const WINDOW: u64 = 0x800000;

/// Present and writable.
pub const KERNEL_FLAGS: u64 = 3;

/// Present, writable and reachable from user mode.
pub const USER_FLAGS: u64 = 7;

/// The number of entries of a table.
pub const TABLE_ENTRIES: usize = 512;

/// The address of the page that holds `addr`.
pub open spec fn page_base(addr: u64) -> u64 {
    addr & !0xFFFu64
}

/// The page directory entry that covers `addr`.
pub fn page_directory_index(addr: u64) -> (r: usize)
    ensures
        r == (page_base(addr) >> 21u64) & 0x1FF,
        r < TABLE_ENTRIES,
{
    let aligned = addr & !0xFFF;
    let i = (aligned >> 21) & 0x1FF;
    assert(i < 512) by (bit_vector)
        requires
            i == (aligned >> 21u64) & 0x1FF,
    ;
    i as usize
}

/// The page table entry that maps `addr`.
pub fn page_table_index(addr: u64) -> (r: usize)
    ensures
        r == (page_base(addr) >> 12u64) & 0x1FF,
        r < TABLE_ENTRIES,
{
    let aligned = addr & !0xFFF;
    let i = (aligned >> 12) & 0x1FF;
    assert(i < 512) by (bit_vector)
        requires
            i == (aligned >> 12u64) & 0x1FF,
    ;
    i as usize
}

/// The table entry that maps the frame holding `phys` with `flags`.
pub fn table_entry(phys: u64, flags: u64) -> (e: u64)
    requires
        flags < 0x1000,
    ensures
        e == page_base(phys) | flags,
        page_base(e) == page_base(phys),
        e & 0xFFF == flags,
{
    let e = (phys & !0xFFF) | flags;
    assert(((e & !0xFFFu64) == (phys & !0xFFFu64)) && (e & 0xFFF == flags)) by (bit_vector)
        requires
            e == (phys & !0xFFFu64) | flags,
            flags < 0x1000,
    ;
    e
}

/// Whether a table entry maps anything.
pub fn is_present(entry: u64) -> (r: bool)
    ensures
        r == (entry & 1 == 1),
{
    entry & 1 == 1
}

/// Law: the two indices and the offset within the page give back the
/// address, within the gigabyte that the page directory covers.
pub proof fn law_indices_cover_address(addr: u64)
    ensures
        ((((page_base(addr) >> 21u64) & 0x1FF) << 21u64) | (((page_base(addr) >> 12u64) & 0x1FF) << 12u64) | (addr
            & 0xFFF)) == addr & 0x3FFFFFFF,
{
    assert(((((addr & !0xFFFu64) >> 21u64) & 0x1FF) << 21u64) | ((((addr & !0xFFFu64) >> 12u64) & 0x1FF)
        << 12u64) | (addr & 0xFFF) == addr & 0x3FFFFFFF) by (bit_vector);
}

} // verus!
