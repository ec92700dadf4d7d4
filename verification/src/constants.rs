//! Architectural constants of the paging hardware: page geometry, page-table
//! index geometry, and the canonical-address checks.
//!
//! The depth of the page-table walk (and with it the canonical shift of a
//! virtual address) is decided by a control register at boot, so the two
//! virtual-address functions take that shift as an argument instead of reading
//! the register themselves.

use vstd::prelude::*;

verus! {

/// Size of one page and one physical frame, in bytes.
pub const PAGE_SIZE: usize = 4096;

/// log2 of the page size.
pub fn page_shift() -> (r: u32)
    ensures
        r == 12,
{
    12
}

/// Size of one page and one physical frame, in bytes.
pub fn page_size() -> (r: usize)
    ensures
        r == PAGE_SIZE,
{
    4096
}

/// Mask of the offset bits within a page.
pub fn page_mask() -> (r: usize)
    ensures
        r == PAGE_SIZE - 1,
{
    4095
}

/// log2 of the number of entries in one page-table level.
pub fn table_index_shift() -> (r: u32)
    ensures
        r == 9,
{
    9
}

/// Number of entries in one page-table level.
pub fn table_index_size() -> (r: usize)
    ensures
        r == 512,
{
    512
}

/// Mask of one page-table index.
pub fn table_index_mask() -> (r: usize)
    ensures
        r == 511,
{
    511
}

/// Mask of the bits a physical address may use.
pub fn phys_canonical_mask() -> (r: u64)
    ensures
        r == 0x000F_FFFF_FFFF_FFFFu64,
{
    0x000F_FFFF_FFFF_FFFF
}

/// Whether a physical address stays within the addressable physical bits.
pub fn checked_phys_canonical(address: u64) -> (r: bool)
    ensures
        r == (address & !0x000F_FFFF_FFFF_FFFFu64 == 0),
{
    (address & !0x000F_FFFF_FFFF_FFFF) == 0
}

/// Mask of the bits a canonical virtual address may not choose freely, given
/// the canonical shift that the paging depth fixes.
pub fn virt_noncanonical_mask(canonical_shift: u32) -> (r: u64)
    requires
        canonical_shift < 64,
    ensures
        r == u64::MAX >> canonical_shift << canonical_shift,
{
    u64::MAX >> canonical_shift << canonical_shift
}

/// Whether a virtual address is canonical: its extension bits are either all
/// clear or all set.
pub fn checked_virt_canonical(address: u64, canonical_shift: u32) -> (r: bool)
    requires
        canonical_shift < 64,
    ensures
        r == (address >> canonical_shift == 0 || address >> canonical_shift == u64::MAX
            >> canonical_shift),
{
    let extension_bits = address >> canonical_shift;
    extension_bits == 0 || extension_bits == u64::MAX >> canonical_shift
}

} // verus!
