//! Typed addresses.
//!
//! An `Address<K>` is a plain machine address tagged with what it addresses:
//! a physical frame, a virtual page, raw virtual memory or raw physical
//! memory. Frame and page addresses are always page-aligned; the constructors
//! refuse anything else, so every holder of such an address may rely on the
//! alignment recorded in the constructor's contract.

use vstd::prelude::*;

use crate::constants::PAGE_SIZE;

verus! {

/// Marker: the address names a physical frame.
#[derive(Debug, Clone, Copy, PartialEq, Eq)]
pub struct Frame;

/// Marker: the address names a virtual page.
#[derive(Debug, Clone, Copy, PartialEq, Eq)]
pub struct Page;

/// Marker: the address names raw virtual memory.
#[derive(Debug, Clone, Copy, PartialEq, Eq)]
pub struct Virtual;

/// Marker: the address names raw physical memory.
#[derive(Debug, Clone, Copy, PartialEq, Eq)]
pub struct Physical;

/// A machine address tagged with the kind of thing it addresses.
#[derive(Debug, PartialEq, Eq)]
pub struct Address<K> {
    value: usize,
    _marker: core::marker::PhantomData<K>,
}

impl<K> Clone for Address<K> {
    fn clone(&self) -> (r: Self)
        ensures
            r == *self,
    {
        *self
    }
}

impl<K> Copy for Address<K> {

}

impl<K> Address<K> {
    /// The raw address value.
    pub closed spec fn spec_get(self) -> usize {
        self.value
    }

    /// The raw address value.
    pub fn get(self) -> (r: usize)
        ensures
            r == self.spec_get(),
    {
        self.value
    }
}

impl Address<Frame> {
    /// A frame address from a raw value; refused unless page-aligned.
    pub fn new(value: usize) -> (r: Option<Self>)
        ensures
            value % PAGE_SIZE == 0 ==> (r matches Some(a) && a.spec_get() == value),
            value % PAGE_SIZE != 0 ==> r is None,
    {
        if value % 4096 == 0 {
            Some(Address { value, _marker: core::marker::PhantomData })
        } else {
            None
        }
    }

    /// The frame address with the given frame index.
    pub fn from_index(index: usize) -> (r: Option<Self>)
        ensures
            index <= usize::MAX / PAGE_SIZE ==> (r matches Some(a) && a.spec_get() == index
                * PAGE_SIZE),
            index > usize::MAX / PAGE_SIZE ==> r is None,
    {
        if index <= usize::MAX / 4096 {
            Some(Address { value: index * 4096, _marker: core::marker::PhantomData })
        } else {
            None
        }
    }

    /// The frame index: the address in frame-sized units.
    pub fn index(self) -> (r: usize)
        ensures
            r == self.spec_get() / PAGE_SIZE,
    {
        self.value / 4096
    }
}

impl Address<Page> {
    /// A page address from a raw value; refused unless page-aligned.
    pub fn new(value: usize) -> (r: Option<Self>)
        ensures
            value % PAGE_SIZE == 0 ==> (r matches Some(a) && a.spec_get() == value),
            value % PAGE_SIZE != 0 ==> r is None,
    {
        if value % 4096 == 0 {
            Some(Address { value, _marker: core::marker::PhantomData })
        } else {
            None
        }
    }

    /// The page address with the given page index.
    pub fn from_index(index: usize) -> (r: Option<Self>)
        ensures
            index <= usize::MAX / PAGE_SIZE ==> (r matches Some(a) && a.spec_get() == index
                * PAGE_SIZE),
            index > usize::MAX / PAGE_SIZE ==> r is None,
    {
        if index <= usize::MAX / 4096 {
            Some(Address { value: index * 4096, _marker: core::marker::PhantomData })
        } else {
            None
        }
    }

    /// The page index: the address in page-sized units.
    pub fn index(self) -> (r: usize)
        ensures
            r == self.spec_get() / PAGE_SIZE,
    {
        self.value / 4096
    }

    /// The same address seen as raw virtual memory.
    pub fn get_virtual(self) -> (r: Address<Virtual>)
        ensures
            r.spec_get() == self.spec_get(),
    {
        Address { value: self.value, _marker: core::marker::PhantomData }
    }
}

impl Address<Virtual> {
    /// A virtual address from a raw value.
    pub fn new(value: usize) -> (r: Self)
        ensures
            r.spec_get() == value,
    {
        Address { value, _marker: core::marker::PhantomData }
    }
}

impl Address<Physical> {
    /// A physical address from a raw value; refused unless it stays within the
    /// addressable physical bits.
    pub fn new(value: usize) -> (r: Option<Self>)
        ensures
            (value as u64) & !0x000F_FFFF_FFFF_FFFFu64 == 0 ==> (r matches Some(a) && a.spec_get()
                == value),
            (value as u64) & !0x000F_FFFF_FFFF_FFFFu64 != 0 ==> r is None,
    {
        if crate::constants::checked_phys_canonical(value as u64) {
            Some(Address { value, _marker: core::marker::PhantomData })
        } else {
            None
        }
    }

    /// The raw physical value, as usize.
    pub fn as_usize(self) -> (r: usize)
        ensures
            r == self.spec_get(),
    {
        self.value
    }
}

} // verus!
