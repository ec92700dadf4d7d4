//! Memory-layout helpers around the allocators: kernel stacks, the
//! higher-half direct mapping, and the paging register's contents.

use vstd::prelude::*;

use crate::addr::{Address, Frame, Page, Virtual};
use crate::constants::PAGE_SIZE;

verus! {

/// A kernel stack: `SIZE` bytes of backing storage.
pub struct Stack<const SIZE: usize>([u8; SIZE]);

impl<const SIZE: usize> Stack<SIZE> {
    /// A zeroed stack.
    pub fn new() -> (r: Stack<SIZE>)
        ensures
            r.spec_data().len() == SIZE,
    {
        Stack([0u8; SIZE])
    }

    /// The backing bytes.
    pub closed spec fn spec_data(&self) -> Seq<u8> {
        self.0@
    }
}

/// The higher-half direct mapping: the page at which all physical memory is
/// linearly visible.
#[derive(Debug, Clone, Copy, PartialEq, Eq)]
pub struct Hhdm(Address<Page>);

impl Hhdm {
    /// A direct mapping rooted at the given page.
    pub fn new(page: Address<Page>) -> (r: Hhdm)
        ensures
            r.spec_page() == page,
    {
        Hhdm(page)
    }

    /// The page the mapping is rooted at.
    pub closed spec fn spec_page(self) -> Address<Page> {
        self.0
    }

    /// The page the mapping is rooted at.
    pub fn page(self) -> (r: Address<Page>)
        ensures
            r == self.spec_page(),
    {
        self.0
    }

    /// The mapping's base, as a raw virtual address.
    pub fn address(self) -> (r: Address<Virtual>)
        ensures
            r.spec_get() == self.spec_page().spec_get(),
    {
        self.0.get_virtual()
    }

    /// The page at which the given frame is visible: the base plus the
    /// frame's address, when that stays inside the address space.
    pub fn offset(self, frame: Address<Frame>) -> (r: Option<Address<Page>>)
        requires
            self.spec_page().spec_get() % PAGE_SIZE == 0,
            frame.spec_get() % PAGE_SIZE == 0,
        ensures
            self.spec_page().spec_get() + frame.spec_get() <= usize::MAX ==> (r matches Some(p)
                && p.spec_get() == self.spec_page().spec_get() + frame.spec_get()),
            self.spec_page().spec_get() + frame.spec_get() > usize::MAX ==> r is None,
    {
        let base = self.0.get();
        let off = frame.get();
        if off <= usize::MAX - base {
            proof {
                vstd::arithmetic::div_mod::lemma_add_mod_noop(
                    base as int,
                    off as int,
                    PAGE_SIZE as int,
                );
            }
            Address::<Page>::new(base + off)
        } else {
            None
        }
    }
}

/// What the paging register holds: the root table's frame and its flag bits.
#[derive(Debug, Clone, Copy, PartialEq, Eq)]
pub struct PagingRegister(pub Address<Frame>, pub u64);

impl PagingRegister {
    /// The frame the root page table lives in.
    pub fn frame(&self) -> (r: Address<Frame>)
        ensures
            r == self.0,
    {
        self.0
    }
}

} // verus!
