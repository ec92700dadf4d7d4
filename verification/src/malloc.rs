//! Allocation handles and the kernel-wide allocation errors.
//!
//! An `Alloc<T>` is the result of a successful allocation: an owning handle
//! over an addressed byte range, move-only, released exactly once by handing
//! it back to the deallocation entry point with the same address and layout.

use vstd::prelude::*;

verus! {

/// What an allocation request can fail with.
#[derive(Debug, Clone, Copy)]
pub enum AllocError {
    /// No run of free blocks fits the request, and growth is impossible.
    OutOfMemory,
    /// The requested alignment is not a power of two.
    InvalidAlignment(usize),
    /// An identity-mapping request hit an already-mapped page.
    IdentityMappingOverlaps,
    /// The frame allocator refused the underlying frame request.
    FallocError(crate::pmm::Error),
}

/// An owning handle over an allocated range: a start address and a length in
/// `T`-sized units. Move-only; holding it is holding the memory.
pub struct Alloc<T> {
    addr: usize,
    len: usize,
    _marker: core::marker::PhantomData<T>,
}

impl<T> Alloc<T> {
    /// The start address of the range.
    pub closed spec fn spec_addr(self) -> usize {
        self.addr
    }

    /// The length of the range, in `T`-sized units.
    pub closed spec fn spec_len(self) -> usize {
        self.len
    }

    /// A handle over the given range. The caller vouches that the range is
    /// allocated and otherwise unowned.
    pub fn new(addr: usize, len: usize) -> (r: Alloc<T>)
        ensures
            r.spec_addr() == addr,
            r.spec_len() == len,
    {
        Alloc { addr, len, _marker: core::marker::PhantomData }
    }

    /// Reinterpret the range as `U`-sized units: the address must satisfy
    /// `U`'s alignment, and the length becomes a count of whole `U`s. Handles
    /// of zero-sized `U` are refused.
    pub fn cast<U>(self) -> (r: Result<Alloc<U>, Alloc<T>>)
        ensures
            match r {
                Ok(a) => {
                    &&& vstd::layout::size_of::<U>() > 0
                    &&& vstd::layout::align_of::<U>() > 0
                    &&& self.spec_addr() as nat % vstd::layout::align_of::<U>() == 0
                    &&& a.spec_addr() == self.spec_addr()
                    &&& a.spec_len() as nat == self.spec_len() as nat / vstd::layout::size_of::<
                        U,
                    >()
                },
                Err(a) => {
                    &&& a.spec_addr() == self.spec_addr()
                    &&& a.spec_len() == self.spec_len()
                    &&& !(vstd::layout::size_of::<U>() > 0 && vstd::layout::align_of::<U>() > 0
                        && self.spec_addr() as nat % vstd::layout::align_of::<U>() == 0)
                },
            },
    {
        let size = core::mem::size_of::<U>();
        let align = core::mem::align_of::<U>();
        if size > 0 && align > 0 && self.addr % align == 0 {
            Ok(Alloc { addr: self.addr, len: self.len / size, _marker: core::marker::PhantomData })
        } else {
            Err(self)
        }
    }

    /// Surrender the handle for its raw parts: the start address and the
    /// length. The caller takes over the obligation to release the range.
    pub fn into_parts(self) -> (r: (usize, usize))
        ensures
            r.0 == self.spec_addr(),
            r.1 == self.spec_len(),
    {
        (self.addr, self.len)
    }
}

/// The kernel-wide allocation interface: what every subsystem sees of the
/// installed allocator. Each spec hook names the condition under which the
/// matching operation may be called; the installed implementation defines
/// them.
pub trait MemoryAllocator {
    /// The allocator's invariant.
    spec fn inv(&self) -> bool;

    /// Whether the direct-map translation of `addr` stays in range.
    spec fn offset_ok(&self, addr: int) -> bool;

    /// Whether `[addr, addr + size)` is a live allocation that may be freed.
    spec fn dealloc_ok(&self, addr: int, size: int) -> bool;

    /// Whether the frames `[frame_index, frame_index + count)` may back a
    /// caller-owned allocation.
    spec fn against_ok(&self, frame_index: int, count: int) -> bool;

    /// Whether the pages `[frame_index, frame_index + count)` may be
    /// identity-mapped.
    spec fn identity_ok(&self, frame_index: int, count: int) -> bool;

    /// Whether a physically-contiguous request of `count` pages may be made.
    spec fn contiguous_ok(&self, count: int) -> bool;

    /// Whether the map covers `page_index`.
    spec fn page_covered(&self, page_index: int) -> bool;

    /// Whether any block of page `page_index` is in use.
    spec fn page_in_use(&self, page_index: int) -> bool;

    /// The direct-mapped virtual address of a physical address.
    fn physical_memory(&self, addr: crate::addr::Address<crate::addr::Physical>) -> (r:
        crate::addr::Address<crate::addr::Virtual>)
        requires
            self.inv(),
            self.offset_ok(addr.spec_get() as int),
    ;

    /// Serve `size` bytes at the given alignment.
    fn allocate(&mut self, size: usize, align: Option<usize>) -> (r: Result<Alloc<u8>, AllocError>)
        requires
            old(self).inv(),
        ensures
            final(self).inv(),
    ;

    /// Serve `count` pages backed by physically contiguous frames.
    fn alloc_contiguous(&mut self, count: usize) -> (r: Result<
        (crate::addr::Address<crate::addr::Physical>, Alloc<u8>),
        AllocError,
    >)
        requires
            old(self).inv(),
            count >= 1,
            old(self).contiguous_ok(count as int),
        ensures
            final(self).inv(),
    ;

    /// Serve `count` pages backed by the given caller-owned frames.
    fn alloc_against(&mut self, frame_index: usize, count: usize) -> (r: Result<
        Alloc<u8>,
        AllocError,
    >)
        requires
            old(self).inv(),
            count >= 1,
            old(self).against_ok(frame_index as int, count as int),
        ensures
            final(self).inv(),
    ;

    /// Bind the pages `[frame_index, frame_index + count)` one-to-one to the
    /// frames of the same indices.
    fn alloc_identity(&mut self, frame_index: usize, count: usize) -> (r: Result<
        Alloc<u8>,
        AllocError,
    >)
        requires
            old(self).inv(),
            count >= 1,
            old(self).identity_ok(frame_index as int, count as int),
        ensures
            final(self).inv(),
    ;

    /// Release a live allocation.
    fn dealloc(&mut self, addr: usize, size: usize)
        requires
            old(self).inv(),
            size >= 1,
            old(self).dealloc_ok(addr as int, size as int),
        ensures
            final(self).inv(),
    ;

    /// The page state of the given page index: `None` when the map does not
    /// cover it, otherwise whether any of its blocks is in use.
    fn get_page_state(&self, page_index: usize) -> (r: Option<bool>)
        requires
            self.inv(),
        ensures
            r is Some <==> self.page_covered(page_index as int),
            r == Some(true) <==> self.page_covered(page_index as int) && self.page_in_use(
                page_index as int,
            ),
    ;
}

} // verus!
