//! The mapper: the allocator core's narrow interface to the page tables.
//!
//! A `VirtualAddressor` records, for one address space, which virtual page is
//! mapped to which physical frame and with what attributes, and owns the
//! frame table it draws frames from. Every mapped page owns its frame: a
//! frame enters a mapping either already locked by the caller (`map`,
//! `identity_map`) or freshly taken from the frame table (`automap`), and
//! `unmap` can hand it back. The actual page-table words live outside this
//! model; the contracts here are what the allocator core relies on.

use vstd::prelude::*;

use crate::pmm::{next_frame_step, next_frames_step, FrameAllocator};

verus! {

/// Attribute bits of one page-table entry.
#[derive(Debug, Clone, Copy, PartialEq, Eq, Structural)]
pub struct PageAttributes {
    pub bits: u64,
}

/// The entry is present.
pub const ATTRIBUTE_PRESENT: u64 = 1;

/// The page may be written.
pub const ATTRIBUTE_WRITABLE: u64 = 2;

/// Attributes a fresh mapping gets when the caller names none.
pub const DEFAULT_ATTRIBUTES: u64 = 3;

/// How `set_page_attribs` combines the given bits with the current ones.
#[derive(Debug, Clone, Copy, PartialEq, Eq)]
pub enum AttributeModify {
    /// Replace the attributes outright.
    Replace,
    /// Or the given bits in.
    Add,
    /// Clear the given bits.
    Remove,
}

/// What a mapping operation can fail with.
#[derive(Debug, Clone, Copy, PartialEq, Eq)]
pub enum Error {
    /// The page is already mapped.
    AlreadyMapped,
    /// The page is not mapped.
    NotMapped,
    /// The page cannot name a real frame.
    OutOfBounds,
    /// The frame table is out of free frames.
    NoneFree,
}

/// One installed mapping: the frame a page points at, and its attributes.
#[derive(Debug, Clone, Copy, PartialEq, Eq, Structural)]
pub struct Mapping {
    pub frame: usize,
    pub attributes: PageAttributes,
}

/// The mapper state of one address space.
pub struct VirtualAddressor {
    mappings: Vec<Option<Mapping>>,
    frames: FrameAllocator,
    mapped_offset: usize,
    active: bool,
}

impl VirtualAddressor {
    /// The mapping installed for page `p`, if any.
    pub closed spec fn spec_mapping(self, p: int) -> Option<Mapping> {
        if 0 <= p < self.mappings@.len() {
            self.mappings@[p]
        } else {
            None
        }
    }

    /// Whether page `p` is mapped.
    pub open spec fn is_mapped(self, p: int) -> bool {
        self.spec_mapping(p) is Some
    }

    /// The frame table this address space draws frames from.
    pub closed spec fn frame_table(self) -> FrameAllocator {
        self.frames
    }

    /// Whether this address space is the active one.
    pub closed spec fn is_active(self) -> bool {
        self.active
    }

    /// The direct-map offset at which physical memory is visible.
    pub closed spec fn spec_mapped_offset(self) -> usize {
        self.mapped_offset
    }

    /// No two pages map the same frame. `copy_by_map` breaks this on purpose
    /// for the duration of a relocation; everything else keeps it.
    pub open spec fn injective(self) -> bool {
        forall|p1: int, p2: int|
            p1 != p2 && #[trigger] self.spec_mapping(p1) is Some && #[trigger] self.spec_mapping(
                p2,
            ) is Some ==> self.spec_mapping(p1)->0.frame != self.spec_mapping(p2)->0.frame
    }

    /// Well-formedness: the frame table is sound, and every mapped page owns
    /// a real, locked frame.
    pub closed spec fn wf(self) -> bool {
        &&& self.frames.wf()
        &&& forall|p: int|
            #[trigger] self.spec_mapping(p) matches Some(m) ==> m.frame < self.frames.frames()
                && self.frames.is_set(m.frame as int)
    }

    /// Well-formedness of the address space covers its frame table.
    pub proof fn lemma_wf_frame_table(&self)
        requires
            self.wf(),
        ensures
            self.frame_table().wf(),
    {
    }

    /// What well-formedness guarantees of one mapping, for callers that
    /// cannot see into it: the frame is real and locked.
    pub proof fn lemma_mapped_frame_set(&self, p: int)
        requires
            self.wf(),
            self.spec_mapping(p) is Some,
        ensures
            self.spec_mapping(p)->0.frame < self.frame_table().frames(),
            self.frame_table().is_set(self.spec_mapping(p)->0.frame as int),
    {
    }

    /// Well-formedness carries over unchanged state.
    proof fn lemma_wf_preserved(pre: VirtualAddressor, post: VirtualAddressor)
        requires
            pre.wf(),
            post.frames == pre.frames,
            forall|p: int| post.spec_mapping(p) == pre.spec_mapping(p),
        ensures
            post.wf(),
    {
        assert forall|p: int| #[trigger] post.spec_mapping(p) is Some implies (post.spec_mapping(
            p,
        )->0.frame < post.frames.frames() && post.frames.is_set(post.spec_mapping(p)->0.frame
            as int)) by {
            assert(post.spec_mapping(p) == pre.spec_mapping(p));
        }
    }

    /// A fresh, inactive address space over the given frame table, with no
    /// mappings, seeing physical memory at `mapped_offset`.
    pub fn new(frames: FrameAllocator, mapped_offset: usize) -> (r: VirtualAddressor)
        requires
            frames.wf(),
        ensures
            r.wf(),
            !r.is_active(),
            r.spec_mapped_offset() == mapped_offset,
            r.frame_table() == frames,
            forall|p: int| !r.is_mapped(p),
    {
        VirtualAddressor { mappings: Vec::new(), frames, mapped_offset, active: false }
    }

    /// Make this address space the active one. Models loading the paging
    /// register; here it only records the fact.
    pub fn swap_into(&mut self)
        requires
            old(self).wf(),
        ensures
            final(self).wf(),
            final(self).is_active(),
            final(self).spec_mapped_offset() == old(self).spec_mapped_offset(),
            final(self).frame_table() == old(self).frame_table(),
            forall|p: int| final(self).spec_mapping(p) == old(self).spec_mapping(p),
    {
        self.active = true;
        proof {
            Self::lemma_wf_preserved(*old(self), *self);
        }
    }

    /// Whether this address space's page tables are the active ones: the
    /// precondition for any mapping mutation.
    pub fn is_swapped_in(&self) -> (r: bool)
        ensures
            r == self.is_active(),
    {
        self.active
    }

    /// The direct-map offset at which physical memory is visible.
    pub fn mapped_offset(&self) -> (r: usize)
        ensures
            r == self.spec_mapped_offset(),
    {
        self.mapped_offset
    }

    /// Grow the mapping vector until it has a slot for `page`. Changes no
    /// mapping: absent slots and `None` slots read the same.
    fn ensure_covers(&mut self, page: usize)
        requires
            page < usize::MAX,
        ensures
            final(self).mappings@.len() > page,
            final(self).frames == old(self).frames,
            final(self).mapped_offset == old(self).mapped_offset,
            final(self).active == old(self).active,
            forall|p: int| final(self).spec_mapping(p) == old(self).spec_mapping(p),
    {
        while self.mappings.len() <= page
            invariant
                page < usize::MAX,
                self.frames == old(self).frames,
                self.mapped_offset == old(self).mapped_offset,
                self.active == old(self).active,
                forall|p: int| self.spec_mapping(p) == old(self).spec_mapping(p),
            decreases page + 1 - self.mappings@.len(),
        {
            self.mappings.push(None);
        }
    }

    /// Read the slot for `page`, if the vector covers it.
    fn read_mapping(&self, page: usize) -> (r: Option<Mapping>)
        ensures
            r == self.spec_mapping(page as int),
    {
        if page < self.mappings.len() {
            self.mappings[page]
        } else {
            None
        }
    }

    /// Install a mapping from `page` to a frame the caller already owns:
    /// `frame` must be a real frame, locked in the frame table. Relied on by
    /// the block allocator to bind pages to pre-reserved frames.
    pub fn map(&mut self, page: usize, frame: usize, attributes: Option<PageAttributes>) -> (r:
        Result<(), Error>)
        requires
            old(self).wf(),
            old(self).is_active(),
            page < usize::MAX,
            frame < old(self).frame_table().frames(),
            old(self).frame_table().is_set(frame as int),
        ensures
            final(self).wf(),
            final(self).is_active(),
            final(self).spec_mapped_offset() == old(self).spec_mapped_offset(),
            final(self).frame_table() == old(self).frame_table(),
            !old(self).is_mapped(page as int) ==> {
                &&& r is Ok
                &&& final(self).spec_mapping(page as int) == Some(
                    Mapping {
                        frame,
                        attributes: spec_attributes_or_default(attributes),
                    },
                )
                &&& forall|p: int|
                    p != page as int ==> final(self).spec_mapping(p) == old(self).spec_mapping(p)
            },
            old(self).is_mapped(page as int) ==> {
                &&& r == Result::<(), Error>::Err(Error::AlreadyMapped)
                &&& forall|p: int| final(self).spec_mapping(p) == old(self).spec_mapping(p)
            },
    {
        if self.read_mapping(page).is_some() {
            return Err(Error::AlreadyMapped);
        }
        self.ensure_covers(page);
        let attributes = match attributes {
            Some(a) => a,
            None => PageAttributes { bits: DEFAULT_ATTRIBUTES },
        };
        self.mappings[page] = Some(Mapping { frame, attributes });
        proof {
            assert forall|p: int|
                #[trigger] self.spec_mapping(p) is Some implies (self.spec_mapping(p)->0.frame
                < self.frames.frames() && self.frames.is_set(self.spec_mapping(p)->0.frame as int)) by {
                if p != page as int {
                    assert(self.spec_mapping(p) == old(self).spec_mapping(p));
                }
            }
        }
        Ok(())
    }

    /// Remove the mapping of `page`; with `release_frame` the frame it owned
    /// goes back to the frame table. Releasing demands that no other page
    /// shares the frame, or the sharer would be left pointing at free memory.
    pub fn unmap(&mut self, page: usize, release_frame: bool) -> (r: Result<(), Error>)
        requires
            old(self).wf(),
            old(self).is_active(),
            release_frame ==> (old(self).spec_mapping(page as int) matches Some(m) ==> forall|
                p: int,
            |
                p != page as int && #[trigger] old(self).spec_mapping(p) is Some ==> old(self).spec_mapping(p)->0.frame != m.frame),
        ensures
            final(self).wf(),
            final(self).is_active(),
            final(self).spec_mapped_offset() == old(self).spec_mapped_offset(),
            final(self).frame_table().capacity() == old(self).frame_table().capacity(),
            final(self).frame_table().frames() == old(self).frame_table().frames(),
            match old(self).spec_mapping(page as int) {
                Some(m) => {
                    &&& r is Ok
                    &&& final(self).spec_mapping(page as int) is None
                    &&& forall|p: int|
                        p != page as int ==> final(self).spec_mapping(p) == old(self).spec_mapping(
                            p,
                        )
                    &&& release_frame ==> forall|f: int|
                        0 <= f < final(self).frame_table().capacity() ==> final(self).frame_table().is_set(f) == (old(self).frame_table().is_set(f) && f
                            != m.frame)
                    &&& !release_frame ==> final(self).frame_table() == old(self).frame_table()
                },
                None => {
                    &&& r == Result::<(), Error>::Err(Error::NotMapped)
                    &&& forall|p: int| final(self).spec_mapping(p) == old(self).spec_mapping(p)
                    &&& final(self).frame_table() == old(self).frame_table()
                },
            },
    {
        let m = match self.read_mapping(page) {
            None => {
                return Err(Error::NotMapped);
            },
            Some(m) => m,
        };
        self.mappings[page] = None;
        proof {
            assert forall|p: int|
                #[trigger] self.spec_mapping(p) is Some implies (self.spec_mapping(p)->0.frame
                < self.frames.frames() && self.frames.is_set(self.spec_mapping(p)->0.frame as int)) by {
                assert(self.spec_mapping(p) == old(self).spec_mapping(p));
            }
        }
        if release_frame {
            proof {
                assert(old(self).spec_mapping(page as int) == Some(m));
                assert(m.frame < old(self).frames.frames() && old(self).frames.is_set(
                    m.frame as int,
                ));
                assert(self.frames == old(self).frames);
                FrameAllocator::lemma_frame_index_small(m.frame as int, self.frames);
            }
            let addr = crate::addr::Address::<crate::addr::Frame>::from_index(m.frame).unwrap();
            proof {
                vstd::arithmetic::div_mod::lemma_fundamental_div_mod_converse_div(
                    addr.spec_get() as int,
                    crate::constants::PAGE_SIZE as int,
                    m.frame as int,
                    0,
                );
            }
            let res = self.frames.free_frame(addr);
            proof {
                assert(res is Ok);
                self.frames.lemma_wf_bounds();
                assert forall|p: int|
                    #[trigger] self.spec_mapping(p) is Some implies (self.spec_mapping(p)->0.frame
                    < self.frames.frames() && self.frames.is_set(self.spec_mapping(p)->0.frame as int)) by {
                    assert(p != page as int);
                    assert(self.spec_mapping(p) == old(self).spec_mapping(p));
                    assert(old(self).spec_mapping(p) is Some);
                    assert(old(self).spec_mapping(p)->0.frame != m.frame);
                    assert(old(self).spec_mapping(p)->0.frame < old(self).frames.frames());
                    assert(old(self).frames.is_set(old(self).spec_mapping(p)->0.frame as int));
                }
            }
        }
        Ok(())
    }

    /// Map `page` one-to-one onto the frame with the same index, locking that
    /// frame in the frame table (setting an already-set bit is allowed).
    pub fn identity_map(&mut self, page: usize) -> (r: Result<(), Error>)
        requires
            old(self).wf(),
            old(self).is_active(),
            page < usize::MAX,
        ensures
            final(self).wf(),
            final(self).is_active(),
            final(self).spec_mapped_offset() == old(self).spec_mapped_offset(),
            final(self).frame_table().capacity() == old(self).frame_table().capacity(),
            final(self).frame_table().frames() == old(self).frame_table().frames(),
            old(self).is_mapped(page as int) ==> {
                &&& r == Result::<(), Error>::Err(Error::AlreadyMapped)
                &&& forall|p: int| final(self).spec_mapping(p) == old(self).spec_mapping(p)
                &&& final(self).frame_table() == old(self).frame_table()
            },
            !old(self).is_mapped(page as int) && page >= old(self).frame_table().frames() ==> {
                &&& r == Result::<(), Error>::Err(Error::OutOfBounds)
                &&& forall|p: int| final(self).spec_mapping(p) == old(self).spec_mapping(p)
                &&& final(self).frame_table() == old(self).frame_table()
            },
            !old(self).is_mapped(page as int) && page < old(self).frame_table().frames() ==> {
                &&& r is Ok
                &&& final(self).spec_mapping(page as int) matches Some(m) && m.frame == page
                &&& forall|p: int|
                    p != page as int ==> final(self).spec_mapping(p) == old(self).spec_mapping(p)
                &&& forall|f: int|
                    0 <= f < final(self).frame_table().capacity() ==> final(self).frame_table().is_set(f) == (old(self).frame_table().is_set(f) || f
                        == page as int)
            },
    {
        if self.read_mapping(page).is_some() {
            return Err(Error::AlreadyMapped);
        }
        let frame_count = self.frames.frame_count();
        if page >= frame_count {
            return Err(Error::OutOfBounds);
        }
        proof {
            self.frames.lemma_wf_bounds();
            FrameAllocator::lemma_frame_index_small(page as int, self.frames);
        }
        let addr = crate::addr::Address::<crate::addr::Frame>::from_index(page).unwrap();
        proof {
            vstd::arithmetic::div_mod::lemma_fundamental_div_mod_converse_div(
                addr.spec_get() as int,
                crate::constants::PAGE_SIZE as int,
                page as int,
                0,
            );
        }
        let res = self.frames.lock_frame(addr);
        proof {
            assert(res is Ok);
        }
        let ghost locked = *self;
        self.ensure_covers(page);
        let ghost covered = *self;
        self.mappings[page] = Some(
            Mapping { frame: page, attributes: PageAttributes { bits: DEFAULT_ATTRIBUTES } },
        );
        proof {
            old(self).frames.lemma_wf_bounds();
            assert(self.frames == locked.frames);
            assert forall|p: int|
                #[trigger] self.spec_mapping(p) is Some implies (self.spec_mapping(p)->0.frame
                < self.frames.frames() && self.frames.is_set(self.spec_mapping(p)->0.frame as int)) by {
                if p != page as int {
                    assert(self.spec_mapping(p) == covered.spec_mapping(p));
                    assert(covered.spec_mapping(p) == locked.spec_mapping(p));
                    assert(locked.spec_mapping(p) == old(self).spec_mapping(p));
                    assert(old(self).spec_mapping(p) is Some);
                    let mm = old(self).spec_mapping(p)->0;
                    assert(mm.frame < old(self).frames.frames());
                    assert(old(self).frames.is_set(mm.frame as int));
                    assert(self.frames.is_set(mm.frame as int));
                } else {
                    assert(self.frames.is_set(page as int));
                }
            }
            assert forall|p: int|
                p != page as int implies self.spec_mapping(p) == old(self).spec_mapping(p) by {
                assert(self.spec_mapping(p) == covered.spec_mapping(p));
                assert(covered.spec_mapping(p) == locked.spec_mapping(p));
                assert(locked.spec_mapping(p) == old(self).spec_mapping(p));
            }
        }
        Ok(())
    }

    /// Map `page` to a fresh frame of the frame table's choosing: the lowest
    /// free one.
    pub fn automap(&mut self, page: usize) -> (r: Result<(), Error>)
        requires
            old(self).wf(),
            old(self).is_active(),
            page < usize::MAX,
        ensures
            final(self).wf(),
            final(self).is_active(),
            final(self).spec_mapped_offset() == old(self).spec_mapped_offset(),
            final(self).frame_table().capacity() == old(self).frame_table().capacity(),
            final(self).frame_table().frames() == old(self).frame_table().frames(),
            old(self).is_mapped(page as int) ==> {
                &&& r == Result::<(), Error>::Err(Error::AlreadyMapped)
                &&& forall|p: int| final(self).spec_mapping(p) == old(self).spec_mapping(p)
                &&& final(self).frame_table() == old(self).frame_table()
            },
            !old(self).is_mapped(page as int) ==> match r {
                Ok(()) => {
                    &&& final(self).spec_mapping(page as int) matches Some(m) && next_frame_step(
                        old(self).frame_table(),
                        final(self).frame_table(),
                        m.frame as int,
                    )
                    &&& forall|p: int|
                        p != page as int ==> final(self).spec_mapping(p) == old(self).spec_mapping(
                            p,
                        )
                },
                Err(e) => {
                    &&& e == Error::NoneFree
                    &&& forall|f: int|
                        0 <= f < old(self).frame_table().capacity() ==> old(self).frame_table().is_set(f)
                    &&& forall|p: int| final(self).spec_mapping(p) == old(self).spec_mapping(p)
                    &&& forall|f: int|
                        0 <= f < final(self).frame_table().capacity() ==> final(self).frame_table().is_set(f) == old(self).frame_table().is_set(f)
                },
            },
    {
        if self.read_mapping(page).is_some() {
            return Err(Error::AlreadyMapped);
        }
        let addr = match self.frames.next_frame() {
            Err(_) => {
                proof {
                    old(self).frames.lemma_wf_bounds();
                    assert forall|p: int|
                        #[trigger] self.spec_mapping(p) is Some implies (self.spec_mapping(
                            p,
                        )->0.frame < self.frames.frames() && self.frames.is_set(self.spec_mapping(
                            p,
                        )->0.frame as int)) by {
                        assert(self.spec_mapping(p) == old(self).spec_mapping(p));
                        assert(old(self).spec_mapping(p) is Some);
                        let mm = old(self).spec_mapping(p)->0;
                        assert(mm.frame < old(self).frames.frames());
                        assert(old(self).frames.is_set(mm.frame as int));
                        assert(self.frames.is_set(mm.frame as int));
                    }
                    assert forall|p: int| self.spec_mapping(p) == old(self).spec_mapping(p) by {}
                }
                return Err(Error::NoneFree);
            },
            Ok(addr) => addr,
        };
        let frame = addr.index();
        let ghost taken = *self;
        self.ensure_covers(page);
        let ghost covered = *self;
        self.mappings[page] = Some(
            Mapping { frame, attributes: PageAttributes { bits: DEFAULT_ATTRIBUTES } },
        );
        proof {
            old(self).frames.lemma_wf_bounds();
            assert(self.frames == taken.frames);
            assert forall|p: int|
                #[trigger] self.spec_mapping(p) is Some implies (self.spec_mapping(p)->0.frame
                < self.frames.frames() && self.frames.is_set(self.spec_mapping(p)->0.frame as int)) by {
                if p != page as int {
                    assert(self.spec_mapping(p) == covered.spec_mapping(p));
                    assert(covered.spec_mapping(p) == taken.spec_mapping(p));
                    assert(taken.spec_mapping(p) == old(self).spec_mapping(p));
                    assert(old(self).spec_mapping(p) is Some);
                    let mm = old(self).spec_mapping(p)->0;
                    assert(mm.frame < old(self).frames.frames());
                    assert(old(self).frames.is_set(mm.frame as int));
                    assert(self.frames.is_set(mm.frame as int));
                } else {
                    assert(self.frames.is_set(frame as int));
                }
            }
            assert forall|p: int|
                p != page as int implies self.spec_mapping(p) == old(self).spec_mapping(p) by {
                assert(self.spec_mapping(p) == covered.spec_mapping(p));
                assert(covered.spec_mapping(p) == taken.spec_mapping(p));
                assert(taken.spec_mapping(p) == old(self).spec_mapping(p));
            }
        }
        Ok(())
    }

    /// Map every page of `[start, start + count)` to a fresh frame, all or
    /// nothing: if the frame table runs dry, every page this call mapped is
    /// unmapped again, though the frames it took stay reserved.
    pub fn automap_range(&mut self, start: usize, count: usize) -> (r: Result<(), Error>)
        requires
            old(self).wf(),
            old(self).is_active(),
            start + count <= usize::MAX,
            forall|p: int| start <= p < start + count ==> !old(self).is_mapped(p),
        ensures
            final(self).wf(),
            final(self).is_active(),
            final(self).spec_mapped_offset() == old(self).spec_mapped_offset(),
            final(self).frame_table().capacity() == old(self).frame_table().capacity(),
            final(self).frame_table().frames() == old(self).frame_table().frames(),
            forall|f: int|
                0 <= f < old(self).frame_table().capacity() && old(self).frame_table().is_set(f)
                    ==> final(self).frame_table().is_set(f),
            match r {
                Ok(()) => {
                    &&& forall|p: int|
                        start <= p < start + count ==> #[trigger] final(self).spec_mapping(
                            p,
                        ) is Some
                    &&& forall|p: int|
                        start <= p < start + count ==> !old(self).frame_table().is_set(
                            final(self).spec_mapping(p)->0.frame as int,
                        )
                    &&& forall|p: int|
                        !(start <= p < start + count) ==> final(self).spec_mapping(p) == old(self).spec_mapping(p)
                    &&& forall|p: int, q: int|
                        start <= p < start + count && q != p && #[trigger] final(self).spec_mapping(q) is Some && #[trigger] final(self).spec_mapping(p) is Some
                            ==> final(self).spec_mapping(q)->0.frame != final(self).spec_mapping(
                            p,
                        )->0.frame
                },
                Err(e) => {
                    &&& e == Error::NoneFree
                    &&& forall|f: int|
                        0 <= f < final(self).frame_table().capacity() ==> final(self).frame_table().is_set(f)
                    &&& (count == 1 ==> forall|f: int|
                        0 <= f < final(self).frame_table().capacity() ==> final(self).frame_table().is_set(f) == old(self).frame_table().is_set(f))
                    &&& forall|p: int| final(self).spec_mapping(p) == old(self).spec_mapping(p)
                },
            },
    {
        let mut o: usize = 0;
        while o < count
            invariant
                self.wf(),
                self.is_active(),
                o <= count,
                o == 0 ==> *self == *old(self),
                start + count <= usize::MAX,
                self.spec_mapped_offset() == old(self).spec_mapped_offset(),
                self.frame_table().capacity() == old(self).frame_table().capacity(),
                self.frame_table().frames() == old(self).frame_table().frames(),
                forall|f: int|
                    0 <= f < old(self).frame_table().capacity() && old(self).frame_table().is_set(
                        f,
                    ) ==> self.frame_table().is_set(f),
                forall|p: int| start <= p < start + count ==> !old(self).is_mapped(p),
                forall|p: int|
                    start <= p < start + o ==> #[trigger] self.spec_mapping(p) is Some,
                forall|p: int|
                    start <= p < start + o ==> !old(self).frame_table().is_set(
                        #[trigger] self.spec_mapping(p)->0.frame as int,
                    ),
                forall|p: int|
                    !(start <= p < start + o) ==> self.spec_mapping(p) == old(self).spec_mapping(
                        p,
                    ),
                forall|p: int, q: int|
                    start <= p < start + o && q != p && #[trigger] self.spec_mapping(q) is Some
                        && #[trigger] self.spec_mapping(p) is Some ==> self.spec_mapping(
                        q,
                    )->0.frame != self.spec_mapping(p)->0.frame,
            decreases count - o,
        {
            let d = start + o;
            let ghost before = *self;
            let res = self.automap(d);
            match res {
                Err(_) => {
                    proof {
                        if count == 1 {
                            assert(o == 0);
                            assert(before == *old(self));
                            assert forall|f: int|
                                0 <= f < self.frame_table().capacity() implies
                            self.frame_table().is_set(f) == old(self).frame_table().is_set(
                                f,
                            ) by {
                                assert(self.frame_table().is_set(f) == before.frame_table().is_set(
                                    f,
                                ));
                            }
                        }
                        assert(before.spec_mapping(d as int) == old(self).spec_mapping(d as int));
                        assert(!old(self).is_mapped(d as int));
                        assert(!before.is_mapped(d as int));
                        assert(self.frame_table().capacity() == before.frame_table().capacity());
                        assert forall|f: int|
                            0 <= f < self.frame_table().capacity() implies
                            #[trigger] self.frame_table().is_set(f) by {
                            assert(0 <= f < before.frame_table().capacity());
                            assert(before.frame_table().is_set(f));
                            assert(self.frame_table().is_set(f) == before.frame_table().is_set(f));
                        }
                    }
                    let mut k: usize = 0;
                    while k < o
                        invariant
                            self.wf(),
                            self.is_active(),
                            k <= o <= count,
                            start + count <= usize::MAX,
                            forall|f: int|
                                0 <= f < self.frame_table().capacity()
                                    ==> #[trigger] self.frame_table().is_set(f),
                            self.spec_mapped_offset() == old(self).spec_mapped_offset(),
                            self.frame_table().capacity() == old(self).frame_table().capacity(),
                            self.frame_table().frames() == old(self).frame_table().frames(),
                            forall|f: int|
                                0 <= f < old(self).frame_table().capacity() && old(self).frame_table().is_set(f) ==> self.frame_table().is_set(f),
                            forall|p: int| start <= p < start + count ==> !old(self).is_mapped(p),
                            forall|p: int|
                                start + k <= p < start + o ==> #[trigger] self.spec_mapping(
                                    p,
                                ) is Some,
                            forall|p: int|
                                start <= p < start + k ==> #[trigger] self.spec_mapping(p) is None,
                            forall|p: int|
                                !(start <= p < start + o) ==> self.spec_mapping(p) == old(self).spec_mapping(p),
                        decreases o - k,
                    {
                        let res2 = self.unmap(start + k, false);
                        proof {
                            assert(res2 is Ok);
                        }
                        k += 1;
                    }
                    proof {
                        assert forall|p: int| self.spec_mapping(p) == old(self).spec_mapping(
                            p,
                        ) by {
                            if start <= p < start + o {
                                assert(self.spec_mapping(p) is None);
                                assert(!old(self).is_mapped(p));
                            }
                        }
                    }
                    return Err(Error::NoneFree);
                },
                Ok(()) => {
                    proof {
                        let m = self.spec_mapping(d as int)->0;
                        assert(crate::pmm::next_frame_step(
                            before.frame_table(),
                            self.frame_table(),
                            m.frame as int,
                        ));
                        assert forall|p: int|
                            start <= p < start + o + 1 implies !old(self).frame_table().is_set(
                            #[trigger] self.spec_mapping(p)->0.frame as int,
                        ) by {
                            if p == d as int {
                                assert(!before.frame_table().is_set(m.frame as int));
                                if old(self).frame_table().is_set(m.frame as int) {
                                    assert(before.frame_table().is_set(m.frame as int));
                                }
                            } else {
                                assert(self.spec_mapping(p) == before.spec_mapping(p));
                            }
                        }
                        assert forall|p: int, q: int|
                            start <= p < start + o + 1 && q != p && #[trigger] self.spec_mapping(
                                q,
                            ) is Some && #[trigger] self.spec_mapping(p) is Some implies
                            self.spec_mapping(q)->0.frame != self.spec_mapping(p)->0.frame by {
                            if p == d as int {
                                assert(self.spec_mapping(q) == before.spec_mapping(q));
                                assert(before.frame_table().is_set(
                                    before.spec_mapping(q)->0.frame as int,
                                ));
                            } else if q == d as int {
                                assert(self.spec_mapping(p) == before.spec_mapping(p));
                                assert(before.frame_table().is_set(
                                    before.spec_mapping(p)->0.frame as int,
                                ));
                            } else {
                                assert(self.spec_mapping(q) == before.spec_mapping(q));
                                assert(self.spec_mapping(p) == before.spec_mapping(p));
                            }
                        }
                    }
                },
            }
            o += 1;
        }
        Ok(())
    }

    /// Duplicate the mapping of `src` onto `dst`: afterwards both pages point
    /// at the same frame. Used during growth; the duplication is resolved by
    /// unmapping `src` without releasing the shared frame.
    pub fn copy_by_map(&mut self, src: usize, dst: usize) -> (r: Result<(), Error>)
        requires
            old(self).wf(),
            old(self).is_active(),
            dst < usize::MAX,
        ensures
            final(self).wf(),
            final(self).is_active(),
            final(self).spec_mapped_offset() == old(self).spec_mapped_offset(),
            final(self).frame_table() == old(self).frame_table(),
            old(self).spec_mapping(src as int) is None ==> {
                &&& r == Result::<(), Error>::Err(Error::NotMapped)
                &&& forall|p: int| final(self).spec_mapping(p) == old(self).spec_mapping(p)
            },
            old(self).spec_mapping(src as int) is Some && old(self).is_mapped(dst as int) ==> {
                &&& r == Result::<(), Error>::Err(Error::AlreadyMapped)
                &&& forall|p: int| final(self).spec_mapping(p) == old(self).spec_mapping(p)
            },
            old(self).spec_mapping(src as int) is Some && !old(self).is_mapped(dst as int) ==> {
                &&& r is Ok
                &&& final(self).spec_mapping(dst as int) == old(self).spec_mapping(src as int)
                &&& forall|p: int|
                    p != dst as int ==> final(self).spec_mapping(p) == old(self).spec_mapping(p)
            },
    {
        let m = match self.read_mapping(src) {
            None => {
                return Err(Error::NotMapped);
            },
            Some(m) => m,
        };
        if self.read_mapping(dst).is_some() {
            return Err(Error::AlreadyMapped);
        }
        self.ensure_covers(dst);
        self.mappings[dst] = Some(m);
        proof {
            assert forall|p: int|
                #[trigger] self.spec_mapping(p) is Some implies (self.spec_mapping(p)->0.frame
                < self.frames.frames() && self.frames.is_set(self.spec_mapping(p)->0.frame as int)) by {
                if p != dst as int {
                    assert(self.spec_mapping(p) == old(self).spec_mapping(p));
                } else {
                    assert(old(self).spec_mapping(src as int) == self.spec_mapping(p));
                }
            }
        }
        Ok(())
    }

    /// The attributes of `page`'s mapping, if it has one.
    pub fn get_page_attribs(&self, page: usize) -> (r: Option<PageAttributes>)
        ensures
            match self.spec_mapping(page as int) {
                Some(m) => r == Some(m.attributes),
                None => r is None,
            },
    {
        match self.read_mapping(page) {
            Some(m) => Some(m.attributes),
            None => None,
        }
    }

    /// Rewrite the attributes of `page`'s mapping: replace them, or the bits
    /// in, or clear them, leaving the frame alone. Does nothing for an
    /// unmapped page.
    pub fn set_page_attribs(
        &mut self,
        page: usize,
        attributes: PageAttributes,
        modify_mode: AttributeModify,
    )
        requires
            old(self).wf(),
            old(self).is_active(),
        ensures
            final(self).wf(),
            final(self).is_active(),
            final(self).spec_mapped_offset() == old(self).spec_mapped_offset(),
            final(self).frame_table() == old(self).frame_table(),
            match old(self).spec_mapping(page as int) {
                Some(m) => {
                    &&& final(self).spec_mapping(page as int) == Some(
                        Mapping {
                            frame: m.frame,
                            attributes: spec_modified_attributes(
                                m.attributes,
                                attributes,
                                modify_mode,
                            ),
                        },
                    )
                    &&& forall|p: int|
                        p != page as int ==> final(self).spec_mapping(p) == old(self).spec_mapping(
                            p,
                        )
                },
                None => forall|p: int| final(self).spec_mapping(p) == old(self).spec_mapping(p),
            },
    {
        let m = match self.read_mapping(page) {
            None => {
                return ;
            },
            Some(m) => m,
        };
        let bits = match modify_mode {
            AttributeModify::Replace => attributes.bits,
            AttributeModify::Add => m.attributes.bits | attributes.bits,
            AttributeModify::Remove => m.attributes.bits & !attributes.bits,
        };
        self.mappings[page] = Some(
            Mapping { frame: m.frame, attributes: PageAttributes { bits } },
        );
        proof {
            assert forall|p: int|
                #[trigger] self.spec_mapping(p) is Some implies (self.spec_mapping(p)->0.frame
                < self.frames.frames() && self.frames.is_set(self.spec_mapping(p)->0.frame as int)) by {
                if p != page as int {
                    assert(self.spec_mapping(p) == old(self).spec_mapping(p));
                    assert(old(self).spec_mapping(p) is Some);
                    let mm = old(self).spec_mapping(p)->0;
                    assert(mm.frame < old(self).frames.frames());
                    assert(old(self).frames.is_set(mm.frame as int));
                } else {
                    assert(old(self).spec_mapping(p) == Some(m));
                    assert(m.frame < old(self).frames.frames());
                    assert(old(self).frames.is_set(m.frame as int));
                }
                assert(self.frames == old(self).frames);
            }
        }
    }

    /// Reserve `count` consecutive frames from the frame table and return the
    /// first frame's index. Relied on for physically-contiguous buffers.
    pub fn lock_next_many(&mut self, count: usize) -> (r: Result<usize, crate::pmm::Error>)
        requires
            old(self).wf(),
            count >= 1,
        ensures
            final(self).wf(),
            final(self).is_active() == old(self).is_active(),
            final(self).spec_mapped_offset() == old(self).spec_mapped_offset(),
            final(self).frame_table().capacity() == old(self).frame_table().capacity(),
            final(self).frame_table().frames() == old(self).frame_table().frames(),
            forall|p: int| final(self).spec_mapping(p) == old(self).spec_mapping(p),
            match r {
                Ok(start) => next_frames_step(
                    old(self).frame_table(),
                    final(self).frame_table(),
                    start as int,
                    count as int,
                    1,
                ),
                Err(e) => {
                    &&& e == crate::pmm::Error::NoneFree
                    &&& forall|t: int|
                        0 <= t && #[trigger] (t % 1int) == 0 && t + count <= old(self).frame_table().capacity() ==> exists|j: int|
                            t <= j < t + count && old(self).frame_table().is_set(j)
                    &&& forall|f: int|
                        0 <= f < final(self).frame_table().capacity() ==> final(self).frame_table().is_set(f) == old(self).frame_table().is_set(f)
                },
            },
    {
        match self.frames.next_frames(count, None) {
            Err(e) => {
                proof {
                    old(self).frames.lemma_wf_bounds();
                    assert forall|t: int|
                        0 <= t && #[trigger] (t % 1int) == 0 && t + count <= old(self).frame_table().capacity() implies exists|j: int|
                        t <= j < t + count && old(self).frame_table().is_set(j) by {
                        assert(crate::pmm::align_stride(Option::<usize>::None) == 1);
                        assert((t % crate::pmm::align_stride(Option::<usize>::None)) == 0);
                    }
                    assert forall|p: int| self.spec_mapping(p) == old(self).spec_mapping(p) by {}
                    assert forall|p: int|
                        #[trigger] self.spec_mapping(p) is Some implies (self.spec_mapping(
                            p,
                        )->0.frame < self.frames.frames() && self.frames.is_set(self.spec_mapping(
                            p,
                        )->0.frame as int)) by {
                        assert(old(self).spec_mapping(p) == self.spec_mapping(p));
                        assert(old(self).spec_mapping(p) is Some);
                        let m = old(self).spec_mapping(p)->0;
                        assert(m.frame < old(self).frames.frames());
                        assert(old(self).frames.is_set(m.frame as int));
                        assert(self.frames.is_set(m.frame as int));
                    }
                }
                Err(crate::pmm::Error::NoneFree)
            },
            Ok(addr) => {
                let start = addr.index();
                proof {
                    old(self).frames.lemma_wf_bounds();
                    assert forall|p: int| self.spec_mapping(p) == old(self).spec_mapping(p) by {}
                    assert forall|p: int|
                        #[trigger] self.spec_mapping(p) is Some implies (self.spec_mapping(p)->0.frame
                        < self.frames.frames() && self.frames.is_set(self.spec_mapping(p)->0.frame as int)) by {
                        assert(old(self).spec_mapping(p) == self.spec_mapping(p));
                        assert(old(self).spec_mapping(p) is Some);
                        let m = old(self).spec_mapping(p)->0;
                        assert(m.frame < old(self).frames.frames());
                        assert(old(self).frames.is_set(m.frame as int));
                        assert(self.frames.is_set(m.frame as int));
                    }
                }
                Ok(start)
            },
        }
    }
}

/// The attributes a fresh mapping records for an optional request.
pub open spec fn spec_attributes_or_default(attributes: Option<PageAttributes>) -> PageAttributes {
    match attributes {
        Some(a) => a,
        None => PageAttributes { bits: DEFAULT_ATTRIBUTES },
    }
}

/// The attribute bits after a `set_page_attribs` call.
pub open spec fn spec_modified_attributes(
    current: PageAttributes,
    given: PageAttributes,
    modify_mode: AttributeModify,
) -> PageAttributes {
    match modify_mode {
        AttributeModify::Replace => given,
        AttributeModify::Add => PageAttributes { bits: current.bits | given.bits },
        AttributeModify::Remove => PageAttributes { bits: current.bits & !given.bits },
    }
}

} // verus!
