//! Physical memory region descriptors, as a boot memory map reports them.

use vstd::prelude::*;

verus! {

/// The kind of a physical memory region.
#[derive(Debug, Clone, Copy, Eq, PartialEq)]
pub enum Kind {
    Unusable,
    Generic,
    Reserved,
    BootReclaim,
    AcpiReclaim,
}

/// One region of physical memory: its kind, where it starts, and how big it
/// is.
#[derive(Debug, Clone, Copy)]
pub struct Region {
    kind: Kind,
    start: usize,
    size: usize,
}

impl Region {
    /// The region no entry holds: unusable, nowhere, empty.
    pub fn undefined() -> (r: Region)
        ensures
            r.spec_kind() == Kind::Unusable,
            r.spec_start() == usize::MAX,
            r.spec_size() == 0,
    {
        Self::new(Kind::Unusable, usize::MAX, 0)
    }

    /// A region of the given kind over `[start, start + size)`.
    pub fn new(kind: Kind, start: usize, size: usize) -> (r: Region)
        ensures
            r.spec_kind() == kind,
            r.spec_start() == start,
            r.spec_size() == size,
    {
        Region { kind, start, size }
    }

    /// Where the region starts.
    pub closed spec fn spec_start(&self) -> usize {
        self.start
    }

    /// How many bytes the region covers.
    pub closed spec fn spec_size(&self) -> usize {
        self.size
    }

    /// The region's kind.
    pub closed spec fn spec_kind(&self) -> Kind {
        self.kind
    }

    /// Where the region starts.
    pub fn start(&self) -> (r: usize)
        ensures
            r == self.spec_start(),
    {
        self.start
    }

    /// Where the region ends: one past its last byte.
    pub fn end(&self) -> (r: usize)
        requires
            self.spec_start() + self.spec_size() <= usize::MAX,
        ensures
            r == self.spec_start() + self.spec_size(),
    {
        self.start + self.size
    }

    /// How many bytes the region covers.
    pub fn size(&self) -> (r: usize)
        ensures
            r == self.spec_size(),
    {
        self.size
    }

    /// The region's kind.
    pub fn kind(&self) -> (r: Kind)
        ensures
            r == self.spec_kind(),
    {
        self.kind
    }
}

} // verus!
