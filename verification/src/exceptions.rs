//! Processor exception descriptions, as the fault handlers report them.

use vstd::prelude::*;

verus! {

/// Why a page fault fired.
#[derive(Debug, Clone, Copy, PartialEq, Eq)]
pub enum PageFaultReason {
    /// The access violated the page's permissions.
    Permission,
    /// The access violated a security check.
    Security,
}

/// What kind of exception fired.
#[derive(Debug, Clone, Copy, PartialEq, Eq)]
pub enum ExceptionKind {
    /// A page fault at the given address.
    PageFault { address: usize, reason: PageFaultReason },
}

/// One caught exception: what fired, and where the faulting context stood.
#[derive(Debug, Clone, Copy)]
pub struct Exception {
    kind: ExceptionKind,
    ip: usize,
    sp: usize,
}

impl Exception {
    /// An exception record from its parts.
    pub fn new(kind: ExceptionKind, ip: usize, sp: usize) -> (r: Exception)
        ensures
            r.spec_kind() == kind,
            r.spec_ip() == ip,
            r.spec_sp() == sp,
    {
        Exception { kind, ip, sp }
    }

    /// What fired.
    pub closed spec fn spec_kind(&self) -> ExceptionKind {
        self.kind
    }

    /// The faulting instruction address.
    pub closed spec fn spec_ip(&self) -> usize {
        self.ip
    }

    /// The faulting stack pointer.
    pub closed spec fn spec_sp(&self) -> usize {
        self.sp
    }
}

} // verus!
