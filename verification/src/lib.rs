//! Memory-allocation core of a small operating-system kernel, verified with Verus.
//!
//! Two cooperating allocators sit at the centre: a physical frame allocator
//! (`pmm`) that tracks every physical page frame in a bitmap, and a virtual
//! block allocator (`block`) that serves arbitrary-sized heap requests by
//! dividing virtual pages into fixed-size blocks. The block allocator talks to
//! the page-table layer through the `paging` module, which models mappings as
//! plain data so that the whole allocation state machine can be verified.

pub mod addr;
pub mod bits;
pub mod block;
pub mod malloc;
pub mod constants;
pub mod device;
pub mod eternal;
pub mod exceptions;
pub mod interrupts;
pub mod mem;
pub mod region;
pub mod region_table;
pub mod paging;
pub mod pci;
pub mod pmm;
