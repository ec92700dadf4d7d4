//! Interrupt plumbing the allocators lean on: delivery modes and the cell
//! that guards a value against interrupt re-entry.

use vstd::prelude::*;

verus! {

/// Delivery mode for inter-processor interrupts.
#[derive(Debug, Clone, Copy, PartialEq, Eq)]
pub enum InterruptDeliveryMode {
    Fixed,
    LowPriority,
    SMI,
    NMI,
    INIT,
    StartUp,
    ExtINT,
}

/// Delivery mode of one interrupt vector.
#[derive(Debug, Clone, Copy, PartialEq, Eq)]
pub enum DeliveryMode {
    Fixed,
    LowPriority,
    SMI,
    NMI,
    INIT,
    StartUp,
    ExtINT,
}

/// Whether an interrupt is addressed physically or logically.
#[derive(Debug, Clone, Copy, PartialEq, Eq)]
pub enum DestinationMode {
    Physical,
    Logical,
}

/// Provides access to the contained instance of `T`, ensuring interrupts are
/// disabled while it is borrowed. The masking itself is the processor's
/// business; what is modeled here is the access discipline: the value is
/// reached only through `with` and `with_mut`.
pub struct InterruptCell<T>(T);

impl<T> InterruptCell<T> {
    /// The value under guard.
    pub closed spec fn spec_value(&self) -> T {
        self.0
    }

    /// Put a value under the interrupt guard.
    pub fn new(value: T) -> (r: InterruptCell<T>)
        ensures
            r.spec_value() == value,
    {
        InterruptCell(value)
    }

    /// Run `func` over the value with interrupts masked.
    pub fn with<U, F: FnOnce(&T) -> U>(&self, func: F) -> (r: U)
        requires
            call_requires(func, (&self.spec_value(),)),
        ensures
            call_ensures(func, (&self.spec_value(),), r),
    {
        func(&self.0)
    }

    /// Surrender the guard and take the value back out.
    pub fn into_inner(self) -> (r: T)
        ensures
            r == self.spec_value(),
    {
        self.0
    }
}

} // verus!
