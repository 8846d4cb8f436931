//! Interrupt vector numbering for the two programmable controllers. The
//! dispatch table itself and the handlers are hardware-facing and live with
//! the surrounding program; only the vector arithmetic is kept here.

use vstd::prelude::*;

verus! {

/// First vector of the primary interrupt controller.
pub const PIC_1_OFFSET: u8 = 32;

/// First vector of the secondary interrupt controller.
pub const PIC_2_OFFSET: u8 = PIC_1_OFFSET + 8;

/// Index of a hardware interrupt line within the remapped vector space.
#[derive(Clone, Copy, PartialEq, Eq, Structural, Debug)]
pub enum InterruptIndx {
    Timer,
    Keyboard,
}

impl InterruptIndx {
    /// The vector number: the timer sits at the controller's first vector,
    /// the keyboard right after it.
    pub fn as_u8(self) -> (r: u8)
        ensures
            self is Timer ==> r == PIC_1_OFFSET,
            self is Keyboard ==> r == PIC_1_OFFSET + 1,
    {
        match self {
            InterruptIndx::Timer => PIC_1_OFFSET,
            InterruptIndx::Keyboard => PIC_1_OFFSET + 1,
        }
    }

    /// The vector number, widened for table indexing.
    pub fn as_usize(self) -> (r: usize)
        ensures
            self is Timer ==> r == PIC_1_OFFSET,
            self is Keyboard ==> r == PIC_1_OFFSET + 1,
    {
        self.as_u8() as usize
    }
}

} // verus!
