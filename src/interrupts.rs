//! Interrupt policy: where the two cascaded interrupt controllers place the
//! hardware interrupts, which controllers acknowledge a vector, and what each
//! CPU exception leads to.
use vstd::prelude::*;

verus! {

/// First vector of the primary and of the secondary controller.
pub const PIC_1_OFFSET: u8 = 32;
pub const PIC_2_OFFSET: u8 = 40;
/// Lines per controller.
pub const PIC_LINES: u8 = 8;

/// Hardware interrupts the kernel handles.
#[derive(Debug, Clone, Copy, PartialEq, Eq, Structural)]
pub enum InterruptIndex {
    Timer,
    Keyboard,
}

impl InterruptIndex {
    /// The controller line the device is wired to.
    pub open spec fn spec_line(self) -> u8 {
        match self {
            InterruptIndex::Timer => 0,
            InterruptIndex::Keyboard => 1,
        }
    }

    /// The vector the interrupt arrives on once the controllers are remapped.
    pub fn as_u8(self) -> (r: u8)
        ensures
            r == PIC_1_OFFSET + self.spec_line(),
    {
        match self {
            InterruptIndex::Timer => PIC_1_OFFSET,
            InterruptIndex::Keyboard => PIC_1_OFFSET + 1,
        }
    }
}

/// Which controllers must be told that the interrupt on `vector` is handled.
/// The secondary controller is cascaded into the primary one, so its
/// interrupts are acknowledged at both.
pub struct EndOfInterrupt {
    pub primary: bool,
    pub secondary: bool,
}

pub fn end_of_interrupt(vector: u8) -> (r: EndOfInterrupt)
    ensures
        r.secondary <==> PIC_2_OFFSET <= vector < PIC_2_OFFSET + PIC_LINES,
        r.primary <==> PIC_1_OFFSET <= vector < PIC_2_OFFSET + PIC_LINES,
{
    let secondary = PIC_2_OFFSET <= vector && vector < PIC_2_OFFSET + PIC_LINES;
    let primary = secondary || (PIC_1_OFFSET <= vector && vector < PIC_1_OFFSET + PIC_LINES);
    EndOfInterrupt { primary, secondary }
}

/// CPU exceptions with a handler of their own.
#[derive(Debug, Clone, Copy, PartialEq, Eq, Structural)]
pub enum CpuException {
    Breakpoint,
    InvalidOpcode,
    DoubleFault,
    GeneralProtection,
    PageFault,
}

/// What follows the report of an exception.
#[derive(Debug, Clone, Copy, PartialEq, Eq, Structural)]
pub enum FaultAction {
    /// Return to the interrupted code.
    Resume,
    /// Stop: there is no way back.
    Halt,
}

/// A breakpoint is reported and execution goes on; every other exception is
/// fatal once reported.
pub fn exception_action(e: CpuException) -> (r: FaultAction)
    ensures
        r == FaultAction::Resume <==> e == CpuException::Breakpoint,
{
    match e {
        CpuException::Breakpoint => FaultAction::Resume,
        _ => FaultAction::Halt,
    }
}

/// The exception whose vector is `vector`, if it has a handler of its own.
pub fn exception_of_vector(vector: u8) -> (r: Option<CpuException>)
    ensures
        r == Some(CpuException::Breakpoint) <==> vector == 3,
        r == Some(CpuException::InvalidOpcode) <==> vector == 6,
        r == Some(CpuException::DoubleFault) <==> vector == 8,
        r == Some(CpuException::GeneralProtection) <==> vector == 13,
        r == Some(CpuException::PageFault) <==> vector == 14,
        r is None <==> !(vector == 3 || vector == 6 || vector == 8 || vector == 13 || vector == 14),
{
    match vector {
        3 => Some(CpuException::Breakpoint),
        6 => Some(CpuException::InvalidOpcode),
        8 => Some(CpuException::DoubleFault),
        13 => Some(CpuException::GeneralProtection),
        14 => Some(CpuException::PageFault),
        _ => None,
    }
}

} // verus!
