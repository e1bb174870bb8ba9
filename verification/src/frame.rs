//! Wheel sizes of a frame.

use vstd::prelude::*;

verus! {

/// Wheel size, expressed by bead-seat diameter (BSD) in millimeters.
#[derive(Debug, Clone, Copy, PartialEq, Eq, Structural)]
pub enum WheelSize {
    /// 700C / 29" — 622 mm BSD.
    Iso622,
    /// 650B / 27.5" — 584 mm BSD.
    Iso584,
    /// Custom BSD in millimeters.
    Custom(u16),
}

impl WheelSize {
    /// The bead-seat diameter this wheel size stands for, in millimeters.
    pub open spec fn spec_bsd_mm(self) -> u16 {
        match self {
            WheelSize::Iso622 => 622,
            WheelSize::Iso584 => 584,
            WheelSize::Custom(b) => b,
        }
    }

    /// Bead-seat diameter in millimeters.
    pub fn bsd_mm(self) -> (bsd: u16)
        ensures
            bsd == self.spec_bsd_mm(),
    {
        match self {
            WheelSize::Iso622 => 622,
            WheelSize::Iso584 => 584,
            WheelSize::Custom(b) => b,
        }
    }
}

} // verus!
