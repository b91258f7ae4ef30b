use vstd::prelude::*;

verus! {

/// Plane in which the bistatic resolution drives the automatic integration time.
#[derive(Debug, Clone, Copy, PartialEq, Eq, Structural)]
pub enum PixelResolution {
    Ground,
    Slant,
}

impl PixelResolution {
    /// Whether the resolution is measured on the ground plane.
    pub fn is_ground(&self) -> (r: bool)
        ensures
            r <==> *self == PixelResolution::Ground,
    {
        match self {
            PixelResolution::Ground => true,
            PixelResolution::Slant => false,
        }
    }
}

} // verus!
