//! Shared data types.

use vstd::prelude::*;

verus! {

/// Specifies how the content of a replaceable element (image, video) is
/// resized to fit its container.
#[derive(Clone, Copy, Debug, PartialEq, Eq, Structural)]
pub enum ObjectFit {
    /// Keeps the aspect ratio and fills the box; the content is clipped.
    Cover,
    /// Keeps the aspect ratio and fits inside the box; the content is letterboxed.
    Contain,
    /// Stretches the content to the box.
    Fill,
}

impl Default for ObjectFit {
    fn default() -> (r: Self)
        ensures
            r == ObjectFit::Cover,
    {
        ObjectFit::Cover
    }
}

/// A "safe zone": padding (in whole pixels) that keeps content clear of a
/// platform's interface, and the aspect ratio it is meant for.
#[derive(Clone, Debug)]
pub struct SafeZone {
    pub top: u32,
    pub bottom: u32,
    pub left: u32,
    pub right: u32,
    pub aspect_ratio: String,
}

} // verus!
