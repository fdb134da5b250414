//! Easing curves that animations are built from.

use vstd::prelude::*;

verus! {

/// Supported easing functions for animations.
#[derive(Clone, Copy, Debug, PartialEq, Eq, Structural)]
pub enum EasingType {
    Linear,
    EaseIn,
    EaseOut,
    EaseInOut,
    BounceOut,
    BounceIn,
    BounceInOut,
    ElasticOut,
    ElasticIn,
    ElasticInOut,
    BackOut,
    BackIn,
    BackInOut,
}

} // verus!
