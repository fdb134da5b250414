//! Visual node helpers.

pub mod text_animator;
pub mod video_node;

use crate::animation::EasingType;
use crate::strings::str_eq;
use vstd::prelude::*;

verus! {

/// The easing that the node layer understands for a name: the four basic
/// curves and `bounce_out`; every other name is linear.
pub open spec fn node_easing_of(name: Seq<char>) -> EasingType {
    if name == "linear"@ {
        EasingType::Linear
    } else if name == "ease_in"@ {
        EasingType::EaseIn
    } else if name == "ease_out"@ {
        EasingType::EaseOut
    } else if name == "ease_in_out"@ {
        EasingType::EaseInOut
    } else if name == "bounce_out"@ {
        EasingType::BounceOut
    } else {
        EasingType::Linear
    }
}

/// Parses an easing name as the node layer does.
pub fn parse_easing(e: &str) -> (r: EasingType)
    ensures
        r == node_easing_of(e@),
{
    if str_eq(e, "linear") {
        EasingType::Linear
    } else if str_eq(e, "ease_in") {
        EasingType::EaseIn
    } else if str_eq(e, "ease_out") {
        EasingType::EaseOut
    } else if str_eq(e, "ease_in_out") {
        EasingType::EaseInOut
    } else if str_eq(e, "bounce_out") {
        EasingType::BounceOut
    } else {
        EasingType::Linear
    }
}


/// The node layer reads the four basic curves and `bounce_out` by name.
pub proof fn lemma_node_easing_names()
    ensures
        node_easing_of("linear"@) == EasingType::Linear,
        node_easing_of("ease_in"@) == EasingType::EaseIn,
        node_easing_of("ease_out"@) == EasingType::EaseOut,
        node_easing_of("ease_in_out"@) == EasingType::EaseInOut,
        node_easing_of("bounce_out"@) == EasingType::BounceOut,
{
    reveal_strlit("linear");
    reveal_strlit("ease_in");
    reveal_strlit("ease_out");
    reveal_strlit("ease_in_out");
    reveal_strlit("bounce_out");
    assert("linear"@.len() == 6);
    assert("ease_in"@.len() == 7);
    assert("ease_out"@.len() == 8);
    assert("ease_in_out"@.len() == 11);
    assert("bounce_out"@.len() == 10);
}

/// The node layer and the script layer agree on every name that the node
/// layer knows: where it reads a curve other than linear, the script layer
/// reads the same one.
pub proof fn lemma_easing_layers_agree(name: Seq<char>)
    ensures
        node_easing_of(name) != EasingType::Linear ==> crate::scripting::utils::easing_of(name) == node_easing_of(name),
{
    reveal_strlit("linear");
    reveal_strlit("ease_in");
    reveal_strlit("ease_out");
    reveal_strlit("ease_in_out");
    reveal_strlit("bounce_out");
    reveal_strlit("bounce_in");
    reveal_strlit("bounce_in_out");
    reveal_strlit("elastic_out");
    reveal_strlit("elastic_in");
    reveal_strlit("elastic_in_out");
    reveal_strlit("back_out");
    reveal_strlit("back_in");
    reveal_strlit("back_in_out");
    assert("linear"@.len() == 6);
    assert("ease_in"@.len() == 7);
    assert("ease_out"@.len() == 8);
    assert("ease_in_out"@.len() == 11);
    assert("bounce_out"@.len() == 10);
    assert("bounce_in"@.len() == 9);
    assert("bounce_in_out"@.len() == 13);
    assert("elastic_out"@.len() == 11);
    assert("elastic_in"@.len() == 10);
    assert("elastic_in_out"@.len() == 14);
    assert("back_out"@.len() == 8);
    assert("back_in"@.len() == 7);
    assert("back_in_out"@.len() == 11);
    assert("ease_in"@[0] != "back_in"@[0]);
    assert("ease_out"@[0] != "back_out"@[0]);
    assert("ease_in_out"@[1] != "elastic_out"@[1]);
    assert("ease_in_out"@[0] != "back_in_out"@[0]);
    assert("bounce_out"@[0] != "elastic_in"@[0]);
    assert("elastic_out"@[0] != "back_in_out"@[0]);
}

} // verus!
