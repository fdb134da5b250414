//! Per-glyph text animation: which glyph property an animator drives.

use crate::strings::{ascii_lower, lower_eq};
use vstd::prelude::*;

verus! {

/// Properties that can be animated on individual glyphs.
#[derive(Clone, Copy, Debug, PartialEq, Eq, Structural)]
pub enum TextAnimProperty {
    /// Glyph opacity (0.0 to 1.0)
    Opacity,
    /// Horizontal offset in pixels
    OffsetX,
    /// Vertical offset in pixels
    OffsetY,
    /// Uniform scale factor (1.0 = normal)
    Scale,
    /// Rotation in degrees
    Rotation,
}

/// The property that a lower-case name stands for, with its aliases.
pub open spec fn anim_property_of(name: Seq<char>) -> Option<TextAnimProperty> {
    if name == "opacity"@ || name == "alpha"@ {
        Some(TextAnimProperty::Opacity)
    } else if name == "offset_x"@ || name == "x"@ || name == "translatex"@ {
        Some(TextAnimProperty::OffsetX)
    } else if name == "offset_y"@ || name == "y"@ || name == "translatey"@ {
        Some(TextAnimProperty::OffsetY)
    } else if name == "scale"@ {
        Some(TextAnimProperty::Scale)
    } else if name == "rotation"@ || name == "rotate"@ {
        Some(TextAnimProperty::Rotation)
    } else {
        None
    }
}

/// Parses a property name, ignoring case, into a `TextAnimProperty`.
///
/// The names are ASCII, and the only characters whose lower case is ASCII are
/// the ASCII capitals and the Kelvin sign (whose lower case, `k`, occurs in no
/// name), so folding the ASCII capitals decides exactly as full lower-casing.
pub fn parse_text_anim_property(name: &str) -> (r: Option<TextAnimProperty>)
    ensures
        r == anim_property_of(ascii_lower(name@)),
{
    if lower_eq(name, "opacity") || lower_eq(name, "alpha") {
        Some(TextAnimProperty::Opacity)
    } else if lower_eq(name, "offset_x") || lower_eq(name, "x") || lower_eq(name, "translatex") {
        Some(TextAnimProperty::OffsetX)
    } else if lower_eq(name, "offset_y") || lower_eq(name, "y") || lower_eq(name, "translatey") {
        Some(TextAnimProperty::OffsetY)
    } else if lower_eq(name, "scale") {
        Some(TextAnimProperty::Scale)
    } else if lower_eq(name, "rotation") || lower_eq(name, "rotate") {
        Some(TextAnimProperty::Rotation)
    } else {
        None
    }
}


/// Each property name and alias names its property.
pub proof fn lemma_anim_property_names()
    ensures
        anim_property_of("opacity"@) == Some(TextAnimProperty::Opacity),
        anim_property_of("alpha"@) == Some(TextAnimProperty::Opacity),
        anim_property_of("offset_x"@) == Some(TextAnimProperty::OffsetX),
        anim_property_of("x"@) == Some(TextAnimProperty::OffsetX),
        anim_property_of("translatex"@) == Some(TextAnimProperty::OffsetX),
        anim_property_of("offset_y"@) == Some(TextAnimProperty::OffsetY),
        anim_property_of("y"@) == Some(TextAnimProperty::OffsetY),
        anim_property_of("translatey"@) == Some(TextAnimProperty::OffsetY),
        anim_property_of("scale"@) == Some(TextAnimProperty::Scale),
        anim_property_of("rotation"@) == Some(TextAnimProperty::Rotation),
        anim_property_of("rotate"@) == Some(TextAnimProperty::Rotation),
{
    reveal_strlit("opacity");
    reveal_strlit("alpha");
    reveal_strlit("offset_x");
    reveal_strlit("x");
    reveal_strlit("translatex");
    reveal_strlit("offset_y");
    reveal_strlit("y");
    reveal_strlit("translatey");
    reveal_strlit("scale");
    reveal_strlit("rotation");
    reveal_strlit("rotate");
    assert("opacity"@.len() == 7);
    assert("alpha"@.len() == 5);
    assert("offset_x"@.len() == 8);
    assert("x"@.len() == 1);
    assert("translatex"@.len() == 10);
    assert("offset_y"@.len() == 8);
    assert("y"@.len() == 1);
    assert("translatey"@.len() == 10);
    assert("scale"@.len() == 5);
    assert("rotation"@.len() == 8);
    assert("rotate"@.len() == 6);
    assert("alpha"@[0] != "scale"@[0]);
    assert("offset_x"@[7] != "offset_y"@[7]);
    assert("offset_x"@[0] != "rotation"@[0]);
    assert("x"@[0] != "y"@[0]);
    assert("translatex"@[9] != "translatey"@[9]);
    assert("offset_y"@[0] != "rotation"@[0]);
}

} // verus!
