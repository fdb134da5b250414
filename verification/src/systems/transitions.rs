//! Visual transitions between scenes, drawn by SkSL shaders that blend the
//! outgoing scene (`imageA`) into the incoming one (`imageB`) as `progress`
//! runs from 0 to 1.

use crate::strings::str_eq;
use vstd::prelude::*;

verus! {

/// The type of visual transition between scenes.
#[derive(Clone, Copy, Debug, PartialEq, Eq, Structural)]
pub enum TransitionType {
    Fade,
    SlideLeft,
    SlideRight,
    WipeLeft,
    WipeRight,
    CircleOpen,
}

/// Cross-fades from the outgoing scene to the incoming one.
pub const FADE_SHADER: &'static str = r#"
            uniform shader imageA;
            uniform shader imageB;
            uniform float progress;
            half4 main(float2 p) {
                half4 colorA = imageA.eval(p);
                half4 colorB = imageB.eval(p);
                return mix(colorA, colorB, progress);
            }
        "#;

/// Slides the outgoing scene out to the left as the incoming one follows.
pub const SLIDE_LEFT_SHADER: &'static str = r#"
            uniform shader imageA;
            uniform shader imageB;
            uniform float progress;
            uniform float2 resolution;
            half4 main(float2 p) {
                float x_offset = resolution.x * progress;
                if (p.x < (resolution.x - x_offset)) {
                    return imageA.eval(float2(p.x + x_offset, p.y));
                } else {
                    return imageB.eval(float2(p.x - (resolution.x - x_offset), p.y));
                }
            }
        "#;

/// Slides the outgoing scene out to the right as the incoming one follows.
pub const SLIDE_RIGHT_SHADER: &'static str = r#"
            uniform shader imageA;
            uniform shader imageB;
            uniform float progress;
            uniform float2 resolution;
            half4 main(float2 p) {
                float x_offset = resolution.x * progress;
                if (p.x > x_offset) {
                    return imageA.eval(float2(p.x - x_offset, p.y));
                } else {
                    return imageB.eval(float2(p.x - x_offset + resolution.x, p.y));
                }
            }
        "#;

/// Reveals the incoming scene behind an edge moving from right to left.
pub const WIPE_LEFT_SHADER: &'static str = r#"
            uniform shader imageA;
            uniform shader imageB;
            uniform float progress;
            uniform float2 resolution;
            half4 main(float2 p) {
                 float boundary = resolution.x * (1.0 - progress);
                 if (p.x < boundary) {
                     return imageA.eval(p);
                 } else {
                     return imageB.eval(p);
                 }
            }
        "#;

/// Reveals the incoming scene behind an edge moving from left to right.
pub const WIPE_RIGHT_SHADER: &'static str = r#"
            uniform shader imageA;
            uniform shader imageB;
            uniform float progress;
            uniform float2 resolution;
            half4 main(float2 p) {
                 float boundary = resolution.x * progress;
                 if (p.x > boundary) {
                     return imageA.eval(p);
                 } else {
                     return imageB.eval(p);
                 }
            }
        "#;

/// Reveals the incoming scene in a circle growing from the centre.
pub const CIRCLE_OPEN_SHADER: &'static str = r#"
            uniform shader imageA;
            uniform shader imageB;
            uniform float progress;
            uniform float2 resolution;
            half4 main(float2 p) {
                float2 center = resolution / 2.0;
                float max_radius = length(resolution);
                float current_radius = max_radius * progress;
                float dist = distance(p, center);
                if (dist < current_radius) {
                    return imageB.eval(p);
                } else {
                    return imageA.eval(p);
                }
            }
        "#;

/// The shader source of each kind of transition.
pub open spec fn shader_source_of(kind: TransitionType) -> Seq<char> {
    match kind {
        TransitionType::Fade => FADE_SHADER@,
        TransitionType::SlideLeft => SLIDE_LEFT_SHADER@,
        TransitionType::SlideRight => SLIDE_RIGHT_SHADER@,
        TransitionType::WipeLeft => WIPE_LEFT_SHADER@,
        TransitionType::WipeRight => WIPE_RIGHT_SHADER@,
        TransitionType::CircleOpen => CIRCLE_OPEN_SHADER@,
    }
}

/// Returns the SkSL shader source for the given transition type.
pub fn get_transition_shader(kind: &TransitionType) -> (r: &'static str)
    ensures
        r@ == shader_source_of(*kind),
{
    match kind {
        TransitionType::Fade => FADE_SHADER,
        TransitionType::SlideLeft => SLIDE_LEFT_SHADER,
        TransitionType::SlideRight => SLIDE_RIGHT_SHADER,
        TransitionType::WipeLeft => WIPE_LEFT_SHADER,
        TransitionType::WipeRight => WIPE_RIGHT_SHADER,
        TransitionType::CircleOpen => CIRCLE_OPEN_SHADER,
    }
}

/// The transition that a script names: snake or kebab case, with every unknown
/// name a fade.
pub open spec fn transition_type_of(name: Seq<char>) -> TransitionType {
    if name == "slide_left"@ || name == "slide-left"@ {
        TransitionType::SlideLeft
    } else if name == "slide_right"@ || name == "slide-right"@ {
        TransitionType::SlideRight
    } else if name == "wipe_left"@ || name == "wipe-left"@ {
        TransitionType::WipeLeft
    } else if name == "wipe_right"@ || name == "wipe-right"@ {
        TransitionType::WipeRight
    } else if name == "circle_open"@ || name == "circle-open"@ {
        TransitionType::CircleOpen
    } else {
        TransitionType::Fade
    }
}

/// Parses the transition name that `add_transition` takes in scripts (`fade`
/// and every unknown name give a fade).
pub fn parse_transition_type(name: &str) -> (r: TransitionType)
    ensures
        r == transition_type_of(name@),
{
    if str_eq(name, "slide_left") || str_eq(name, "slide-left") {
        TransitionType::SlideLeft
    } else if str_eq(name, "slide_right") || str_eq(name, "slide-right") {
        TransitionType::SlideRight
    } else if str_eq(name, "wipe_left") || str_eq(name, "wipe-left") {
        TransitionType::WipeLeft
    } else if str_eq(name, "wipe_right") || str_eq(name, "wipe-right") {
        TransitionType::WipeRight
    } else if str_eq(name, "circle_open") || str_eq(name, "circle-open") {
        TransitionType::CircleOpen
    } else {
        TransitionType::Fade
    }
}


/// Each transition name names its transition, in snake and kebab case
/// alike, and `fade` is a fade.
pub proof fn lemma_transition_names()
    ensures
        transition_type_of("slide_left"@) == TransitionType::SlideLeft,
        transition_type_of("slide-left"@) == TransitionType::SlideLeft,
        transition_type_of("slide_right"@) == TransitionType::SlideRight,
        transition_type_of("slide-right"@) == TransitionType::SlideRight,
        transition_type_of("wipe_left"@) == TransitionType::WipeLeft,
        transition_type_of("wipe-left"@) == TransitionType::WipeLeft,
        transition_type_of("wipe_right"@) == TransitionType::WipeRight,
        transition_type_of("wipe-right"@) == TransitionType::WipeRight,
        transition_type_of("circle_open"@) == TransitionType::CircleOpen,
        transition_type_of("circle-open"@) == TransitionType::CircleOpen,
        transition_type_of("fade"@) == TransitionType::Fade,
{
    reveal_strlit("slide_left");
    reveal_strlit("slide-left");
    reveal_strlit("slide_right");
    reveal_strlit("slide-right");
    reveal_strlit("wipe_left");
    reveal_strlit("wipe-left");
    reveal_strlit("wipe_right");
    reveal_strlit("wipe-right");
    reveal_strlit("circle_open");
    reveal_strlit("circle-open");
    reveal_strlit("fade");
    assert("slide_left"@.len() == 10);
    assert("slide-left"@.len() == 10);
    assert("slide_right"@.len() == 11);
    assert("slide-right"@.len() == 11);
    assert("wipe_left"@.len() == 9);
    assert("wipe-left"@.len() == 9);
    assert("wipe_right"@.len() == 10);
    assert("wipe-right"@.len() == 10);
    assert("circle_open"@.len() == 11);
    assert("circle-open"@.len() == 11);
    assert("fade"@.len() == 4);
    assert("slide_left"@[5] != "slide-left"@[5]);
    assert("slide_left"@[0] != "wipe_right"@[0]);
    assert("slide_left"@[0] != "wipe-right"@[0]);
    assert("slide-left"@[0] != "wipe_right"@[0]);
    assert("slide-left"@[0] != "wipe-right"@[0]);
    assert("slide_right"@[5] != "slide-right"@[5]);
    assert("slide_right"@[0] != "circle_open"@[0]);
    assert("slide_right"@[0] != "circle-open"@[0]);
    assert("slide-right"@[0] != "circle_open"@[0]);
    assert("slide-right"@[0] != "circle-open"@[0]);
    assert("wipe_left"@[4] != "wipe-left"@[4]);
    assert("wipe_right"@[4] != "wipe-right"@[4]);
    assert("circle_open"@[6] != "circle-open"@[6]);
}

} // verus!
