use director_core::animation::EasingType;
use director_core::element::{parse_text_fit, TextFit};
use director_core::node::parse_easing as node_parse_easing;
use director_core::node::text_animator::{parse_text_anim_property, TextAnimProperty};
use director_core::scripting::layout_props::{
    parse_align_items, parse_display, parse_flex_direction, parse_justify_content, parse_position, AlignItems, Display,
    FlexDirection, JustifyContent, Position,
};
use director_core::scripting::utils::{parse_easing, parse_hex_color, parse_object_fit};
use director_core::systems::transitions::{parse_transition_type, TransitionType};
use director_core::types::ObjectFit;
use director_core::video_wrapper::{parse_render_mode, RenderMode};

#[test]
fn script_easing_names() {
    assert_eq!(parse_easing("linear"), EasingType::Linear);
    assert_eq!(parse_easing("ease_in"), EasingType::EaseIn);
    assert_eq!(parse_easing("ease_out"), EasingType::EaseOut);
    assert_eq!(parse_easing("ease_in_out"), EasingType::EaseInOut);
    assert_eq!(parse_easing("bounce_out"), EasingType::BounceOut);
    assert_eq!(parse_easing("bounce_in"), EasingType::BounceIn);
    assert_eq!(parse_easing("bounce_in_out"), EasingType::BounceInOut);
    assert_eq!(parse_easing("elastic_out"), EasingType::ElasticOut);
    assert_eq!(parse_easing("elastic_in"), EasingType::ElasticIn);
    assert_eq!(parse_easing("elastic_in_out"), EasingType::ElasticInOut);
    assert_eq!(parse_easing("back_out"), EasingType::BackOut);
    assert_eq!(parse_easing("back_in"), EasingType::BackIn);
    assert_eq!(parse_easing("back_in_out"), EasingType::BackInOut);
    assert_eq!(parse_easing("Linear"), EasingType::Linear);
    assert_eq!(parse_easing("wobble"), EasingType::Linear);
    assert_eq!(parse_easing(""), EasingType::Linear);
}

#[test]
fn node_easing_names() {
    assert_eq!(node_parse_easing("ease_in"), EasingType::EaseIn);
    assert_eq!(node_parse_easing("ease_out"), EasingType::EaseOut);
    assert_eq!(node_parse_easing("ease_in_out"), EasingType::EaseInOut);
    assert_eq!(node_parse_easing("bounce_out"), EasingType::BounceOut);
    // The node layer knows only the basic curves.
    assert_eq!(node_parse_easing("elastic_out"), EasingType::Linear);
    assert_eq!(node_parse_easing("back_in"), EasingType::Linear);
}

#[test]
fn object_fit_names() {
    assert_eq!(parse_object_fit("cover"), Some(ObjectFit::Cover));
    assert_eq!(parse_object_fit("contain"), Some(ObjectFit::Contain));
    assert_eq!(parse_object_fit("fill"), Some(ObjectFit::Fill));
    assert_eq!(parse_object_fit("Cover"), None);
    assert_eq!(parse_object_fit("stretch"), None);
    assert_eq!(ObjectFit::default(), ObjectFit::Cover);
}

#[test]
fn hex_colors_six_digits() {
    assert_eq!(parse_hex_color("#ff8800"), Some((255, 136, 0)));
    assert_eq!(parse_hex_color("00FF7f"), Some((0, 255, 127)));
    assert_eq!(parse_hex_color("##102030"), Some((16, 32, 48)));
}

#[test]
fn hex_colors_three_digits_repeat_each_digit() {
    assert_eq!(parse_hex_color("#f80"), Some((255, 136, 0)));
    assert_eq!(parse_hex_color("#abc"), Some((0xaa, 0xbb, 0xcc)));
    assert_eq!(parse_hex_color("000"), Some((0, 0, 0)));
}

#[test]
fn hex_colors_rejected() {
    assert_eq!(parse_hex_color("#ff88"), None);
    assert_eq!(parse_hex_color(""), None);
    assert_eq!(parse_hex_color("#"), None);
    assert_eq!(parse_hex_color("#gg0000"), None);
    assert_eq!(parse_hex_color("#ff-800"), None);
    assert_eq!(parse_hex_color("#+f0"), None);
    assert_eq!(parse_hex_color("#ééé"), None);
}

#[test]
fn hex_colors_take_no_sign() {
    assert_eq!(parse_hex_color("+f+f+f"), None);
    assert_eq!(parse_hex_color("#+f+f+f"), None);
    assert_eq!(parse_hex_color("#+ff+ff"), None);
}

#[test]
fn hex_colors_with_a_character_across_a_channel_boundary_are_rejected() {
    // "a" + "éé" + "b" is six bytes, and a channel boundary falls inside "é".
    assert_eq!(parse_hex_color("#aééb"), None);
    assert_eq!(parse_hex_color("éa"), None);
}

#[test]
fn text_anim_property_names_ignore_case() {
    assert_eq!(parse_text_anim_property("opacity"), Some(TextAnimProperty::Opacity));
    assert_eq!(parse_text_anim_property("Alpha"), Some(TextAnimProperty::Opacity));
    assert_eq!(parse_text_anim_property("OFFSET_X"), Some(TextAnimProperty::OffsetX));
    assert_eq!(parse_text_anim_property("x"), Some(TextAnimProperty::OffsetX));
    assert_eq!(parse_text_anim_property("translateX"), Some(TextAnimProperty::OffsetX));
    assert_eq!(parse_text_anim_property("offset_y"), Some(TextAnimProperty::OffsetY));
    assert_eq!(parse_text_anim_property("Y"), Some(TextAnimProperty::OffsetY));
    assert_eq!(parse_text_anim_property("translatey"), Some(TextAnimProperty::OffsetY));
    assert_eq!(parse_text_anim_property("Scale"), Some(TextAnimProperty::Scale));
    assert_eq!(parse_text_anim_property("rotation"), Some(TextAnimProperty::Rotation));
    assert_eq!(parse_text_anim_property("ROTATE"), Some(TextAnimProperty::Rotation));
    assert_eq!(parse_text_anim_property("skew"), None);
    assert_eq!(parse_text_anim_property(""), None);
    assert_eq!(parse_text_anim_property("opacité"), None);
}

#[test]
fn transition_names() {
    assert_eq!(parse_transition_type("fade"), TransitionType::Fade);
    assert_eq!(parse_transition_type("slide_left"), TransitionType::SlideLeft);
    assert_eq!(parse_transition_type("slide-left"), TransitionType::SlideLeft);
    assert_eq!(parse_transition_type("slide_right"), TransitionType::SlideRight);
    assert_eq!(parse_transition_type("slide-right"), TransitionType::SlideRight);
    assert_eq!(parse_transition_type("wipe_left"), TransitionType::WipeLeft);
    assert_eq!(parse_transition_type("wipe-left"), TransitionType::WipeLeft);
    assert_eq!(parse_transition_type("wipe_right"), TransitionType::WipeRight);
    assert_eq!(parse_transition_type("wipe-right"), TransitionType::WipeRight);
    assert_eq!(parse_transition_type("circle_open"), TransitionType::CircleOpen);
    assert_eq!(parse_transition_type("circle-open"), TransitionType::CircleOpen);
    assert_eq!(parse_transition_type("dissolve"), TransitionType::Fade);
}

#[test]
fn render_mode_and_text_fit_names() {
    assert_eq!(parse_render_mode("export"), RenderMode::Export);
    assert_eq!(parse_render_mode("preview"), RenderMode::Preview);
    assert_eq!(parse_render_mode("Export"), RenderMode::Preview);
    assert_eq!(parse_text_fit("shrink"), TextFit::Shrink);
    assert_eq!(parse_text_fit("none"), TextFit::NoFit);
    assert_eq!(parse_text_fit("grow"), TextFit::NoFit);
}

#[test]
fn layout_keywords() {
    assert_eq!(parse_flex_direction("row"), FlexDirection::Row);
    assert_eq!(parse_flex_direction("column"), FlexDirection::Column);
    assert_eq!(parse_flex_direction("row-reverse"), FlexDirection::RowReverse);
    assert_eq!(parse_flex_direction("row_reverse"), FlexDirection::RowReverse);
    assert_eq!(parse_flex_direction("column_reverse"), FlexDirection::ColumnReverse);
    assert_eq!(parse_flex_direction("column-reverse"), FlexDirection::ColumnReverse);
    assert_eq!(parse_flex_direction("diagonal"), FlexDirection::Row);
    assert_eq!(parse_align_items("center"), AlignItems::Center);
    assert_eq!(parse_align_items("start"), AlignItems::FlexStart);
    assert_eq!(parse_align_items("flex-end"), AlignItems::FlexEnd);
    assert_eq!(parse_align_items("stretch"), AlignItems::Stretch);
    assert_eq!(parse_align_items("baseline"), AlignItems::Stretch);
    assert_eq!(parse_justify_content("space-between"), JustifyContent::SpaceBetween);
    assert_eq!(parse_justify_content("space_around"), JustifyContent::SpaceAround);
    assert_eq!(parse_justify_content("space-evenly"), JustifyContent::SpaceEvenly);
    assert_eq!(parse_justify_content("end"), JustifyContent::FlexEnd);
    assert_eq!(parse_justify_content("center"), JustifyContent::Center);
    assert_eq!(parse_justify_content("flex_start"), JustifyContent::FlexStart);
    assert_eq!(parse_justify_content("left"), JustifyContent::FlexStart);
    assert_eq!(parse_display("grid"), Display::Grid);
    assert_eq!(parse_display("none"), Display::Hidden);
    assert_eq!(parse_display("block"), Display::Flex);
    assert_eq!(parse_position("absolute"), Position::Absolute);
    assert_eq!(parse_position("fixed"), Position::Relative);
}
