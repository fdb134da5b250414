//! The keyword properties of a script's layout style: which flex direction,
//! alignment, display and position a word names. (Lengths and percentages
//! are floating point and are read elsewhere.)

use crate::strings::str_eq;
use vstd::prelude::*;

verus! {

/// The main axis of a flex container.
#[derive(Clone, Copy, Debug, PartialEq, Eq, Structural)]
pub enum FlexDirection {
    Row,
    Column,
    RowReverse,
    ColumnReverse,
}

/// How a container aligns its items on the cross axis.
#[derive(Clone, Copy, Debug, PartialEq, Eq, Structural)]
pub enum AlignItems {
    FlexStart,
    FlexEnd,
    Center,
    Stretch,
}

/// How a container distributes its items on the main axis.
#[derive(Clone, Copy, Debug, PartialEq, Eq, Structural)]
pub enum JustifyContent {
    FlexStart,
    FlexEnd,
    Center,
    SpaceBetween,
    SpaceAround,
    SpaceEvenly,
}

/// The layout algorithm of a node.
#[derive(Clone, Copy, Debug, PartialEq, Eq, Structural)]
pub enum Display {
    Flex,
    Grid,
    Hidden,
}

/// Whether a node is placed in the flow or by its insets.
#[derive(Clone, Copy, Debug, PartialEq, Eq, Structural)]
pub enum Position {
    Relative,
    Absolute,
}

/// The flex direction that a word names; `row` for an unknown word.
pub open spec fn flex_direction_of(s: Seq<char>) -> FlexDirection {
    if s == "column"@ {
        FlexDirection::Column
    } else if s == "row_reverse"@ || s == "row-reverse"@ {
        FlexDirection::RowReverse
    } else if s == "column_reverse"@ || s == "column-reverse"@ {
        FlexDirection::ColumnReverse
    } else {
        FlexDirection::Row
    }
}

/// Reads `flex_direction`.
pub fn parse_flex_direction(s: &str) -> (r: FlexDirection)
    ensures
        r == flex_direction_of(s@),
{
    if str_eq(s, "column") {
        FlexDirection::Column
    } else if str_eq(s, "row_reverse") || str_eq(s, "row-reverse") {
        FlexDirection::RowReverse
    } else if str_eq(s, "column_reverse") || str_eq(s, "column-reverse") {
        FlexDirection::ColumnReverse
    } else {
        FlexDirection::Row
    }
}

/// The cross-axis alignment that a word names; `stretch` for an unknown
/// word.
pub open spec fn align_items_of(s: Seq<char>) -> AlignItems {
    if s == "center"@ {
        AlignItems::Center
    } else if s == "flex_start"@ || s == "flex-start"@ || s == "start"@ {
        AlignItems::FlexStart
    } else if s == "flex_end"@ || s == "flex-end"@ || s == "end"@ {
        AlignItems::FlexEnd
    } else {
        AlignItems::Stretch
    }
}

/// Reads `align_items`.
pub fn parse_align_items(s: &str) -> (r: AlignItems)
    ensures
        r == align_items_of(s@),
{
    if str_eq(s, "center") {
        AlignItems::Center
    } else if str_eq(s, "flex_start") || str_eq(s, "flex-start") || str_eq(s, "start") {
        AlignItems::FlexStart
    } else if str_eq(s, "flex_end") || str_eq(s, "flex-end") || str_eq(s, "end") {
        AlignItems::FlexEnd
    } else {
        AlignItems::Stretch
    }
}

/// The main-axis distribution that a word names; `flex_start` for an
/// unknown word.
pub open spec fn justify_content_of(s: Seq<char>) -> JustifyContent {
    if s == "center"@ {
        JustifyContent::Center
    } else if s == "flex_end"@ || s == "flex-end"@ || s == "end"@ {
        JustifyContent::FlexEnd
    } else if s == "space_between"@ || s == "space-between"@ {
        JustifyContent::SpaceBetween
    } else if s == "space_around"@ || s == "space-around"@ {
        JustifyContent::SpaceAround
    } else if s == "space_evenly"@ || s == "space-evenly"@ {
        JustifyContent::SpaceEvenly
    } else {
        JustifyContent::FlexStart
    }
}

/// Reads `justify_content`.
pub fn parse_justify_content(s: &str) -> (r: JustifyContent)
    ensures
        r == justify_content_of(s@),
{
    if str_eq(s, "center") {
        JustifyContent::Center
    } else if str_eq(s, "flex_end") || str_eq(s, "flex-end") || str_eq(s, "end") {
        JustifyContent::FlexEnd
    } else if str_eq(s, "space_between") || str_eq(s, "space-between") {
        JustifyContent::SpaceBetween
    } else if str_eq(s, "space_around") || str_eq(s, "space-around") {
        JustifyContent::SpaceAround
    } else if str_eq(s, "space_evenly") || str_eq(s, "space-evenly") {
        JustifyContent::SpaceEvenly
    } else {
        JustifyContent::FlexStart
    }
}

/// The display that a word names: `grid`, `none` (hidden), or flex for
/// every other word.
pub open spec fn display_of(s: Seq<char>) -> Display {
    if s == "grid"@ {
        Display::Grid
    } else if s == "none"@ {
        Display::Hidden
    } else {
        Display::Flex
    }
}

/// Reads `display`.
pub fn parse_display(s: &str) -> (r: Display)
    ensures
        r == display_of(s@),
{
    if str_eq(s, "grid") {
        Display::Grid
    } else if str_eq(s, "none") {
        Display::Hidden
    } else {
        Display::Flex
    }
}

/// The position that a word names: `absolute`, or relative for every other
/// word.
pub open spec fn position_of(s: Seq<char>) -> Position {
    if s == "absolute"@ {
        Position::Absolute
    } else {
        Position::Relative
    }
}

/// Reads `position`.
pub fn parse_position(s: &str) -> (r: Position)
    ensures
        r == position_of(s@),
{
    if str_eq(s, "absolute") {
        Position::Absolute
    } else {
        Position::Relative
    }
}

/// Each flex-direction keyword names its direction, in its CSS (hyphen)
/// and script (underscore) spelling alike.
pub proof fn lemma_flex_direction_keywords()
    ensures
        flex_direction_of("row"@) == FlexDirection::Row,
        flex_direction_of("column"@) == FlexDirection::Column,
        flex_direction_of("row-reverse"@) == FlexDirection::RowReverse,
        flex_direction_of("row_reverse"@) == FlexDirection::RowReverse,
        flex_direction_of("column-reverse"@) == FlexDirection::ColumnReverse,
        flex_direction_of("column_reverse"@) == FlexDirection::ColumnReverse,
{
    reveal_strlit("column");
    reveal_strlit("row");
    reveal_strlit("row_reverse");
    reveal_strlit("row-reverse");
    reveal_strlit("column_reverse");
    reveal_strlit("column-reverse");
    assert("column"@.len() == 6);
    assert("row"@.len() == 3);
    assert("row_reverse"@.len() == 11);
    assert("row-reverse"@.len() == 11);
    assert("column_reverse"@.len() == 14);
    assert("column-reverse"@.len() == 14);
    assert("row_reverse"@[3] != "row-reverse"@[3]);
    assert("column_reverse"@[6] != "column-reverse"@[6]);
}

/// Each align-items keyword names its alignment, in its CSS (hyphen) and
/// script (underscore) spelling and its short form alike.
pub proof fn lemma_align_items_keywords()
    ensures
        align_items_of("center"@) == AlignItems::Center,
        align_items_of("flex-start"@) == AlignItems::FlexStart,
        align_items_of("flex_start"@) == AlignItems::FlexStart,
        align_items_of("start"@) == AlignItems::FlexStart,
        align_items_of("flex-end"@) == AlignItems::FlexEnd,
        align_items_of("flex_end"@) == AlignItems::FlexEnd,
        align_items_of("end"@) == AlignItems::FlexEnd,
        align_items_of("stretch"@) == AlignItems::Stretch,
{
    reveal_strlit("center");
    reveal_strlit("flex_start");
    reveal_strlit("flex-start");
    reveal_strlit("start");
    reveal_strlit("flex_end");
    reveal_strlit("flex-end");
    reveal_strlit("end");
    reveal_strlit("stretch");
    assert("center"@.len() == 6);
    assert("flex_start"@.len() == 10);
    assert("flex-start"@.len() == 10);
    assert("start"@.len() == 5);
    assert("flex_end"@.len() == 8);
    assert("flex-end"@.len() == 8);
    assert("end"@.len() == 3);
    assert("stretch"@.len() == 7);
    assert("flex_start"@[4] != "flex-start"@[4]);
    assert("flex_end"@[4] != "flex-end"@[4]);
}

/// Each justify-content keyword names its distribution, in its CSS
/// (hyphen) and script (underscore) spelling and its short form alike.
pub proof fn lemma_justify_content_keywords()
    ensures
        justify_content_of("center"@) == JustifyContent::Center,
        justify_content_of("flex-start"@) == JustifyContent::FlexStart,
        justify_content_of("flex_start"@) == JustifyContent::FlexStart,
        justify_content_of("start"@) == JustifyContent::FlexStart,
        justify_content_of("flex-end"@) == JustifyContent::FlexEnd,
        justify_content_of("flex_end"@) == JustifyContent::FlexEnd,
        justify_content_of("end"@) == JustifyContent::FlexEnd,
        justify_content_of("space-between"@) == JustifyContent::SpaceBetween,
        justify_content_of("space_between"@) == JustifyContent::SpaceBetween,
        justify_content_of("space-around"@) == JustifyContent::SpaceAround,
        justify_content_of("space_around"@) == JustifyContent::SpaceAround,
        justify_content_of("space-evenly"@) == JustifyContent::SpaceEvenly,
        justify_content_of("space_evenly"@) == JustifyContent::SpaceEvenly,
{
    reveal_strlit("center");
    reveal_strlit("flex_start");
    reveal_strlit("flex-start");
    reveal_strlit("start");
    reveal_strlit("flex_end");
    reveal_strlit("flex-end");
    reveal_strlit("end");
    reveal_strlit("space_between");
    reveal_strlit("space-between");
    reveal_strlit("space_around");
    reveal_strlit("space-around");
    reveal_strlit("space_evenly");
    reveal_strlit("space-evenly");
    assert("center"@.len() == 6);
    assert("flex_start"@.len() == 10);
    assert("flex-start"@.len() == 10);
    assert("start"@.len() == 5);
    assert("flex_end"@.len() == 8);
    assert("flex-end"@.len() == 8);
    assert("end"@.len() == 3);
    assert("space_between"@.len() == 13);
    assert("space-between"@.len() == 13);
    assert("space_around"@.len() == 12);
    assert("space-around"@.len() == 12);
    assert("space_evenly"@.len() == 12);
    assert("space-evenly"@.len() == 12);
    assert("flex_start"@[4] != "flex-start"@[4]);
    assert("flex_end"@[4] != "flex-end"@[4]);
    assert("space_between"@[5] != "space-between"@[5]);
    assert("space_around"@[5] != "space-around"@[5]);
    assert("space_around"@[6] != "space_evenly"@[6]);
    assert("space_around"@[5] != "space-evenly"@[5]);
    assert("space-around"@[5] != "space_evenly"@[5]);
    assert("space-around"@[6] != "space-evenly"@[6]);
    assert("space_evenly"@[5] != "space-evenly"@[5]);
}

/// `grid` lays out as a grid, `none` hides the node, and `flex` is flex.
pub proof fn lemma_display_keywords()
    ensures
        display_of("grid"@) == Display::Grid,
        display_of("none"@) == Display::Hidden,
        display_of("flex"@) == Display::Flex,
{
    reveal_strlit("grid");
    reveal_strlit("none");
    reveal_strlit("flex");
    assert("grid"@.len() == 4);
    assert("none"@.len() == 4);
    assert("flex"@.len() == 4);
    assert("grid"@[0] != "none"@[0]);
    assert("grid"@[0] != "flex"@[0]);
    assert("none"@[0] != "flex"@[0]);
}

/// `absolute` places a node by its insets; `relative` keeps it in the flow.
pub proof fn lemma_position_keywords()
    ensures
        position_of("absolute"@) == Position::Absolute,
        position_of("relative"@) == Position::Relative,
{
    reveal_strlit("absolute");
    reveal_strlit("relative");
    assert("absolute"@.len() == 8);
    assert("relative"@.len() == 8);
    assert("absolute"@[0] != "relative"@[0]);
}

} // verus!
