//! The rules behind the scripting API: how script values are read.

pub mod grid;
pub mod layout_props;
pub mod theme;
pub mod utils;
