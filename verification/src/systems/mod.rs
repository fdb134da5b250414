//! Engine systems that the renderer drives.

pub mod layout;
pub mod renderer;
pub mod transitions;
