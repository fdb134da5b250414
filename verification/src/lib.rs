//! Director core: the scene graph, timeline tokens and the parsing rules of a
//! programmatic video rendering engine, with their contracts.

pub mod animation;
pub mod audio;
pub mod director;
pub mod director_laws;
pub mod element;
pub mod errors;
pub mod loader;
pub mod node;
pub mod scene;
pub mod scene_check;
pub mod scene_laws;
pub mod scene_lemmas;
pub mod scene_lists;
pub mod scripting;
pub mod strings;
pub mod systems;
pub mod tokens;
pub mod types;
pub mod video_wrapper;

pub use errors::RenderError;
pub use loader::{AssetLoader, DefaultAssetLoader};
