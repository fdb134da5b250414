//! The engine's error type.

use vstd::prelude::*;

verus! {

/// `anyhow`'s error type, carried through without looking inside.
#[verifier::external_type_specification]
#[verifier::external_body]
pub struct ExAnyhowError(anyhow::Error);

/// The standard I/O error type, carried through without looking inside.
#[verifier::external_type_specification]
#[verifier::external_body]
pub struct ExIoError(std::io::Error);

/// What can go wrong while loading assets or rendering.
#[derive(Debug)]
pub enum RenderError {
    /// An asset could not be found; the payload names it.
    AssetNotFound(String),
    /// The drawing surface could not be created.
    SurfaceFailure,
    /// The graphics library reported an error.
    SkiaError(String),
    /// An I/O operation failed.
    IoError(std::io::Error),
    /// Any other error.
    Anyhow(anyhow::Error),
    /// The scene graph was nested deeper than rendering allows.
    RecursionLimit,
}

impl From<std::io::Error> for RenderError {
    fn from(e: std::io::Error) -> (r: Self) {
        RenderError::IoError(e)
    }
}

impl vstd::std_specs::convert::FromSpecImpl<std::io::Error> for RenderError {
    open spec fn obeys_from_spec() -> bool {
        true
    }

    open spec fn from_spec(e: std::io::Error) -> Self {
        RenderError::IoError(e)
    }
}

impl From<anyhow::Error> for RenderError {
    fn from(e: anyhow::Error) -> (r: Self) {
        RenderError::Anyhow(e)
    }
}

impl vstd::std_specs::convert::FromSpecImpl<anyhow::Error> for RenderError {
    open spec fn obeys_from_spec() -> bool {
        true
    }

    open spec fn from_spec(e: anyhow::Error) -> Self {
        RenderError::Anyhow(e)
    }
}

} // verus!
