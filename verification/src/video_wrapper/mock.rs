//! Stand-ins for the video backend, used when the engine is built without
//! one: decoding yields nothing and encoding settings carry nothing.

use std::path::{Path, PathBuf};
use vstd::prelude::*;

verus! {

/// A borrowed file-system path, carried through without looking inside.
#[verifier::external_type_specification]
#[verifier::external_body]
pub struct ExPath(Path);

/// An owned file-system path, carried through without looking inside.
#[verifier::external_type_specification]
#[verifier::external_body]
pub struct ExPathBuf(PathBuf);

/// A decoder that opens any path and seeks anywhere.
#[derive(Debug)]
pub struct Decoder;

impl Decoder {
    /// Opens a video file; the stand-in always succeeds.
    pub fn new(_path: &Path) -> (r: Result<Self, String>)
        ensures
            r is Ok,
    {
        Ok(Decoder)
    }

    /// Seeks to a position in milliseconds; the stand-in always succeeds.
    pub fn seek(&mut self, _ms: i64) -> (r: Result<(), anyhow::Error>)
        ensures
            r is Ok,
    {
        Ok(())
    }
}

/// Where an encoded video goes.
pub struct Locator;

impl From<PathBuf> for Locator {
    fn from(_p: PathBuf) -> (r: Self) {
        Locator
    }
}

impl vstd::std_specs::convert::FromSpecImpl<PathBuf> for Locator {
    open spec fn obeys_from_spec() -> bool {
        true
    }

    open spec fn from_spec(p: PathBuf) -> Self {
        Locator
    }
}

/// Encoding settings, which the stand-in ignores.
pub struct EncoderSettings;

impl EncoderSettings {
    /// The H.264 preset; the stand-in keeps nothing of its arguments.
    pub fn preset_h264_yuv420p(_w: usize, _h: usize, _b: bool) -> (r: Self)
        ensures
            r == EncoderSettings,
    {
        EncoderSettings
    }
}

/// A position in a video stream.
#[derive(Clone, Copy, Debug, PartialEq, Eq, Structural)]
pub struct Time;

impl Time {
    /// The time of the `n`-th frame at `fps` frames per second.
    pub fn from_nth_of_second(_n: usize, _fps: u32) -> (r: Self)
        ensures
            r == Time,
    {
        Time
    }
}

/// A decoded frame.
pub struct Frame;

} // verus!
