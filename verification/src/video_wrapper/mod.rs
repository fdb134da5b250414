//! Video encoding settings and the modes that decide how video resources are
//! loaded.

pub mod mock;

use crate::strings::str_eq;
use vstd::prelude::*;

verus! {

/// Hint for determining how to handle resource loading (e.g. video decoding
/// buffering).
#[derive(Debug, Clone, Copy, PartialEq, Eq, Structural)]
pub enum RenderMode {
    /// Optimized for playback; may drop frames to keep up or buffer opportunistically.
    Preview,
    /// Must render every frame perfectly; blocking operations allowed.
    Export,
}

/// The render mode that a script's `mode` setting names: `export`, or preview
/// for every other value.
pub open spec fn render_mode_of(name: Seq<char>) -> RenderMode {
    if name == "export"@ {
        RenderMode::Export
    } else {
        RenderMode::Preview
    }
}

/// Parses the `mode` setting of a new director.
pub fn parse_render_mode(name: &str) -> (r: RenderMode)
    ensures
        r == render_mode_of(name@),
{
    if str_eq(name, "export") {
        RenderMode::Export
    } else {
        RenderMode::Preview
    }
}

/// Hardware acceleration options for video encoding.
#[derive(Debug, Clone, Copy, PartialEq, Eq, Structural)]
pub enum HardwareAccel {
    /// Auto-detect best available hardware encoder (NVENC -> QSV -> AMF -> Software)
    Auto,
    /// Force NVIDIA NVENC
    Nvenc,
    /// Force Intel QuickSync
    Qsv,
    /// Force AMD AMF
    Amf,
    /// Force software encoding (libx264)
    Software,
}

impl Default for HardwareAccel {
    fn default() -> (r: Self)
        ensures
            r == HardwareAccel::Auto,
    {
        HardwareAccel::Auto
    }
}

/// Configuration for video encoding.
pub struct EncoderSettings {
    pub width: usize,
    pub height: usize,
    pub sample_rate: i32,
    pub hardware_accel: HardwareAccel,
}

impl EncoderSettings {
    /// Creates a default H.264 / AAC preset: the given frame size, 48 kHz
    /// audio, and automatic hardware acceleration.
    pub fn preset_h264_yuv420p(w: usize, h: usize, _b: bool) -> (r: Self)
        ensures
            r.width == w,
            r.height == h,
            r.sample_rate == 48000,
            r.hardware_accel == HardwareAccel::Auto,
    {
        EncoderSettings { width: w, height: h, sample_rate: 48000, hardware_accel: HardwareAccel::Auto }
    }

    /// Set hardware acceleration mode.
    pub fn with_hardware_accel(self, accel: HardwareAccel) -> (r: Self)
        ensures
            r.width == self.width,
            r.height == self.height,
            r.sample_rate == self.sample_rate,
            r.hardware_accel == accel,
    {
        let mut s = self;
        s.hardware_accel = accel;
        s
    }
}


/// `export` renders every frame; `preview` may drop frames.
pub proof fn lemma_render_mode_names()
    ensures
        render_mode_of("export"@) == RenderMode::Export,
        render_mode_of("preview"@) == RenderMode::Preview,
{
    reveal_strlit("export");
    reveal_strlit("preview");
    assert("export"@.len() == 6);
    assert("preview"@.len() == 7);
}

} // verus!
