use director_core::audio::AudioMixer;
use director_core::errors::RenderError;
use director_core::loader::{AssetLoader, DefaultAssetLoader};
use director_core::systems::transitions::{get_transition_shader, TransitionType, FADE_SHADER};
use director_core::tokens::DesignSystem;
use director_core::video_wrapper::mock::{Decoder, EncoderSettings as MockSettings, Time};
use director_core::video_wrapper::{EncoderSettings, HardwareAccel};

#[test]
fn shaders_per_transition() {
    let fade = get_transition_shader(&TransitionType::Fade);
    assert_eq!(fade, FADE_SHADER);
    assert!(fade.contains("return mix(colorA, colorB, progress);"));
    assert!(get_transition_shader(&TransitionType::SlideLeft).contains("float x_offset = resolution.x * progress;"));
    assert!(get_transition_shader(&TransitionType::SlideRight).contains("if (p.x > x_offset) {"));
    assert!(get_transition_shader(&TransitionType::WipeLeft).contains("float boundary = resolution.x * (1.0 - progress);"));
    assert!(get_transition_shader(&TransitionType::WipeRight).contains("float boundary = resolution.x * progress;"));
    assert!(get_transition_shader(&TransitionType::CircleOpen).contains("float max_radius = length(resolution);"));
    let all = [
        TransitionType::Fade,
        TransitionType::SlideLeft,
        TransitionType::SlideRight,
        TransitionType::WipeLeft,
        TransitionType::WipeRight,
        TransitionType::CircleOpen,
    ];
    for (i, a) in all.iter().enumerate() {
        for (j, b) in all.iter().enumerate() {
            assert_eq!(i == j, get_transition_shader(a) == get_transition_shader(b));
        }
    }
}

#[test]
fn design_tokens_and_fallbacks() {
    let ds = DesignSystem::new();
    assert_eq!(ds.space("md"), 16);
    assert_eq!(ds.space("xl"), 32);
    assert_eq!(ds.space("7xl"), 200);
    assert_eq!(ds.space("huge"), 16);
    assert_eq!(ds.radius("full"), 9999);
    assert_eq!(ds.radius("sm"), 4);
    assert_eq!(ds.radius("nope"), 0);
    assert_eq!(ds.border("thick"), 4);
    assert_eq!(ds.border("nope"), 0);
    assert_eq!(ds.z("underground"), -10);
    assert_eq!(ds.z("modal"), 100);
    assert_eq!(ds.z("nope"), 1);
}

#[test]
fn safe_areas_fall_back_to_desktop() {
    let ds = DesignSystem::new();
    let tiktok = ds.safe_area("tiktok");
    assert_eq!((tiktok.top, tiktok.bottom, tiktok.left, tiktok.right), (100, 180, 24, 80));
    assert_eq!(tiktok.aspect_ratio, "9:16");
    let other = ds.safe_area("smartwatch");
    let desktop = ds.safe_area("desktop");
    assert_eq!((other.top, other.bottom, other.left, other.right), (64, 64, 96, 96));
    assert_eq!(other.aspect_ratio, desktop.aspect_ratio);
    assert_eq!(desktop.aspect_ratio, "16:9");
}

#[test]
fn mixer_reuses_the_first_empty_slot() {
    let mut m: AudioMixer<&str> = AudioMixer::new(48000);
    assert_eq!(m.sample_rate, 48000);
    assert_eq!(m.add_track("a"), 0);
    assert_eq!(m.add_track("b"), 1);
    assert_eq!(m.add_track("c"), 2);
    m.tracks[1] = None;
    m.tracks[0] = None;
    assert_eq!(m.add_track("d"), 0);
    assert_eq!(m.add_track("e"), 1);
    assert_eq!(m.add_track("f"), 3);
    assert_eq!(m.tracks, vec![Some("d"), Some("e"), Some("c"), Some("f")]);
}

#[test]
fn mixer_track_access() {
    let mut m: AudioMixer<u32> = AudioMixer::new(44100);
    let id = m.add_track(5);
    *m.get_track_mut(id).unwrap() = 9;
    assert_eq!(m.tracks[id], Some(9));
    assert!(m.get_track_mut(7).is_none());
}

#[test]
fn encoder_presets() {
    let s = EncoderSettings::preset_h264_yuv420p(1920, 1080, false);
    assert_eq!((s.width, s.height, s.sample_rate), (1920, 1080, 48000));
    assert_eq!(s.hardware_accel, HardwareAccel::Auto);
    let s = s.with_hardware_accel(HardwareAccel::Nvenc);
    assert_eq!((s.width, s.height, s.sample_rate), (1920, 1080, 48000));
    assert_eq!(s.hardware_accel, HardwareAccel::Nvenc);
    assert_eq!(HardwareAccel::default(), HardwareAccel::Auto);
    let _m = MockSettings::preset_h264_yuv420p(640, 480, true);
}

#[test]
fn stand_in_decoder_always_succeeds() {
    let mut d = Decoder::new(std::path::Path::new("missing.mp4")).unwrap();
    assert!(d.seek(1500).is_ok());
    assert_eq!(Time::from_nth_of_second(3, 30), Time);
}

#[test]
fn default_loader_paths() {
    let l = DefaultAssetLoader;
    assert_eq!(l.asset_paths("img/logo.png"), vec!["img/logo.png".to_string(), "assets/img/logo.png".to_string()]);
    assert_eq!(
        l.font_fallback_paths(Some("/fonts/e.ttf")),
        vec!["/fonts/e.ttf".to_string(), "assets/fonts/emoji.ttf".to_string()]
    );
    assert_eq!(l.font_fallback_paths(None), vec!["assets/fonts/emoji.ttf".to_string()]);
}

struct Fixed;
impl AssetLoader for Fixed {
    fn load_bytes(&self, _path: &str) -> Result<Vec<u8>, anyhow::Error> {
        Ok(vec![1, 2, 3])
    }
}

#[test]
fn loader_trait_default_has_no_font() {
    let f = Fixed;
    assert_eq!(f.load_bytes("x").unwrap(), vec![1, 2, 3]);
    assert!(f.load_font_fallback().is_none());
}

#[test]
fn errors_convert_from_io_and_anyhow() {
    let e: RenderError = std::io::Error::new(std::io::ErrorKind::NotFound, "gone").into();
    assert!(matches!(e, RenderError::IoError(_)));
    let e: RenderError = anyhow::Error::msg("boom").into();
    assert!(matches!(e, RenderError::Anyhow(_)));
}
