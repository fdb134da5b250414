//! Design system tokens (spacing, radii, border widths, z-indices, safe areas)
//! and their lookups.
//!
//! Every length token is a whole number of pixels.

use crate::types::SafeZone;
use vstd::hash_map::StringHashMap;
use vstd::prelude::*;

verus! {

/// Spacing tokens in pixels.
pub open spec fn spacing_tokens() -> Map<Seq<char>, u32> {
    map![
        "none"@ => 0u32,
        "xxs"@ => 4u32,
        "xs"@ => 8u32,
        "sm"@ => 12u32,
        "md"@ => 16u32,
        "lg"@ => 24u32,
        "xl"@ => 32u32,
        "2xl"@ => 48u32,
        "3xl"@ => 64u32,
        "4xl"@ => 80u32,
        "5xl"@ => 120u32,
        "6xl"@ => 160u32,
        "7xl"@ => 200u32
    ]
}

/// Border radius tokens in pixels.
pub open spec fn radius_tokens() -> Map<Seq<char>, u32> {
    map![
        "none"@ => 0u32,
        "xs"@ => 2u32,
        "sm"@ => 4u32,
        "md"@ => 8u32,
        "lg"@ => 12u32,
        "xl"@ => 16u32,
        "2xl"@ => 24u32,
        "3xl"@ => 32u32,
        "full"@ => 9999u32
    ]
}

/// Border width tokens in pixels.
pub open spec fn border_tokens() -> Map<Seq<char>, u32> {
    map![
        "none"@ => 0u32,
        "thin"@ => 1u32,
        "base"@ => 2u32,
        "thick"@ => 4u32,
        "heavy"@ => 8u32,
        "ultra"@ => 12u32
    ]
}

/// Z-index tokens.
pub open spec fn z_index_tokens() -> Map<Seq<char>, i32> {
    map![
        "underground"@ => -10i32,
        "background"@ => 0i32,
        "base"@ => 1i32,
        "content"@ => 10i32,
        "elevated"@ => 20i32,
        "overlay"@ => 50i32,
        "dropdown"@ => 75i32,
        "modal"@ => 100i32,
        "toast"@ => 200i32,
        "tooltip"@ => 300i32,
        "debug"@ => 9999i32
    ]
}

/// The safe zone preset of a platform: top, bottom, left and right padding and
/// the aspect ratio.
pub open spec fn safe_zone_preset(name: Seq<char>) -> Option<(u32, u32, u32, u32, Seq<char>)> {
    if name == "desktop"@ {
        Some((64u32, 64u32, 96u32, 96u32, "16:9"@))
    } else if name == "mobile"@ {
        Some((96u32, 144u32, 64u32, 64u32, "9:16"@))
    } else if name == "youtube_shorts"@ {
        Some((120u32, 200u32, 48u32, 48u32, "9:16"@))
    } else if name == "tiktok"@ {
        Some((100u32, 180u32, 24u32, 80u32, "9:16"@))
    } else if name == "instagram_reel"@ {
        Some((120u32, 160u32, 32u32, 32u32, "9:16"@))
    } else if name == "instagram_story"@ {
        Some((100u32, 120u32, 24u32, 24u32, "9:16"@))
    } else if name == "linkedin"@ {
        Some((40u32, 40u32, 24u32, 24u32, "16:9"@))
    } else if name == "twitter"@ {
        Some((32u32, 32u32, 32u32, 32u32, "16:9"@))
    } else {
        None
    }
}

/// Whether a safe zone has the given padding and aspect ratio.
pub open spec fn zone_is(z: SafeZone, v: (u32, u32, u32, u32, Seq<char>)) -> bool {
    &&& z.top == v.0
    &&& z.bottom == v.1
    &&& z.left == v.2
    &&& z.right == v.3
    &&& z.aspect_ratio@ == v.4
}

/// A collection of standard design tokens exposed to scripts.
pub struct DesignSystem {
    /// Spacing tokens (px). Keys: `xs` (8), `md` (16), `xl` (32), etc.
    pub spacing: StringHashMap<u32>,
    /// Safe area presets for different platforms. Keys: `mobile`, `tiktok`, `desktop`, etc.
    pub safe_areas: StringHashMap<SafeZone>,
    /// Border radius presets (px). Keys: `sm` (4), `md` (8), `full` (9999).
    pub border_radius: StringHashMap<u32>,
    /// Border width presets (px). Keys: `thin` (1), `thick` (4).
    pub border_width: StringHashMap<u32>,
    /// Z-index presets. Keys: `background` (0), `overlay` (50), `modal` (100).
    pub z_index: StringHashMap<i32>,
    /// Layout width presets (px); none are defined.
    pub layout_widths: StringHashMap<u32>,
}

fn zone(top: u32, bottom: u32, left: u32, right: u32, aspect_ratio: &str) -> (z: SafeZone)
    ensures
        zone_is(z, (top, bottom, left, right, aspect_ratio@)),
{
    SafeZone { top, bottom, left, right, aspect_ratio: aspect_ratio.to_string() }
}

impl DesignSystem {
    /// Whether the tokens are the standard ones.
    pub open spec fn is_standard(self) -> bool {
        &&& self.spacing@ == spacing_tokens()
        &&& self.border_radius@ == radius_tokens()
        &&& self.border_width@ == border_tokens()
        &&& self.z_index@ == z_index_tokens()
        &&& self.layout_widths@ == Map::<Seq<char>, u32>::empty()
        &&& forall|k: Seq<char>| #[trigger] self.safe_areas@.contains_key(k) <==> safe_zone_preset(k) is Some
        &&& forall|k: Seq<char>|
            #[trigger] self.safe_areas@.contains_key(k) ==> zone_is(self.safe_areas@[k], safe_zone_preset(k).unwrap())
    }

    /// The default design system with the standard tokens.
    pub fn new() -> (ds: Self)
        ensures
            ds.is_standard(),
    {
        let mut spacing: StringHashMap<u32> = StringHashMap::new();
        spacing.insert("none".to_string(), 0);
        spacing.insert("xxs".to_string(), 4);
        spacing.insert("xs".to_string(), 8);
        spacing.insert("sm".to_string(), 12);
        spacing.insert("md".to_string(), 16);
        spacing.insert("lg".to_string(), 24);
        spacing.insert("xl".to_string(), 32);
        spacing.insert("2xl".to_string(), 48);
        spacing.insert("3xl".to_string(), 64);
        spacing.insert("4xl".to_string(), 80);
        spacing.insert("5xl".to_string(), 120);
        spacing.insert("6xl".to_string(), 160);
        spacing.insert("7xl".to_string(), 200);

        let mut border_radius: StringHashMap<u32> = StringHashMap::new();
        border_radius.insert("none".to_string(), 0);
        border_radius.insert("xs".to_string(), 2);
        border_radius.insert("sm".to_string(), 4);
        border_radius.insert("md".to_string(), 8);
        border_radius.insert("lg".to_string(), 12);
        border_radius.insert("xl".to_string(), 16);
        border_radius.insert("2xl".to_string(), 24);
        border_radius.insert("3xl".to_string(), 32);
        border_radius.insert("full".to_string(), 9999);

        let mut border_width: StringHashMap<u32> = StringHashMap::new();
        border_width.insert("none".to_string(), 0);
        border_width.insert("thin".to_string(), 1);
        border_width.insert("base".to_string(), 2);
        border_width.insert("thick".to_string(), 4);
        border_width.insert("heavy".to_string(), 8);
        border_width.insert("ultra".to_string(), 12);

        let mut z_index: StringHashMap<i32> = StringHashMap::new();
        z_index.insert("underground".to_string(), -10);
        z_index.insert("background".to_string(), 0);
        z_index.insert("base".to_string(), 1);
        z_index.insert("content".to_string(), 10);
        z_index.insert("elevated".to_string(), 20);
        z_index.insert("overlay".to_string(), 50);
        z_index.insert("dropdown".to_string(), 75);
        z_index.insert("modal".to_string(), 100);
        z_index.insert("toast".to_string(), 200);
        z_index.insert("tooltip".to_string(), 300);
        z_index.insert("debug".to_string(), 9999);

        let mut safe_areas: StringHashMap<SafeZone> = StringHashMap::new();
        // Desktop / default
        let z_desktop = zone(64, 64, 96, 96, "16:9");
        safe_areas.insert("desktop".to_string(), z_desktop);
        // Mobile (stories, shorts, reels)
        let z_mobile = zone(96, 144, 64, 64, "9:16");
        safe_areas.insert("mobile".to_string(), z_mobile);
        // YouTube Shorts (specific overlays)
        let z_youtube_shorts = zone(120, 200, 48, 48, "9:16");
        safe_areas.insert("youtube_shorts".to_string(), z_youtube_shorts);
        // TikTok (heavy interface)
        let z_tiktok = zone(100, 180, 24, 80, "9:16");
        safe_areas.insert("tiktok".to_string(), z_tiktok);
        // Instagram Reels
        let z_instagram_reel = zone(120, 160, 32, 32, "9:16");
        safe_areas.insert("instagram_reel".to_string(), z_instagram_reel);
        // Instagram Story
        let z_instagram_story = zone(100, 120, 24, 24, "9:16");
        safe_areas.insert("instagram_story".to_string(), z_instagram_story);
        // LinkedIn (aggressive cropping)
        let z_linkedin = zone(40, 40, 24, 24, "16:9");
        safe_areas.insert("linkedin".to_string(), z_linkedin);
        // Twitter
        let z_twitter = zone(32, 32, 32, 32, "16:9");
        safe_areas.insert("twitter".to_string(), z_twitter);

        proof {
            reveal_strlit("desktop");
            reveal_strlit("mobile");
            reveal_strlit("youtube_shorts");
            reveal_strlit("tiktok");
            reveal_strlit("instagram_reel");
            reveal_strlit("instagram_story");
            reveal_strlit("linkedin");
            reveal_strlit("twitter");
            let sa = safe_areas@;
            assert("desktop"@.len() == 7);
            assert("mobile"@.len() == 6);
            assert("youtube_shorts"@.len() == 14);
            assert("tiktok"@.len() == 6);
            assert("instagram_reel"@.len() == 14);
            assert("instagram_story"@.len() == 15);
            assert("linkedin"@.len() == 8);
            assert("twitter"@.len() == 7);
            assert("desktop"@[0] != "twitter"@[0]);
            assert("mobile"@[0] != "tiktok"@[0]);
            assert("youtube_shorts"@[0] != "instagram_reel"@[0]);
            assert(spacing@ == spacing_tokens());
            assert(border_radius@ == radius_tokens());
            assert(border_width@ == border_tokens());
            assert(z_index@ == z_index_tokens());
            assert forall|k: Seq<char>| #[trigger] sa.contains_key(k) <==> safe_zone_preset(k) is Some by {}
            assert forall|k: Seq<char>| #[trigger] sa.contains_key(k) implies zone_is(sa[k], safe_zone_preset(k).unwrap()) by {
                if k == "desktop"@ {
                    assert(sa[k] == z_desktop);
                } else if k == "mobile"@ {
                    assert(sa[k] == z_mobile);
                } else if k == "youtube_shorts"@ {
                    assert(sa[k] == z_youtube_shorts);
                } else if k == "tiktok"@ {
                    assert(sa[k] == z_tiktok);
                } else if k == "instagram_reel"@ {
                    assert(sa[k] == z_instagram_reel);
                } else if k == "instagram_story"@ {
                    assert(sa[k] == z_instagram_story);
                } else if k == "linkedin"@ {
                    assert(sa[k] == z_linkedin);
                } else if k == "twitter"@ {
                    assert(sa[k] == z_twitter);
                }
            }
        }
        DesignSystem {
            spacing,
            safe_areas,
            border_radius,
            border_width,
            z_index,
            layout_widths: StringHashMap::new(),
        }
    }
}


/// The z-index scale: the documented layers, each drawn above the one before
/// it (underground, background, base, content, elevated, overlay, dropdown,
/// modal, toast, tooltip, debug).
pub proof fn lemma_z_index_scale(ds: DesignSystem)
    requires
        ds.is_standard(),
    ensures
        ds.z_index@.contains_key("underground"@) && ds.z_index@["underground"@] == -10i32,
        ds.z_index@.contains_key("background"@) && ds.z_index@["background"@] == 0i32,
        ds.z_index@.contains_key("base"@) && ds.z_index@["base"@] == 1i32,
        ds.z_index@.contains_key("content"@) && ds.z_index@["content"@] == 10i32,
        ds.z_index@.contains_key("elevated"@) && ds.z_index@["elevated"@] == 20i32,
        ds.z_index@.contains_key("overlay"@) && ds.z_index@["overlay"@] == 50i32,
        ds.z_index@.contains_key("dropdown"@) && ds.z_index@["dropdown"@] == 75i32,
        ds.z_index@.contains_key("modal"@) && ds.z_index@["modal"@] == 100i32,
        ds.z_index@.contains_key("toast"@) && ds.z_index@["toast"@] == 200i32,
        ds.z_index@.contains_key("tooltip"@) && ds.z_index@["tooltip"@] == 300i32,
        ds.z_index@.contains_key("debug"@) && ds.z_index@["debug"@] == 9999i32,
        ds.z_index@["underground"@] < ds.z_index@["background"@],
        ds.z_index@["background"@] < ds.z_index@["base"@],
        ds.z_index@["base"@] < ds.z_index@["content"@],
        ds.z_index@["content"@] < ds.z_index@["elevated"@],
        ds.z_index@["elevated"@] < ds.z_index@["overlay"@],
        ds.z_index@["overlay"@] < ds.z_index@["dropdown"@],
        ds.z_index@["dropdown"@] < ds.z_index@["modal"@],
        ds.z_index@["modal"@] < ds.z_index@["toast"@],
        ds.z_index@["toast"@] < ds.z_index@["tooltip"@],
        ds.z_index@["tooltip"@] < ds.z_index@["debug"@],
{
    reveal_strlit("underground");
    reveal_strlit("background");
    reveal_strlit("base");
    reveal_strlit("content");
    reveal_strlit("elevated");
    reveal_strlit("overlay");
    reveal_strlit("dropdown");
    reveal_strlit("modal");
    reveal_strlit("toast");
    reveal_strlit("tooltip");
    reveal_strlit("debug");
    assert("underground"@.len() == 11);
    assert("background"@.len() == 10);
    assert("base"@.len() == 4);
    assert("content"@.len() == 7);
    assert("elevated"@.len() == 8);
    assert("overlay"@.len() == 7);
    assert("dropdown"@.len() == 8);
    assert("modal"@.len() == 5);
    assert("toast"@.len() == 5);
    assert("tooltip"@.len() == 7);
    assert("debug"@.len() == 5);
    assert("content"@[0] != "overlay"@[0]);
    assert("content"@[0] != "tooltip"@[0]);
    assert("elevated"@[0] != "dropdown"@[0]);
    assert("overlay"@[0] != "tooltip"@[0]);
    assert("modal"@[0] != "toast"@[0]);
    assert("modal"@[0] != "debug"@[0]);
    assert("toast"@[0] != "debug"@[0]);
}

/// The spacing scale: the documented sizes, each larger than the one before.
pub proof fn lemma_spacing_scale(ds: DesignSystem)
    requires
        ds.is_standard(),
    ensures
        ds.spacing@.contains_key("none"@) && ds.spacing@["none"@] == 0u32,
        ds.spacing@.contains_key("xxs"@) && ds.spacing@["xxs"@] == 4u32,
        ds.spacing@.contains_key("xs"@) && ds.spacing@["xs"@] == 8u32,
        ds.spacing@.contains_key("sm"@) && ds.spacing@["sm"@] == 12u32,
        ds.spacing@.contains_key("md"@) && ds.spacing@["md"@] == 16u32,
        ds.spacing@.contains_key("lg"@) && ds.spacing@["lg"@] == 24u32,
        ds.spacing@.contains_key("xl"@) && ds.spacing@["xl"@] == 32u32,
        ds.spacing@.contains_key("2xl"@) && ds.spacing@["2xl"@] == 48u32,
        ds.spacing@.contains_key("3xl"@) && ds.spacing@["3xl"@] == 64u32,
        ds.spacing@.contains_key("4xl"@) && ds.spacing@["4xl"@] == 80u32,
        ds.spacing@.contains_key("5xl"@) && ds.spacing@["5xl"@] == 120u32,
        ds.spacing@.contains_key("6xl"@) && ds.spacing@["6xl"@] == 160u32,
        ds.spacing@.contains_key("7xl"@) && ds.spacing@["7xl"@] == 200u32,
        ds.spacing@["none"@] < ds.spacing@["xxs"@],
        ds.spacing@["xxs"@] < ds.spacing@["xs"@],
        ds.spacing@["xs"@] < ds.spacing@["sm"@],
        ds.spacing@["sm"@] < ds.spacing@["md"@],
        ds.spacing@["md"@] < ds.spacing@["lg"@],
        ds.spacing@["lg"@] < ds.spacing@["xl"@],
        ds.spacing@["xl"@] < ds.spacing@["2xl"@],
        ds.spacing@["2xl"@] < ds.spacing@["3xl"@],
        ds.spacing@["3xl"@] < ds.spacing@["4xl"@],
        ds.spacing@["4xl"@] < ds.spacing@["5xl"@],
        ds.spacing@["5xl"@] < ds.spacing@["6xl"@],
        ds.spacing@["6xl"@] < ds.spacing@["7xl"@],
{
    reveal_strlit("none");
    reveal_strlit("xxs");
    reveal_strlit("xs");
    reveal_strlit("sm");
    reveal_strlit("md");
    reveal_strlit("lg");
    reveal_strlit("xl");
    reveal_strlit("2xl");
    reveal_strlit("3xl");
    reveal_strlit("4xl");
    reveal_strlit("5xl");
    reveal_strlit("6xl");
    reveal_strlit("7xl");
    assert("none"@.len() == 4);
    assert("xxs"@.len() == 3);
    assert("xs"@.len() == 2);
    assert("sm"@.len() == 2);
    assert("md"@.len() == 2);
    assert("lg"@.len() == 2);
    assert("xl"@.len() == 2);
    assert("2xl"@.len() == 3);
    assert("3xl"@.len() == 3);
    assert("4xl"@.len() == 3);
    assert("5xl"@.len() == 3);
    assert("6xl"@.len() == 3);
    assert("7xl"@.len() == 3);
    assert("xxs"@[0] != "2xl"@[0]);
    assert("xxs"@[0] != "3xl"@[0]);
    assert("xxs"@[0] != "4xl"@[0]);
    assert("xxs"@[0] != "5xl"@[0]);
    assert("xxs"@[0] != "6xl"@[0]);
    assert("xxs"@[0] != "7xl"@[0]);
    assert("xs"@[0] != "sm"@[0]);
    assert("xs"@[0] != "md"@[0]);
    assert("xs"@[0] != "lg"@[0]);
    assert("xs"@[1] != "xl"@[1]);
    assert("sm"@[0] != "md"@[0]);
    assert("sm"@[0] != "lg"@[0]);
    assert("sm"@[0] != "xl"@[0]);
    assert("md"@[0] != "lg"@[0]);
    assert("md"@[0] != "xl"@[0]);
    assert("lg"@[0] != "xl"@[0]);
    assert("2xl"@[0] != "3xl"@[0]);
    assert("2xl"@[0] != "4xl"@[0]);
    assert("2xl"@[0] != "5xl"@[0]);
    assert("2xl"@[0] != "6xl"@[0]);
    assert("2xl"@[0] != "7xl"@[0]);
    assert("3xl"@[0] != "4xl"@[0]);
    assert("3xl"@[0] != "5xl"@[0]);
    assert("3xl"@[0] != "6xl"@[0]);
    assert("3xl"@[0] != "7xl"@[0]);
    assert("4xl"@[0] != "5xl"@[0]);
    assert("4xl"@[0] != "6xl"@[0]);
    assert("4xl"@[0] != "7xl"@[0]);
    assert("5xl"@[0] != "6xl"@[0]);
    assert("5xl"@[0] != "7xl"@[0]);
    assert("6xl"@[0] != "7xl"@[0]);
}

/// The border-radius scale: the documented radii, each larger than the one
/// before, up to `full`.
pub proof fn lemma_radius_scale(ds: DesignSystem)
    requires
        ds.is_standard(),
    ensures
        ds.border_radius@.contains_key("none"@) && ds.border_radius@["none"@] == 0u32,
        ds.border_radius@.contains_key("xs"@) && ds.border_radius@["xs"@] == 2u32,
        ds.border_radius@.contains_key("sm"@) && ds.border_radius@["sm"@] == 4u32,
        ds.border_radius@.contains_key("md"@) && ds.border_radius@["md"@] == 8u32,
        ds.border_radius@.contains_key("lg"@) && ds.border_radius@["lg"@] == 12u32,
        ds.border_radius@.contains_key("xl"@) && ds.border_radius@["xl"@] == 16u32,
        ds.border_radius@.contains_key("2xl"@) && ds.border_radius@["2xl"@] == 24u32,
        ds.border_radius@.contains_key("3xl"@) && ds.border_radius@["3xl"@] == 32u32,
        ds.border_radius@.contains_key("full"@) && ds.border_radius@["full"@] == 9999u32,
        ds.border_radius@["none"@] < ds.border_radius@["xs"@],
        ds.border_radius@["xs"@] < ds.border_radius@["sm"@],
        ds.border_radius@["sm"@] < ds.border_radius@["md"@],
        ds.border_radius@["md"@] < ds.border_radius@["lg"@],
        ds.border_radius@["lg"@] < ds.border_radius@["xl"@],
        ds.border_radius@["xl"@] < ds.border_radius@["2xl"@],
        ds.border_radius@["2xl"@] < ds.border_radius@["3xl"@],
        ds.border_radius@["3xl"@] < ds.border_radius@["full"@],
{
    reveal_strlit("none");
    reveal_strlit("xs");
    reveal_strlit("sm");
    reveal_strlit("md");
    reveal_strlit("lg");
    reveal_strlit("xl");
    reveal_strlit("2xl");
    reveal_strlit("3xl");
    reveal_strlit("full");
    assert("none"@.len() == 4);
    assert("xs"@.len() == 2);
    assert("sm"@.len() == 2);
    assert("md"@.len() == 2);
    assert("lg"@.len() == 2);
    assert("xl"@.len() == 2);
    assert("2xl"@.len() == 3);
    assert("3xl"@.len() == 3);
    assert("full"@.len() == 4);
    assert("none"@[0] != "full"@[0]);
    assert("xs"@[0] != "sm"@[0]);
    assert("xs"@[0] != "md"@[0]);
    assert("xs"@[0] != "lg"@[0]);
    assert("xs"@[1] != "xl"@[1]);
    assert("sm"@[0] != "md"@[0]);
    assert("sm"@[0] != "lg"@[0]);
    assert("sm"@[0] != "xl"@[0]);
    assert("md"@[0] != "lg"@[0]);
    assert("md"@[0] != "xl"@[0]);
    assert("lg"@[0] != "xl"@[0]);
    assert("2xl"@[0] != "3xl"@[0]);
}

/// The border-width scale: the documented widths, each thicker than the one
/// before.
pub proof fn lemma_border_scale(ds: DesignSystem)
    requires
        ds.is_standard(),
    ensures
        ds.border_width@.contains_key("none"@) && ds.border_width@["none"@] == 0u32,
        ds.border_width@.contains_key("thin"@) && ds.border_width@["thin"@] == 1u32,
        ds.border_width@.contains_key("base"@) && ds.border_width@["base"@] == 2u32,
        ds.border_width@.contains_key("thick"@) && ds.border_width@["thick"@] == 4u32,
        ds.border_width@.contains_key("heavy"@) && ds.border_width@["heavy"@] == 8u32,
        ds.border_width@.contains_key("ultra"@) && ds.border_width@["ultra"@] == 12u32,
        ds.border_width@["none"@] < ds.border_width@["thin"@],
        ds.border_width@["thin"@] < ds.border_width@["base"@],
        ds.border_width@["base"@] < ds.border_width@["thick"@],
        ds.border_width@["thick"@] < ds.border_width@["heavy"@],
        ds.border_width@["heavy"@] < ds.border_width@["ultra"@],
{
    reveal_strlit("none");
    reveal_strlit("thin");
    reveal_strlit("base");
    reveal_strlit("thick");
    reveal_strlit("heavy");
    reveal_strlit("ultra");
    assert("none"@.len() == 4);
    assert("thin"@.len() == 4);
    assert("base"@.len() == 4);
    assert("thick"@.len() == 5);
    assert("heavy"@.len() == 5);
    assert("ultra"@.len() == 5);
    assert("none"@[0] != "thin"@[0]);
    assert("none"@[0] != "base"@[0]);
    assert("thin"@[0] != "base"@[0]);
    assert("thick"@[0] != "heavy"@[0]);
    assert("thick"@[0] != "ultra"@[0]);
    assert("heavy"@[0] != "ultra"@[0]);
}

/// The platform safe areas: each platform's documented padding and aspect
/// ratio; the vertical platforms (mobile, YouTube Shorts, TikTok, Instagram
/// reels and stories) are portrait `9:16`, and desktop, LinkedIn and Twitter
/// are landscape `16:9`.
pub proof fn lemma_safe_area_presets(ds: DesignSystem)
    requires
        ds.is_standard(),
    ensures
        ds.safe_areas@.contains_key("desktop"@),
        ds.safe_areas@["desktop"@].top == 64u32 && ds.safe_areas@["desktop"@].bottom == 64u32,
        ds.safe_areas@["desktop"@].left == 96u32 && ds.safe_areas@["desktop"@].right == 96u32,
        ds.safe_areas@["desktop"@].aspect_ratio@ == "16:9"@,
        ds.safe_areas@.contains_key("mobile"@),
        ds.safe_areas@["mobile"@].top == 96u32 && ds.safe_areas@["mobile"@].bottom == 144u32,
        ds.safe_areas@["mobile"@].left == 64u32 && ds.safe_areas@["mobile"@].right == 64u32,
        ds.safe_areas@["mobile"@].aspect_ratio@ == "9:16"@,
        ds.safe_areas@.contains_key("youtube_shorts"@),
        ds.safe_areas@["youtube_shorts"@].top == 120u32 && ds.safe_areas@["youtube_shorts"@].bottom == 200u32,
        ds.safe_areas@["youtube_shorts"@].left == 48u32 && ds.safe_areas@["youtube_shorts"@].right == 48u32,
        ds.safe_areas@["youtube_shorts"@].aspect_ratio@ == "9:16"@,
        ds.safe_areas@.contains_key("tiktok"@),
        ds.safe_areas@["tiktok"@].top == 100u32 && ds.safe_areas@["tiktok"@].bottom == 180u32,
        ds.safe_areas@["tiktok"@].left == 24u32 && ds.safe_areas@["tiktok"@].right == 80u32,
        ds.safe_areas@["tiktok"@].aspect_ratio@ == "9:16"@,
        ds.safe_areas@.contains_key("instagram_reel"@),
        ds.safe_areas@["instagram_reel"@].top == 120u32 && ds.safe_areas@["instagram_reel"@].bottom == 160u32,
        ds.safe_areas@["instagram_reel"@].left == 32u32 && ds.safe_areas@["instagram_reel"@].right == 32u32,
        ds.safe_areas@["instagram_reel"@].aspect_ratio@ == "9:16"@,
        ds.safe_areas@.contains_key("instagram_story"@),
        ds.safe_areas@["instagram_story"@].top == 100u32 && ds.safe_areas@["instagram_story"@].bottom == 120u32,
        ds.safe_areas@["instagram_story"@].left == 24u32 && ds.safe_areas@["instagram_story"@].right == 24u32,
        ds.safe_areas@["instagram_story"@].aspect_ratio@ == "9:16"@,
        ds.safe_areas@.contains_key("linkedin"@),
        ds.safe_areas@["linkedin"@].top == 40u32 && ds.safe_areas@["linkedin"@].bottom == 40u32,
        ds.safe_areas@["linkedin"@].left == 24u32 && ds.safe_areas@["linkedin"@].right == 24u32,
        ds.safe_areas@["linkedin"@].aspect_ratio@ == "16:9"@,
        ds.safe_areas@.contains_key("twitter"@),
        ds.safe_areas@["twitter"@].top == 32u32 && ds.safe_areas@["twitter"@].bottom == 32u32,
        ds.safe_areas@["twitter"@].left == 32u32 && ds.safe_areas@["twitter"@].right == 32u32,
        ds.safe_areas@["twitter"@].aspect_ratio@ == "16:9"@,
{
    reveal_strlit("desktop");
    reveal_strlit("mobile");
    reveal_strlit("youtube_shorts");
    reveal_strlit("tiktok");
    reveal_strlit("instagram_reel");
    reveal_strlit("instagram_story");
    reveal_strlit("linkedin");
    reveal_strlit("twitter");
    reveal_strlit("16:9");
    reveal_strlit("9:16");
    assert("desktop"@.len() == 7);
    assert("mobile"@.len() == 6);
    assert("youtube_shorts"@.len() == 14);
    assert("tiktok"@.len() == 6);
    assert("instagram_reel"@.len() == 14);
    assert("instagram_story"@.len() == 15);
    assert("linkedin"@.len() == 8);
    assert("twitter"@.len() == 7);
    assert("16:9"@.len() == 4);
    assert("9:16"@.len() == 4);
    assert("desktop"@[0] != "twitter"@[0]);
    assert("mobile"@[0] != "tiktok"@[0]);
    assert("youtube_shorts"@[0] != "instagram_reel"@[0]);
    assert("16:9"@[0] != "9:16"@[0]);
    assert(safe_zone_preset("desktop"@) is Some);
    assert(ds.safe_areas@.contains_key("desktop"@));
    assert(safe_zone_preset("mobile"@) is Some);
    assert(ds.safe_areas@.contains_key("mobile"@));
    assert(safe_zone_preset("youtube_shorts"@) is Some);
    assert(ds.safe_areas@.contains_key("youtube_shorts"@));
    assert(safe_zone_preset("tiktok"@) is Some);
    assert(ds.safe_areas@.contains_key("tiktok"@));
    assert(safe_zone_preset("instagram_reel"@) is Some);
    assert(ds.safe_areas@.contains_key("instagram_reel"@));
    assert(safe_zone_preset("instagram_story"@) is Some);
    assert(ds.safe_areas@.contains_key("instagram_story"@));
    assert(safe_zone_preset("linkedin"@) is Some);
    assert(ds.safe_areas@.contains_key("linkedin"@));
    assert(safe_zone_preset("twitter"@) is Some);
    assert(ds.safe_areas@.contains_key("twitter"@));
}

} // verus!
