//! Design-system lookups as scripts see them: unknown keys fall back to a
//! default, unknown platforms to the desktop safe area.

use crate::tokens::{safe_zone_preset, DesignSystem};
use crate::types::SafeZone;
use vstd::prelude::*;

verus! {

/// A lookup in a token table with a fallback for unknown keys.
pub open spec fn token_or<V>(table: Map<Seq<char>, V>, key: Seq<char>, default: V) -> V {
    if table.contains_key(key) {
        table[key]
    } else {
        default
    }
}

impl DesignSystem {
    /// `theme.space(key)`: the spacing token, 16 for an unknown key.
    pub fn space(&self, key: &str) -> (r: u32)
        ensures
            r == token_or(self.spacing@, key@, 16u32),
    {
        match self.spacing.get(key) {
            Some(v) => *v,
            None => 16,
        }
    }

    /// `theme.radius(key)`: the border radius token, 0 for an unknown key.
    pub fn radius(&self, key: &str) -> (r: u32)
        ensures
            r == token_or(self.border_radius@, key@, 0u32),
    {
        match self.border_radius.get(key) {
            Some(v) => *v,
            None => 0,
        }
    }

    /// `theme.border(key)`: the border width token, 0 for an unknown key.
    pub fn border(&self, key: &str) -> (r: u32)
        ensures
            r == token_or(self.border_width@, key@, 0u32),
    {
        match self.border_width.get(key) {
            Some(v) => *v,
            None => 0,
        }
    }

    /// `theme.z(key)`: the z-index token, 1 for an unknown key.
    pub fn z(&self, key: &str) -> (r: i32)
        ensures
            r == token_or(self.z_index@, key@, 1i32),
    {
        match self.z_index.get(key) {
            Some(v) => *v,
            None => 1,
        }
    }

    /// `theme.safe_area(platform)`: the platform's safe area, or the desktop
    /// one for an unknown platform.
    pub fn safe_area(&self, platform: &str) -> (z: &SafeZone)
        requires
            self.safe_areas@.contains_key(platform@) || self.safe_areas@.contains_key("desktop"@),
        ensures
            *z == token_or(self.safe_areas@, platform@, self.safe_areas@["desktop"@]),
    {
        match self.safe_areas.get(platform) {
            Some(z) => z,
            None => self.safe_areas.get("desktop").unwrap(),
        }
    }
}

/// In the standard design system every platform has a safe area: its own or
/// the desktop one.
pub proof fn lemma_standard_safe_area_total(ds: DesignSystem, platform: Seq<char>)
    requires
        ds.is_standard(),
    ensures
        ds.safe_areas@.contains_key(platform) || ds.safe_areas@.contains_key("desktop"@),
        ds.safe_areas@.contains_key("desktop"@),
{
    assert(safe_zone_preset("desktop"@) is Some);
}

} // verus!
