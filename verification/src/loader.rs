//! Asset loading: the trait through which the engine reads asset bytes, and
//! the files that the default file-system loader tries, in order.

use vstd::prelude::*;

verus! {

/// A trait for abstracting file system access.
///
/// This allows the engine to be embedded in environments where direct file
/// system access might be restricted or virtualized (e.g., loading assets from
/// a network or an archive).
pub trait AssetLoader: Send + Sync {
    /// Loads the raw bytes of an asset from the given path.
    fn load_bytes(&self, path: &str) -> Result<Vec<u8>, anyhow::Error>;

    /// Optionally loads a fallback font (e.g., Emoji) to be used when glyphs
    /// are missing. The default implementation returns `None`.
    fn load_font_fallback(&self) -> (r: Option<Vec<u8>>)
        default_ensures
            r is None,
    {
        None
    }
}

/// The default loader, which reads the local file system.
pub struct DefaultAssetLoader;

impl DefaultAssetLoader {
    /// The files that loading `path` tries, in order: `path` itself, then the
    /// same path under `assets/`.
    pub fn asset_paths(&self, path: &str) -> (r: Vec<String>)
        ensures
            r@.len() == 2,
            r@[0]@ == path@,
            r@[1]@ == "assets/"@ + path@,
    {
        let mut alt = String::from_str("assets/");
        alt.append(path);
        let mut r: Vec<String> = Vec::new();
        r.push(path.to_owned());
        r.push(alt);
        r
    }

    /// The files that loading the fallback font tries, in order: the one that
    /// the `DIRECTOR_EMOJI_FONT` setting names (`env_font`, when it is set),
    /// then `assets/fonts/emoji.ttf`.
    pub fn font_fallback_paths(&self, env_font: Option<&str>) -> (r: Vec<String>)
        ensures
            r@.len() == (if env_font is Some { 2int } else { 1int }),
            env_font matches Some(p) ==> r@[0]@ == p@,
            r@.last()@ == "assets/fonts/emoji.ttf"@,
    {
        let mut r: Vec<String> = Vec::new();
        match env_font {
            Some(p) => {
                r.push(p.to_owned());
            },
            None => {},
        }
        r.push(String::from_str("assets/fonts/emoji.ttf"));
        r
    }
}

} // verus!
