//! The configuration file's contents (v1) and the overlay path it names.
use vstd::prelude::*;
use crate::path::{components, has_drive, is_absolute, is_canonical, is_sep, join, lexical, parent};
use crate::path::relative_path;
use crate::path::{join_chars, parent_chars, pathdiff_relative, root_length};
use crate::path::{lemma_canonical_is_resolved, lemma_relative_path_leads_back};
use crate::text::{chars_of, string_of};

verus! {

/// The only configuration format version this library reads.
pub const CONFIG_VERSION: u32 = 1;

/// PicPatcher configuration (v1): one overlay image pasted at absolute pixel
/// coordinates (x, y) on every matching image.
#[derive(Debug, Clone)]
pub struct Config {
    pub version: u32,
    /// Path to the overlay image: absolute, or relative to the config file's directory.
    pub overlay: String,
    pub x: i64,
    pub y: i64,
}

/// Why a parsed configuration is refused.
#[derive(Debug, Clone, Copy, PartialEq, Eq, Structural)]
pub enum ConfigError {
    UnsupportedVersion { found: u32, expected: u32 },
}

/// The overlay path of a configuration read from `config_path`: kept when
/// absolute, else joined onto the directory that holds the config file.
pub open spec fn resolved_overlay(overlay: Seq<char>, config_path: Seq<char>) -> Seq<char> {
    if is_absolute(overlay) {
        overlay
    } else {
        match parent(config_path) {
            Some(dir) => join(dir, overlay),
            None => overlay,
        }
    }
}

/// The overlay path written into a configuration saved in directory
/// `config_dir`: the path from that directory to the overlay where there is
/// one, else the overlay path as it is.
pub open spec fn saved_overlay(overlay: Seq<char>, config_dir: Option<Seq<char>>) -> Seq<char> {
    match config_dir {
        Some(dir) => match relative_path(overlay, dir) {
            Some(r) => r,
            None => overlay,
        },
        None => overlay,
    }
}

/// The overlay path to write into a configuration saved in `config_dir`
/// (the directory of the config file, `None` when it has none); both paths
/// are expected to be canonical already.
pub fn overlay_path_to_save(overlay: &str, config_dir: Option<&str>) -> (res: String)
    ensures
        res@ == saved_overlay(overlay@, match config_dir {
            Some(d) => Some(d@),
            None => None,
        }),
{
    match config_dir {
        Some(dir) => match pathdiff_relative(overlay, dir) {
            Some(r) => r,
            None => String::from_str(overlay),
        },
        None => String::from_str(overlay),
    }
}

/// An overlay saved into a configuration file and read back names the same
/// file: the path written for it (relative to the config file's directory
/// where possible), resolved against the config file's path, has, once
/// resolved lexically, the components of the overlay. Both the overlay and
/// the config file's directory are canonical, as saving makes them.
pub proof fn lemma_saved_overlay_resolves_back(overlay: Seq<char>, config_path: Seq<char>)
    requires
        is_canonical(overlay),
        parent(config_path) is Some,
        is_canonical(parent(config_path)->0),
    ensures
        lexical(components(resolved_overlay(saved_overlay(overlay, parent(config_path)), config_path)))
            == components(overlay),
{
    let dir = parent(config_path)->0;
    match relative_path(overlay, dir) {
        Some(r) => {
            lemma_relative_path_leads_back(overlay, dir);
            assert(resolved_overlay(r, config_path) == join(dir, r));
        },
        None => {
            lemma_canonical_is_resolved(overlay);
        },
    }
}

impl Default for Config {
    fn default() -> (res: Self)
        ensures
            res.version == CONFIG_VERSION,
            res.overlay@ == "overlay.png"@,
            res.x == 0,
            res.y == 0,
    {
        Config { version: CONFIG_VERSION, overlay: String::from_str("overlay.png"), x: 0, y: 0 }
    }
}

impl Config {
    /// Resolves `overlay` against the config file's parent directory if relative.
    pub fn resolve_overlay(&self, config_path: &str) -> (res: String)
        ensures
            res@ == resolved_overlay(self.overlay@, config_path@),
    {
        let ov = chars_of(self.overlay.as_str());
        if root_length(&ov) > 0 {
            return string_of(ov.as_slice());
        }
        let cp = chars_of(config_path);
        match parent_chars(&cp) {
            Some(dir) => {
                let j = join_chars(&dir, &ov);
                string_of(j.as_slice())
            },
            None => string_of(ov.as_slice()),
        }
    }

    /// Accepts a configuration just read from its file when its version is the
    /// supported one, and refuses it otherwise.
    pub fn check_version(self) -> (res: Result<Config, ConfigError>)
        ensures
            self.version == CONFIG_VERSION ==> res == Ok::<Config, ConfigError>(self),
            self.version != CONFIG_VERSION ==> res == Err::<Config, ConfigError>(
                ConfigError::UnsupportedVersion { found: self.version, expected: CONFIG_VERSION },
            ),
    {
        if self.version != CONFIG_VERSION {
            Err(ConfigError::UnsupportedVersion { found: self.version, expected: CONFIG_VERSION })
        } else {
            Ok(self)
        }
    }
}

/// Where a configuration's overlay is looked for: an absolute path, or one
/// that names a drive, is used as it is; any other path is placed inside the
/// directory `d` that holds the config file (relative or absolute), after one
/// `/` unless `d` is empty or already ends with a separator; without such a
/// directory the path is used as it is.
pub proof fn lemma_resolved_overlay_in_config_dir(overlay: Seq<char>, config_path: Seq<char>)
    ensures
        is_absolute(overlay) || has_drive(overlay) || parent(config_path) is None
            ==> resolved_overlay(overlay, config_path) == overlay,
        !is_absolute(overlay) && !has_drive(overlay) && parent(config_path) is Some ==> {
            let d = parent(config_path)->0;
            resolved_overlay(overlay, config_path) == d + (if d.len() == 0 || is_sep(d.last()) {
                Seq::<char>::empty()
            } else {
                seq!['/']
            }) + overlay
        },
{
    if !is_absolute(overlay) && !has_drive(overlay) && parent(config_path) is Some {
        let d = parent(config_path)->0;
        if d.len() == 0 {
            assert(Seq::<char>::empty() + Seq::<char>::empty() + overlay =~= overlay);
        } else if is_sep(d.last()) {
            assert(d + Seq::<char>::empty() + overlay =~= d + overlay);
        }
    }
}

} // verus!
