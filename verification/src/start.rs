//! The naming decisions of the `start` subcommand: the song's header fields,
//! the map folder's name, the path clean-up, and the configured defaults.

use vstd::prelude::*;

use crate::settings::{ConfigError, MappingConfig};
use crate::text::{chars_of, push_all, string_of};
use crate::youtube::{clone_opt, opt_view, or_else, or_else_exec, or_empty, YoutubeInfo};

verus! {

// ---------------------------------------------------------------------------
// Song header fields and folder name
// ---------------------------------------------------------------------------

/// The song fields of a new map and the name of its folder.
pub struct SongNames {
    pub song_name: String,
    pub song_author: String,
    pub song_sub_name: String,
    pub folder_name: String,
}

/// The folder name: the requested map name when it is not empty, else the
/// song name when it is not empty, else `yt_` followed by the video id.
pub open spec fn folder_name_spec(
    map_name: Option<Seq<char>>,
    song_name: Seq<char>,
    id: Seq<char>,
) -> Seq<char> {
    match map_name {
        Some(m) if m.len() > 0 => m,
        _ => if song_name.len() > 0 {
            song_name
        } else {
            seq!['y', 't', '_'] + id
        },
    }
}

fn string_or(o: Option<String>, d: &String) -> (s: String)
    ensures
        s@ == match opt_view(o) {
            Some(v) => v,
            None => d@,
        },
{
    match o {
        Some(v) => v,
        None => d.clone(),
    }
}

/// The song name, author and sub name of a new map (overrides first, then
/// the metadata's track fields, then its title and uploader), and the name
/// of its folder.
pub fn song_names(
    song_name: Option<String>,
    song_author: Option<String>,
    song_sub_name: Option<String>,
    map_name: Option<String>,
    info: &YoutubeInfo,
) -> (r: SongNames)
    ensures
        r.song_name@ == match or_else(opt_view(song_name), opt_view(info.track)) {
            Some(v) => v,
            None => info.title@,
        },
        r.song_author@ == match or_else(opt_view(song_author), opt_view(info.artist)) {
            Some(v) => v,
            None => info.uploader@,
        },
        r.song_sub_name@ == or_empty(opt_view(song_sub_name)),
        r.folder_name@ == folder_name_spec(opt_view(map_name), r.song_name@, info.id@),
{
    let name = string_or(or_else_exec(song_name, clone_opt(&info.track)), &info.title);
    let author = string_or(or_else_exec(song_author, clone_opt(&info.artist)), &info.uploader);
    let sub = match song_sub_name {
        Some(s) => s,
        None => String::new(),
    };
    let folder = match map_name {
        Some(m) if !m.as_str().is_empty() => m,
        _ => if !name.as_str().is_empty() {
            name.clone()
        } else {
            let mut f: Vec<char> = vec!['y', 't', '_'];
            let id = chars_of(info.id.as_str());
            push_all(&mut f, &id);
            string_of(&f)
        },
    };
    SongNames { song_name: name, song_author: author, song_sub_name: sub, folder_name: folder }
}

// ---------------------------------------------------------------------------
// Path clean-up
// ---------------------------------------------------------------------------

/// A component of a path: a normal name, or anything else (a root, a
/// prefix, `.` or `..`), with its text.
#[derive(Debug)]
pub enum PathPart {
    Normal(String),
    Other(String),
}

/// The characters that file names may not hold on Windows.
pub open spec fn is_illegal_path_char(c: char) -> bool {
    c == '<' || c == '>' || c == ':' || c == '"' || c == '/' || c == '\\' || c == '|' || c == '?'
        || c == '*'
}

/// `s` with each illegal character replaced by `_`.
pub open spec fn clean_name(s: Seq<char>) -> Seq<char> {
    s.map_values(|c: char| if is_illegal_path_char(c) {
        '_'
    } else {
        c
    })
}

/// The view of a path component.
pub open spec fn part_view(p: PathPart) -> (bool, Seq<char>) {
    match p {
        PathPart::Normal(s) => (true, s@),
        PathPart::Other(s) => (false, s@),
    }
}

fn clean_name_exec(s: &String) -> (r: String)
    ensures
        r@ == clean_name(s@),
{
    let v = chars_of(s.as_str());
    let mut out: Vec<char> = Vec::new();
    let mut i: usize = 0;
    while i < v.len()
        invariant
            i <= v@.len(),
            out@ == clean_name(v@.subrange(0, i as int)),
        decreases v@.len() - i,
    {
        let c = v[i];
        if c == '<' || c == '>' || c == ':' || c == '"' || c == '/' || c == '\\' || c == '|' || c
            == '?' || c == '*' {
            out.push('_');
        } else {
            out.push(c);
        }
        i = i + 1;
        assert(out@ =~= clean_name(v@.subrange(0, i as int)));
    }
    assert(v@.subrange(0, v@.len() as int) =~= v@);
    string_of(&out)
}

/// Strips the few file-system-illegal Windows characters from each normal
/// component of a path; other components are kept as they are.
pub fn sanitize_path(parts: Vec<PathPart>) -> (r: Vec<PathPart>)
    ensures
        r@.len() == parts@.len(),
        forall|i: int|
            0 <= i < r@.len() ==> part_view(#[trigger] r@[i]) == match parts@[i] {
                PathPart::Normal(s) => (true, clean_name(s@)),
                PathPart::Other(s) => (false, s@),
            },
{
    let mut r: Vec<PathPart> = Vec::new();
    let mut i: usize = 0;
    while i < parts.len()
        invariant
            i <= parts@.len(),
            r@.len() == i,
            forall|j: int|
                0 <= j < i ==> part_view(#[trigger] r@[j]) == match parts@[j] {
                    PathPart::Normal(s) => (true, clean_name(s@)),
                    PathPart::Other(s) => (false, s@),
                },
        decreases parts@.len() - i,
    {
        let p = match &parts[i] {
            PathPart::Normal(s) => PathPart::Normal(clean_name_exec(s)),
            PathPart::Other(s) => PathPart::Other(s.clone()),
        };
        r.push(p);
        i = i + 1;
    }
    r
}

// ---------------------------------------------------------------------------
// Map defaults
// ---------------------------------------------------------------------------

/// The map settings that come from the configuration, with their defaults.
pub struct MapSettings {
    pub level_author: String,
    pub wip_levels: String,
    pub characteristic: String,
    pub difficulty: String,
    pub difficulty_rank: i64,
    pub environment: String,
    pub song_filename: String,
}

/// The configured value, or the default.
pub open spec fn or_default(o: Option<Seq<char>>, d: Seq<char>) -> Seq<char> {
    match o {
        Some(v) => v,
        None => d,
    }
}

fn or_default_exec(o: &Option<String>, d: &str) -> (r: String)
    ensures
        r@ == or_default(opt_view(*o), d@),
{
    match o {
        Some(v) => v.clone(),
        None => d.to_owned(),
    }
}

impl MapSettings {
    /// The settings of a new map: the mapper name and the CustomWIPLevels
    /// folder are required; the characteristic defaults to `Standard`, the
    /// difficulty to `ExpertPlus` with rank 9, the environment to
    /// `DefaultEnvironment`, and the song file to `song.ogg`.
    pub fn resolve(cfg: &MappingConfig) -> (r: Result<MapSettings, ConfigError>)
        ensures
            opt_view(cfg.custom_wip_levels) is None ==> r matches Err(ConfigError::MissingWipLevels),
            opt_view(cfg.custom_wip_levels) is Some && opt_view(cfg.mapper_name) is None ==> r matches Err(
                ConfigError::MissingMapperName,
            ),
            opt_view(cfg.custom_wip_levels) is Some && opt_view(cfg.mapper_name) is Some ==> (r matches Ok(
                s,
            ) && {
                &&& s.wip_levels@ == opt_view(cfg.custom_wip_levels)->0
                &&& s.level_author@ == opt_view(cfg.mapper_name)->0
                &&& s.characteristic@ == or_default(opt_view(cfg.characteristic), "Standard"@)
                &&& s.difficulty@ == or_default(opt_view(cfg.difficulty), "ExpertPlus"@)
                &&& s.difficulty_rank == match cfg.difficulty_rank {
                    Some(n) => n,
                    None => 9,
                }
                &&& s.environment@ == or_default(
                    opt_view(cfg.environment),
                    "DefaultEnvironment"@,
                )
                &&& s.song_filename@ == or_default(opt_view(cfg.song_filename), "song.ogg"@)
            }),
    {
        let wip_levels = match cfg.require_wip_levels() {
            Ok(p) => p,
            Err(e) => return Err(e),
        };
        let level_author = match cfg.require_mapper_name() {
            Ok(n) => n,
            Err(e) => return Err(e),
        };
        Ok(MapSettings {
            level_author,
            wip_levels,
            characteristic: or_default_exec(&cfg.characteristic, "Standard"),
            difficulty: or_default_exec(&cfg.difficulty, "ExpertPlus"),
            difficulty_rank: match cfg.difficulty_rank {
                Some(n) => n,
                None => 9,
            },
            environment: or_default_exec(&cfg.environment, "DefaultEnvironment"),
            song_filename: or_default_exec(&cfg.song_filename, "song.ogg"),
        })
    }
}

// ---------------------------------------------------------------------------
// Cover image
// ---------------------------------------------------------------------------

/// What the downloaded cover image is like.
#[derive(Debug, PartialEq, Eq)]
pub enum CoverCheck {
    /// Width and height were read and are equal: good to go.
    Square { side: u32 },
    /// Width and height were read and differ: kept, with a warning that
    /// Beat Saber prefers a square cover.
    NotSquare { width: u32, height: u32 },
    /// The dimensions could not be read: the file is kept as it is, but not
    /// named as the map's cover.
    Unreadable,
}

/// Judges a downloaded cover by its dimensions, if they could be read.
pub fn check_cover(dimensions: Option<(u32, u32)>) -> (r: CoverCheck)
    ensures
        r == match dimensions {
            Some((w, h)) => if w == h {
                CoverCheck::Square { side: w }
            } else {
                CoverCheck::NotSquare { width: w, height: h }
            },
            None => CoverCheck::Unreadable,
        },
{
    match dimensions {
        Some((w, h)) => if w == h {
            CoverCheck::Square { side: w }
        } else {
            CoverCheck::NotSquare { width: w, height: h }
        },
        None => CoverCheck::Unreadable,
    }
}

impl CoverCheck {
    /// The `_coverImageFilename` of the map: `cover.jpg` when the image's
    /// dimensions were read, square or not; none otherwise.
    pub fn cover_file_name(&self) -> (r: Option<String>)
        ensures
            match self {
                CoverCheck::Unreadable => r is None,
                _ => r matches Some(n) && n@ == "cover.jpg"@,
            },
    {
        match self {
            CoverCheck::Unreadable => None,
            _ => Some("cover.jpg".to_owned()),
        }
    }
}

// ---------------------------------------------------------------------------
// Laws
// ---------------------------------------------------------------------------

/// A cleaned name has the same length, holds no illegal character, and is
/// its own clean name.
pub proof fn law_clean_name(s: Seq<char>)
    ensures
        clean_name(s).len() == s.len(),
        forall|i: int| 0 <= i < s.len() ==> !is_illegal_path_char(#[trigger] clean_name(s)[i]),
        clean_name(clean_name(s)) == clean_name(s),
        forall|i: int| 0 <= i < s.len() && !is_illegal_path_char(s[i]) ==> #[trigger] clean_name(s)[i]
            == s[i],
{
    assert(clean_name(clean_name(s)) =~= clean_name(s));
}

/// The map folder always has a name.
pub proof fn law_folder_name_not_empty(map_name: Option<Seq<char>>, song_name: Seq<char>, id: Seq<char>)
    ensures
        folder_name_spec(map_name, song_name, id).len() > 0,
{
}

/// Cleaning a name replaces exactly the nine characters `<`, `>`, `:`, `"`,
/// `/`, `\`, `|`, `?` and `*` by `_`, and keeps every other character in
/// place.
pub proof fn law_clean_name_replaces_exactly(s: Seq<char>)
    ensures
        clean_name(s).len() == s.len(),
        forall|i: int|
            0 <= i < s.len() ==> #[trigger] clean_name(s)[i] == if s[i] == '<' || s[i] == '>'
                || s[i] == ':' || s[i] == '"' || s[i] == '/' || s[i] == '\\' || s[i] == '|' || s[i]
                == '?' || s[i] == '*' {
                '_'
            } else {
                s[i]
            },
{
}

} // verus!
