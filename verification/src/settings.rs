//! The known configuration keys, the `config` subcommand's decisions, and the
//! typed mapping options read from the configuration document.

use vstd::prelude::*;

use crate::config::ConfigDoc;
use crate::text::{
    char_is_alphanumeric, chars_eq, chars_of, is_alphanumeric, parse_i64, parse_i64_spec, string_of,
};
use crate::youtube::opt_view;

verus! {

// ---------------------------------------------------------------------------
// Known keys
// ---------------------------------------------------------------------------

/// The keys that the mapping options are read from, in listing order.
pub open spec fn known_key_names() -> Seq<Seq<char>> {
    seq![
        "mapper.name"@,
        "customwiplevels.path"@,
        "map.characteristic"@,
        "map.difficulty"@,
        "map.difficulty_rank"@,
        "map.njs"@,
        "map.note_jump_start_beat_offset"@,
        "map.environment"@,
        "map.song_filename"@,
    ]
}

/// The description of each known key, in listing order.
pub open spec fn known_key_descriptions() -> Seq<Seq<char>> {
    seq![
        "Your name, written to `_levelAuthorName`."@,
        "Absolute path to the Beat Saber CustomWIPLevels folder."@,
        "Default beatmap characteristic (e.g. Standard)."@,
        "Default difficulty (Easy/Normal/Hard/Expert/ExpertPlus)."@,
        "Difficulty rank number (Easy=1 .. ExpertPlus=9)."@,
        "Default Note Jump Movement Speed."@,
        "Default Note Jump Start Beat Offset."@,
        "Default environment name."@,
        "Default `_songFilename` (defaults to song.ogg)."@,
    ]
}

/// The value that each known key has when it is not set, in listing order
/// (empty for the mapper name and the CustomWIPLevels folder, which have
/// none).
pub open spec fn known_key_defaults() -> Seq<Seq<char>> {
    seq![
        ""@,
        ""@,
        "Standard"@,
        "ExpertPlus"@,
        "9"@,
        "18"@,
        "-1.902"@,
        "DefaultEnvironment"@,
        "song.ogg"@,
    ]
}

/// The default of each known key, in listing order.
fn known_defaults() -> (r: Vec<&'static str>)
    ensures
        r@.len() == known_key_defaults().len(),
        forall|i: int| 0 <= i < r@.len() ==> (#[trigger] r@[i])@ == known_key_defaults()[i],
{
    let r = vec![
        "",
        "",
        "Standard",
        "ExpertPlus",
        "9",
        "18",
        "-1.902",
        "DefaultEnvironment",
        "song.ogg",
    ];
    assert forall|i: int| 0 <= i < r@.len() implies (#[trigger] r@[i])@ == known_key_defaults()[i] by {}
    r
}

/// Every known key with its description, in listing order.
pub fn known_keys() -> (r: Vec<(&'static str, &'static str)>)
    ensures
        r@.len() == known_key_names().len(),
        forall|i: int|
            0 <= i < r@.len() ==> (#[trigger] r@[i]).0@ == known_key_names()[i] && r@[i].1@
                == known_key_descriptions()[i],
{
    let r = vec![
        ("mapper.name", "Your name, written to `_levelAuthorName`."),
        ("customwiplevels.path", "Absolute path to the Beat Saber CustomWIPLevels folder."),
        ("map.characteristic", "Default beatmap characteristic (e.g. Standard)."),
        ("map.difficulty", "Default difficulty (Easy/Normal/Hard/Expert/ExpertPlus)."),
        ("map.difficulty_rank", "Difficulty rank number (Easy=1 .. ExpertPlus=9)."),
        ("map.njs", "Default Note Jump Movement Speed."),
        ("map.note_jump_start_beat_offset", "Default Note Jump Start Beat Offset."),
        ("map.environment", "Default environment name."),
        ("map.song_filename", "Default `_songFilename` (defaults to song.ogg)."),
    ];
    assert forall|i: int|
        0 <= i < r@.len() implies (#[trigger] r@[i]).0@ == known_key_names()[i] && r@[i].1@
            == known_key_descriptions()[i] by {}
    r
}

/// The key is one of the known keys.
pub open spec fn is_known_key(k: Seq<char>) -> bool {
    known_key_names().contains(k)
}

/// The number of `.` in `s`.
pub open spec fn dot_count(s: Seq<char>) -> nat
    decreases s.len(),
{
    if s.len() == 0 {
        0
    } else {
        dot_count(s.drop_last()) + if s.last() == '.' {
            1nat
        } else {
            0nat
        }
    }
}

/// A character that an unknown key may hold.
pub open spec fn is_key_char(c: char) -> bool {
    is_alphanumeric(c) || c == '.' || c == '_' || c == '-'
}

/// How a key passed validation.
#[derive(Debug, Clone, Copy, PartialEq, Eq)]
pub enum KeyCheck {
    /// One of the known mapping keys.
    Known,
    /// A well-formed `section.name` key that is not a known mapping key
    /// (accepted with a warning).
    Unknown,
}

/// A key of the form `section.name`: exactly one `.`, with a non-empty part
/// on each side of it.
pub open spec fn is_section_name(k: Seq<char>) -> bool {
    dot_count(k) == 1 && k.len() > 0 && k[0] != '.' && k.last() != '.'
}

/// Which keys the `config` subcommand accepts: the known keys, and any key
/// of the form `section.name` whose characters are all alphanumeric, `.`,
/// `_` or `-`.
pub open spec fn key_check(k: Seq<char>) -> Option<KeyCheck> {
    if is_known_key(k) {
        Some(KeyCheck::Known)
    } else if is_section_name(k) && forall|i: int| 0 <= i < k.len() ==> is_key_char(#[trigger] k[i]) {
        Some(KeyCheck::Unknown)
    } else {
        None
    }
}

/// Errors of the configuration commands and of reading the mapping options.
#[derive(Debug)]
pub enum ConfigError {
    /// The key (given back) is not of the form `section.name`.
    InvalidKey(String),
    /// The key (given back) has no value.
    KeyUnset(String),
    /// `customwiplevels.path` is not set.
    MissingWipLevels,
    /// `mapper.name` is not set.
    MissingMapperName,
}

fn is_known_key_exec(k: &Vec<char>) -> (r: bool)
    ensures
        r == is_known_key(k@),
{
    let keys = known_keys();
    let mut i: usize = 0;
    while i < keys.len()
        invariant
            i <= keys@.len(),
            keys@.len() == known_key_names().len(),
            forall|j: int|
                0 <= j < keys@.len() ==> (#[trigger] keys@[j]).0@ == known_key_names()[j],
            forall|j: int| 0 <= j < i ==> known_key_names()[j] != k@,
        decreases keys@.len() - i,
    {
        let name = chars_of(keys[i].0);
        if chars_eq(&name, k) {
            assert(known_key_names()[i as int] == k@);
            return true;
        }
        i = i + 1;
    }
    false
}

/// Checks that a key may be used with the `config` subcommand.
pub fn validate_key(key: &str) -> (r: Result<KeyCheck, ConfigError>)
    ensures
        r matches Ok(c) ==> key_check(key@) == Some(c),
        r matches Err(e) ==> key_check(key@) is None && (e matches ConfigError::InvalidKey(k) && k@
            == key@),
{
    let k = chars_of(key);
    if is_known_key_exec(&k) {
        return Ok(KeyCheck::Known);
    }
    let mut dots: usize = 0;
    let mut i: usize = 0;
    let mut all_ok = true;
    assert(k@.subrange(0, 0) =~= Seq::<char>::empty());
    while i < k.len()
        invariant
            i <= k@.len(),
            dots == dot_count(k@.subrange(0, i as int)),
            dots <= i,
            all_ok == forall|j: int| 0 <= j < i ==> is_key_char(#[trigger] k@[j]),
        decreases k@.len() - i,
    {
        let c = k[i];
        if c == '.' {
            dots = dots + 1;
        }
        if !(char_is_alphanumeric(c) || c == '.' || c == '_' || c == '-') {
            all_ok = false;
        }
        assert(k@.subrange(0, i + 1).drop_last() =~= k@.subrange(0, i as int));
        i = i + 1;
    }
    assert(k@.subrange(0, k@.len() as int) =~= k@);
    if dots == 1 && all_ok && k[0] != '.' && k[k.len() - 1] != '.' {
        return Ok(KeyCheck::Unknown);
    }
    Err(ConfigError::InvalidKey(string_of(&k)))
}

// ---------------------------------------------------------------------------
// The `config` subcommand
// ---------------------------------------------------------------------------

/// Actions accepted by the `config` subcommand.
pub struct ConfigAction {
    pub key: Option<String>,
    pub value: Option<String>,
    pub list: bool,
    pub unset: bool,
}

/// What a `config` invocation asks for.
#[derive(Debug)]
pub enum ConfigRequest {
    /// List every known key with its value.
    List,
    /// No key and no `--list`: show the known keys.
    ShowKnownKeys,
    /// Remove the key.
    Unset { key: String, check: KeyCheck },
    /// Store the value under the key.
    Store { key: String, value: String, check: KeyCheck },
    /// Print the key's value.
    Get { key: String, check: KeyCheck },
}

/// The request that a `config` invocation makes: `--list` wins; without a
/// key the known keys are shown; otherwise the key must be valid, and
/// `--unset` removes it, a value sets it, and nothing else reads it.
pub open spec fn request_of(
    key: Option<Seq<char>>,
    value: Option<Seq<char>>,
    list: bool,
    unset: bool,
    r: Result<ConfigRequest, ConfigError>,
) -> bool {
    if list {
        r matches Ok(ConfigRequest::List)
    } else {
        match key {
            None => r matches Ok(ConfigRequest::ShowKnownKeys),
            Some(k) => match key_check(k) {
                None => r matches Err(ConfigError::InvalidKey(e)) && e@ == k,
                Some(c) => if unset {
                    r matches Ok(ConfigRequest::Unset { key: rk, check }) && rk@ == k && check == c
                } else {
                    match value {
                        Some(v) => r matches Ok(ConfigRequest::Store { key: rk, value: rv, check })
                            && rk@ == k && rv@ == v && check == c,
                        None => r matches Ok(ConfigRequest::Get { key: rk, check }) && rk@ == k
                            && check == c,
                    }
                },
            },
        }
    }
}

/// Decides what a `config` invocation does.
pub fn plan_config(action: ConfigAction) -> (r: Result<ConfigRequest, ConfigError>)
    ensures
        request_of(opt_view(action.key), opt_view(action.value), action.list, action.unset, r),
{
    if action.list {
        return Ok(ConfigRequest::List);
    }
    let key = match action.key {
        Some(k) => k,
        None => return Ok(ConfigRequest::ShowKnownKeys),
    };
    let check = match validate_key(key.as_str()) {
        Ok(c) => c,
        Err(e) => return Err(e),
    };
    if action.unset {
        return Ok(ConfigRequest::Unset { key, check });
    }
    match action.value {
        Some(value) => Ok(ConfigRequest::Store { key, value, check }),
        None => Ok(ConfigRequest::Get { key, check }),
    }
}

/// The value stored under `k`, if any.
pub open spec fn lookup(m: Map<Seq<char>, Seq<char>>, k: Seq<char>) -> Option<Seq<char>> {
    if m.dom().contains(k) {
        Some(m[k])
    } else {
        None
    }
}

/// One line of `config --list`: a known key, its value (its default when
/// unset) and its description.
pub struct ListRow {
    pub key: String,
    pub value: String,
    pub description: String,
}

/// The rows of `config --list`: each known key in order, with its value in
/// the document or, when it is unset, its default.
pub fn list_rows(doc: &ConfigDoc) -> (rows: Vec<ListRow>)
    requires
        doc.wf(),
    ensures
        rows@.len() == known_key_names().len(),
        forall|i: int|
            0 <= i < rows@.len() ==> {
                &&& (#[trigger] rows@[i]).key@ == known_key_names()[i]
                &&& rows@[i].description@ == known_key_descriptions()[i]
                &&& rows@[i].value@ == match lookup(doc.map(), known_key_names()[i]) {
                    Some(v) => v,
                    None => known_key_defaults()[i],
                }
            },
{
    let keys = known_keys();
    let defaults = known_defaults();
    let mut rows: Vec<ListRow> = Vec::new();
    let mut i: usize = 0;
    while i < keys.len()
        invariant
            i <= keys@.len(),
            doc.wf(),
            rows@.len() == i,
            keys@.len() == known_key_names().len(),
            defaults@.len() == known_key_defaults().len(),
            known_key_defaults().len() == known_key_names().len(),
            forall|j: int| 0 <= j < defaults@.len() ==> (#[trigger] defaults@[j])@
                == known_key_defaults()[j],
            forall|j: int|
                0 <= j < keys@.len() ==> (#[trigger] keys@[j]).0@ == known_key_names()[j]
                    && keys@[j].1@ == known_key_descriptions()[j],
            forall|j: int|
                0 <= j < i ==> {
                    &&& (#[trigger] rows@[j]).key@ == known_key_names()[j]
                    &&& rows@[j].description@ == known_key_descriptions()[j]
                    &&& rows@[j].value@ == match lookup(doc.map(), known_key_names()[j]) {
                        Some(v) => v,
                        None => known_key_defaults()[j],
                    }
                },
        decreases keys@.len() - i,
    {
        let (k, d) = keys[i];
        let value = match doc.get(k) {
            Some(v) => v,
            None => defaults[i].to_owned(),
        };
        rows.push(ListRow { key: k.to_owned(), value, description: d.to_owned() });
        i = i + 1;
    }
    rows
}

/// What carrying out a request gave.
pub enum ConfigOutcome {
    /// The rows of `--list`, and whether the document holds no key at all.
    Listed { rows: Vec<ListRow>, empty: bool },
    /// The known keys (key, description) to show.
    KnownKeys { keys: Vec<(&'static str, &'static str)> },
    /// The key was removed (the document must be written) or had no value.
    Unset { removed: bool },
    /// The value was stored (the document must be written).
    Stored,
    /// The key's value.
    Value(String),
}

/// Carries out a request on the configuration document.
pub fn apply_request(req: ConfigRequest, doc: &mut ConfigDoc) -> (r: Result<
    ConfigOutcome,
    ConfigError,
>)
    requires
        old(doc).wf(),
    ensures
        final(doc).wf(),
        match req {
            ConfigRequest::List => final(doc).map() == old(doc).map() && (r matches Ok(
                ConfigOutcome::Listed { rows, empty },
            ) && empty == (old(doc).map().dom().len() == 0) && rows@.len()
                == known_key_names().len() && forall|i: int|
                0 <= i < rows@.len() ==> {
                    &&& (#[trigger] rows@[i]).key@ == known_key_names()[i]
                    &&& rows@[i].description@ == known_key_descriptions()[i]
                    &&& rows@[i].value@ == match lookup(old(doc).map(), known_key_names()[i]) {
                        Some(v) => v,
                        None => known_key_defaults()[i],
                    }
                }),
            ConfigRequest::ShowKnownKeys => final(doc).map() == old(doc).map() && (r matches Ok(
                ConfigOutcome::KnownKeys { keys },
            ) && keys@.len() == known_key_names().len() && forall|i: int|
                0 <= i < keys@.len() ==> (#[trigger] keys@[i]).0@ == known_key_names()[i]
                    && keys@[i].1@ == known_key_descriptions()[i]),
            ConfigRequest::Unset { key, check: _ } => final(doc).map() == old(doc).map().remove(
                key@,
            ) && (r matches Ok(ConfigOutcome::Unset { removed }) && removed == old(
                doc,
            ).map().dom().contains(key@)),
            ConfigRequest::Store { key, value, check: _ } => final(doc).map() == old(
                doc,
            ).map().insert(key@, value@) && (r matches Ok(ConfigOutcome::Stored)),
            ConfigRequest::Get { key, check: _ } => final(doc).map() == old(doc).map() && match lookup(
                old(doc).map(),
                key@,
            ) {
                Some(v) => r matches Ok(ConfigOutcome::Value(got)) && got@ == v,
                None => r matches Err(ConfigError::KeyUnset(k)) && k@ == key@,
            },
        },
{
    match req {
        ConfigRequest::List => {
            let empty = doc.is_empty();
            let rows = list_rows(doc);
            Ok(ConfigOutcome::Listed { rows, empty })
        },
        ConfigRequest::ShowKnownKeys => Ok(ConfigOutcome::KnownKeys { keys: known_keys() }),
        ConfigRequest::Unset { key, check: _ } => {
            let removed = doc.remove(key.as_str());
            Ok(ConfigOutcome::Unset { removed: removed.is_some() })
        },
        ConfigRequest::Store { key, value, check: _ } => {
            doc.insert(key.as_str(), value.as_str());
            Ok(ConfigOutcome::Stored)
        },
        ConfigRequest::Get { key, check: _ } => match doc.get(key.as_str()) {
            Some(v) => Ok(ConfigOutcome::Value(v)),
            None => Err(ConfigError::KeyUnset(key)),
        },
    }
}

// ---------------------------------------------------------------------------
// Mapping options
// ---------------------------------------------------------------------------

/// The mapping options read from the configuration document. The two
/// decimal options (note jump speed and offset) are kept as their text; the
/// program around the library reads them as numbers.
pub struct MappingConfig {
    /// `_levelAuthorName`: the mapper's credited name.
    pub mapper_name: Option<String>,
    /// Absolute path to the Beat Saber `CustomWIPLevels` folder where maps go.
    pub custom_wip_levels: Option<String>,
    /// Default characteristic (e.g. "Standard").
    pub characteristic: Option<String>,
    /// Default difficulty (e.g. "ExpertPlus").
    pub difficulty: Option<String>,
    /// Default difficulty rank (ExpertPlus=9, Expert=7, Hard=5, Normal=3, Easy=1).
    pub difficulty_rank: Option<i64>,
    /// Default Note Jump Movement Speed, as written in the configuration.
    pub njs: Option<String>,
    /// Default Note Jump Start Beat Offset, as written in the configuration.
    pub note_jump_start_beat_offset: Option<String>,
    /// Default environment name (e.g. "DefaultEnvironment").
    pub environment: Option<String>,
    /// Default `_songFilename` for the downloaded audio.
    pub song_filename: Option<String>,
}

/// The difficulty rank read from its stored text.
pub open spec fn rank_of(text: Option<Seq<char>>) -> Option<i64> {
    match text {
        Some(t) => parse_i64_spec(t),
        None => None,
    }
}

fn get_or_none(doc: &ConfigDoc, key: &str) -> (r: Option<String>)
    requires
        doc.wf(),
    ensures
        opt_view(r) == lookup(doc.map(), key@),
{
    doc.get(key)
}

impl MappingConfig {
    /// The typed mapping options of a configuration document: each option is
    /// the value of its key; the difficulty rank is that value read as an
    /// integer, and absent when it does not parse.
    pub fn from_doc(doc: &ConfigDoc) -> (c: MappingConfig)
        requires
            doc.wf(),
        ensures
            opt_view(c.mapper_name) == lookup(doc.map(), "mapper.name"@),
            opt_view(c.custom_wip_levels) == lookup(doc.map(), "customwiplevels.path"@),
            opt_view(c.characteristic) == lookup(doc.map(), "map.characteristic"@),
            opt_view(c.difficulty) == lookup(doc.map(), "map.difficulty"@),
            c.difficulty_rank == rank_of(lookup(doc.map(), "map.difficulty_rank"@)),
            opt_view(c.njs) == lookup(doc.map(), "map.njs"@),
            opt_view(c.note_jump_start_beat_offset) == lookup(
                doc.map(),
                "map.note_jump_start_beat_offset"@,
            ),
            opt_view(c.environment) == lookup(doc.map(), "map.environment"@),
            opt_view(c.song_filename) == lookup(doc.map(), "map.song_filename"@),
    {
        let rank_text = get_or_none(doc, "map.difficulty_rank");
        let difficulty_rank = match &rank_text {
            Some(t) => parse_i64(t.as_str()),
            None => None,
        };
        MappingConfig {
            mapper_name: get_or_none(doc, "mapper.name"),
            custom_wip_levels: get_or_none(doc, "customwiplevels.path"),
            characteristic: get_or_none(doc, "map.characteristic"),
            difficulty: get_or_none(doc, "map.difficulty"),
            difficulty_rank,
            njs: get_or_none(doc, "map.njs"),
            note_jump_start_beat_offset: get_or_none(doc, "map.note_jump_start_beat_offset"),
            environment: get_or_none(doc, "map.environment"),
            song_filename: get_or_none(doc, "map.song_filename"),
        }
    }

    /// The configured CustomWIPLevels folder, or an error when it is unset.
    pub fn require_wip_levels(&self) -> (r: Result<String, ConfigError>)
        ensures
            match opt_view(self.custom_wip_levels) {
                Some(p) => r matches Ok(path) && path@ == p,
                None => r matches Err(ConfigError::MissingWipLevels),
            },
    {
        match &self.custom_wip_levels {
            Some(p) => Ok(p.clone()),
            None => Err(ConfigError::MissingWipLevels),
        }
    }

    /// The configured mapper name, or an error when it is unset.
    pub fn require_mapper_name(&self) -> (r: Result<String, ConfigError>)
        ensures
            match opt_view(self.mapper_name) {
                Some(n) => r matches Ok(name) && name@ == n,
                None => r matches Err(ConfigError::MissingMapperName),
            },
    {
        match &self.mapper_name {
            Some(n) => Ok(n.clone()),
            None => Err(ConfigError::MissingMapperName),
        }
    }
}

} // verus!
