use r_ya_mapping::audio::{
    audio_filter, dimensions_from_probe, require_ffmpeg, require_ffprobe, sample_rate_from_probe,
};
use r_ya_mapping::beatmap::{beatmap_file_name, crlf_line_endings};
use r_ya_mapping::config::ConfigDoc;
use r_ya_mapping::settings::{ConfigError, MappingConfig};
use r_ya_mapping::start::{
    check_cover, sanitize_path, song_names, CoverCheck, MapSettings, PathPart,
};
use r_ya_mapping::youtube::{SearchPath, ToolError, YoutubeInfo};

fn info(title: &str, uploader: &str, id: &str) -> YoutubeInfo {
    YoutubeInfo {
        title: title.to_string(),
        uploader: uploader.to_string(),
        track: None,
        artist: None,
        id: id.to_string(),
    }
}

#[test]
fn names_come_from_metadata_by_default() {
    let n = song_names(None, None, None, None, &info("Red Line", "Camellia", "abc"));
    assert_eq!(n.song_name, "Red Line");
    assert_eq!(n.song_author, "Camellia");
    assert_eq!(n.song_sub_name, "");
    assert_eq!(n.folder_name, "Red Line");
}

#[test]
fn overrides_win() {
    let n = song_names(
        Some("A".to_string()),
        Some("B".to_string()),
        Some("C".to_string()),
        Some("Folder".to_string()),
        &info("Red Line", "Camellia", "abc"),
    );
    assert_eq!(
        (n.song_name.as_str(), n.song_author.as_str(), n.song_sub_name.as_str()),
        ("A", "B", "C")
    );
    assert_eq!(n.folder_name, "Folder");
}

#[test]
fn track_fields_come_before_title() {
    let mut i = info("Title", "Uploader", "abc");
    i.track = Some("Track".to_string());
    i.artist = Some("Artist".to_string());
    let n = song_names(None, None, None, Some(String::new()), &i);
    assert_eq!(n.song_name, "Track");
    assert_eq!(n.song_author, "Artist");
    assert_eq!(n.folder_name, "Track");
}

#[test]
fn folder_falls_back_to_video_id() {
    let n = song_names(None, None, None, None, &info("", "", "dQw4w9WgXcQ"));
    assert_eq!(n.folder_name, "yt_dQw4w9WgXcQ");
}

#[test]
fn sanitize_replaces_illegal_chars_in_normal_parts() {
    let parts = vec![
        PathPart::Other("/".to_string()),
        PathPart::Normal("Beat Saber".to_string()),
        PathPart::Normal("Re:Zero <OP>? \"x\"|*\\".to_string()),
        PathPart::Other("..".to_string()),
    ];
    let out = sanitize_path(parts);
    assert_eq!(out.len(), 4);
    match &out[0] {
        PathPart::Other(s) => assert_eq!(s, "/"),
        other => panic!("{other:?}"),
    }
    match &out[1] {
        PathPart::Normal(s) => assert_eq!(s, "Beat Saber"),
        other => panic!("{other:?}"),
    }
    match &out[2] {
        PathPart::Normal(s) => assert_eq!(s, "Re_Zero _OP__ _x____"),
        other => panic!("{other:?}"),
    }
}

fn config(pairs: &[(&str, &str)]) -> MappingConfig {
    let mut d = ConfigDoc::new();
    for (k, v) in pairs {
        d.insert(k, v);
    }
    MappingConfig::from_doc(&d)
}

#[test]
fn map_settings_defaults() {
    let c = config(&[("mapper.name", "Sora"), ("customwiplevels.path", "/wip")]);
    let s = MapSettings::resolve(&c).unwrap();
    assert_eq!(s.level_author, "Sora");
    assert_eq!(s.wip_levels, "/wip");
    assert_eq!(s.characteristic, "Standard");
    assert_eq!(s.difficulty, "ExpertPlus");
    assert_eq!(s.difficulty_rank, 9);
    assert_eq!(s.environment, "DefaultEnvironment");
    assert_eq!(s.song_filename, "song.ogg");
}

#[test]
fn map_settings_from_config() {
    let c = config(&[
        ("mapper.name", "Sora"),
        ("customwiplevels.path", "/wip"),
        ("map.difficulty", "Hard"),
        ("map.difficulty_rank", "5"),
        ("map.environment", "Origins"),
    ]);
    let s = MapSettings::resolve(&c).unwrap();
    assert_eq!(s.difficulty, "Hard");
    assert_eq!(s.difficulty_rank, 5);
    assert_eq!(s.environment, "Origins");
}

#[test]
fn map_settings_need_folder_then_name() {
    assert!(matches!(
        MapSettings::resolve(&config(&[("mapper.name", "Sora")])),
        Err(ConfigError::MissingWipLevels)
    ));
    assert!(matches!(
        MapSettings::resolve(&config(&[("customwiplevels.path", "/wip")])),
        Err(ConfigError::MissingMapperName)
    ));
}

#[test]
fn probe_dimensions() {
    assert_eq!(dimensions_from_probe("1280\n720\n"), Some((1280, 720)));
    assert_eq!(dimensions_from_probe(" 512 \r\n512"), Some((512, 512)));
    assert_eq!(dimensions_from_probe("1280\n"), None);
    assert_eq!(dimensions_from_probe("0\n720\n"), None);
    assert_eq!(dimensions_from_probe("N/A\n720\n"), None);
    assert_eq!(dimensions_from_probe(""), None);
}

#[test]
fn probe_sample_rate() {
    assert_eq!(sample_rate_from_probe("44100\n201.5\n"), 44100);
    assert_eq!(sample_rate_from_probe("garbage\n"), 48000);
    assert_eq!(sample_rate_from_probe(""), 48000);
}

#[test]
fn audio_filters() {
    assert_eq!(audio_filter(1875), "adelay=delays=1875:all=1");
    assert_eq!(audio_filter(7), "adelay=delays=7:all=1");
    assert_eq!(audio_filter(0), "anull");
    assert_eq!(audio_filter(-5), "anull");
}

#[test]
fn tools_are_missing_without_search_dirs() {
    let search = SearchPath { dirs: Vec::new(), exe_suffix: ".exe".to_string() };
    assert!(matches!(require_ffmpeg(&search), Err(ToolError::FfmpegMissing)));
    assert!(matches!(require_ffprobe(&search), Err(ToolError::FfprobeMissing)));
}

#[test]
fn beatmap_files() {
    assert_eq!(beatmap_file_name("ExpertPlus"), "ExpertPlusStandard.dat");
    assert_eq!(crlf_line_endings("{\n  \"a\": 1\n}"), "{\r\n  \"a\": 1\r\n}");
    assert_eq!(crlf_line_endings(""), "");
}

#[test]
fn cover_is_judged_by_its_dimensions() {
    let square = check_cover(Some((720, 720)));
    assert_eq!(square, CoverCheck::Square { side: 720 });
    assert_eq!(square.cover_file_name().as_deref(), Some("cover.jpg"));
    let wide = check_cover(Some((1280, 720)));
    assert_eq!(wide, CoverCheck::NotSquare { width: 1280, height: 720 });
    assert_eq!(wide.cover_file_name().as_deref(), Some("cover.jpg"));
    let unread = check_cover(None);
    assert_eq!(unread, CoverCheck::Unreadable);
    assert_eq!(unread.cover_file_name(), None);
}

#[test]
fn probe_sample_rate_edges() {
    assert_eq!(sample_rate_from_probe("4294967295\n"), 4294967295);
    assert_eq!(sample_rate_from_probe("4294967296\n"), 48000);
    assert_eq!(sample_rate_from_probe(" +22050 \n"), 22050);
    assert_eq!(sample_rate_from_probe("-1\n"), 48000);
    assert_eq!(sample_rate_from_probe("0\n"), 0);
}
