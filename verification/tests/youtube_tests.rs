use r_ya_mapping::youtube::{
    choose_thumbnail, extract_id, has, info_from_dump_json, is_youtube_music, require_yt_dlp,
    first_hit, tool_available,
    DirEntryName, IdError, MetadataError, MetadataFields, SearchPath, ThumbnailSource, ToolError,
    YoutubeInfo,
};

#[test]
fn music_uris_are_recognised() {
    assert!(is_youtube_music("https://music.youtube.com/watch?v=abc"));
    assert!(is_youtube_music("https://music.aa.youtube.com/watch?v=abc"));
    assert!(!is_youtube_music("https://www.youtube.com/watch?v=abc"));
    assert!(!is_youtube_music(""));
}

#[test]
fn id_from_watch_query() {
    assert_eq!(
        extract_id("https://www.youtube.com/watch?v=dQw4w9WgXcQ&t=42").unwrap(),
        "dQw4w9WgXcQ"
    );
    assert_eq!(extract_id("https://www.youtube.com/watch?v=abc").unwrap(), "abc");
}

#[test]
fn id_from_path_forms() {
    assert_eq!(extract_id("https://youtu.be/dQw4w9WgXcQ?si=x").unwrap(), "dQw4w9WgXcQ");
    assert_eq!(extract_id("https://www.youtube.com/shorts/abc123/").unwrap(), "abc123");
    assert_eq!(extract_id("https://www.youtube.com/embed/xyz&a=1").unwrap(), "xyz");
    assert_eq!(extract_id("https://www.youtube.com/live/LIVEID?feature=share").unwrap(), "LIVEID");
}

#[test]
fn empty_query_id_falls_through_to_path() {
    // `v=` with nothing after it is skipped; the path form is used instead.
    assert_eq!(extract_id("https://youtu.be/ABC?v=&x").unwrap(), "ABC");
}

#[test]
fn bare_id_is_trimmed_and_kept() {
    assert_eq!(extract_id("  dQw4w9WgXcQ \n").unwrap(), "dQw4w9WgXcQ");
    assert_eq!(extract_id("a-b_c-d_e-f").unwrap(), "a-b_c-d_e-f");
}

#[test]
fn bad_ids_are_refused() {
    match extract_id("not a video") {
        Err(IdError::NoVideoId(u)) => assert_eq!(u, "not a video"),
        Ok(id) => panic!("unexpected id {id}"),
    }
    assert!(extract_id("dQw4w9WgXc").is_err()); // ten characters
    assert!(extract_id("dQw4w9WgXc!").is_err()); // a character that is not allowed
    assert!(extract_id("https://youtu.be/?x").is_err());
    // Eleven characters, but twelve bytes of UTF-8.
    assert!(extract_id("dQw4w9WgXcé").is_err());
}

#[test]
fn metadata_prefers_track_fields() {
    let json = br#"{"title":"Video Title","uploader":"Uploader","channel":"Chan","track":"Song","artist":"Band","id":"abc"}"#;
    let info = info_from_dump_json(json).unwrap();
    assert_eq!(info.title, "Song");
    assert_eq!(info.uploader, "Band");
    assert_eq!(info.id, "abc");
    assert_eq!(info.track.as_deref(), Some("Song"));
    assert_eq!(info.artist.as_deref(), Some("Band"));
}

#[test]
fn metadata_falls_back_to_title_and_uploader() {
    let json = br#"{"title":"Video Title","uploader":"Uploader","channel":"Chan","track":"","artist":"","id":"abc"}"#;
    let info = info_from_dump_json(json).unwrap();
    assert_eq!(info.title, "Video Title");
    assert_eq!(info.uploader, "Uploader");
    assert!(info.track.is_none());
    assert!(info.artist.is_none());
}

#[test]
fn metadata_falls_back_to_channel_and_empty() {
    let json = br#"{"channel":"Chan","duration":12.5,"title":7}"#;
    let info = info_from_dump_json(json).unwrap();
    assert_eq!(info.title, "");
    assert_eq!(info.uploader, "Chan");
    assert_eq!(info.id, "");
}

#[test]
fn metadata_that_is_not_json_is_an_error() {
    assert!(matches!(info_from_dump_json(b"ERROR: nope"), Err(MetadataError::NotJson)));
    // A JSON document that is not an object parses, and has no fields.
    let info = info_from_dump_json(b"[1, 2]").unwrap();
    assert_eq!(info.title, "");
}

#[test]
fn metadata_from_fields() {
    let info = YoutubeInfo::from_metadata(MetadataFields {
        title: Some("T".to_string()),
        uploader: None,
        channel: Some("C".to_string()),
        track: None,
        artist: Some(String::new()),
        id: Some("i".to_string()),
    });
    assert_eq!(info.title, "T");
    assert_eq!(info.uploader, "C");
    assert_eq!(info.id, "i");
    assert!(info.track.is_none());
    assert!(info.artist.is_none());
}

#[test]
fn nothing_is_found_without_search_dirs() {
    let search = SearchPath { dirs: Vec::new(), exe_suffix: String::new() };
    assert!(!has("yt-dlp", &search));
    assert!(matches!(require_yt_dlp(&search), Err(ToolError::YtDlpMissing)));
}

#[test]
fn missing_tool_in_a_directory_is_not_found() {
    let search = SearchPath {
        dirs: vec!["/nonexistent-dir-for-tests".to_string()],
        exe_suffix: String::new(),
    };
    assert!(!has("yt-dlp", &search));
}

#[test]
fn thumbnail_choice_prefers_converted_jpg() {
    let entries = vec![DirEntryName { is_target: false, name: Some("cover.webp".to_string()) }];
    assert_eq!(choose_thumbnail(true, &entries, "cover"), Some(ThumbnailSource::Converted));
    assert_eq!(choose_thumbnail(false, &entries, "cover"), Some(ThumbnailSource::Found(0)));
}

#[test]
fn thumbnail_choice_skips_target_and_other_names() {
    let entries = vec![
        DirEntryName { is_target: true, name: Some("cover.jpg".to_string()) },
        DirEntryName { is_target: false, name: Some("song.opus".to_string()) },
        DirEntryName { is_target: false, name: None },
        DirEntryName { is_target: false, name: Some("coverx.png".to_string()) },
        DirEntryName { is_target: false, name: Some("cover.png".to_string()) },
    ];
    assert_eq!(choose_thumbnail(false, &entries, "cover"), Some(ThumbnailSource::Found(4)));
    let without_match = vec![
        DirEntryName { is_target: true, name: Some("cover.jpg".to_string()) },
        DirEntryName { is_target: false, name: Some("coverx.png".to_string()) },
    ];
    assert_eq!(choose_thumbnail(false, &without_match, "cover"), None);
}

#[test]
fn tool_outcome_follows_the_search() {
    assert!(matches!(tool_available(true, ToolError::FfmpegMissing), Ok(())));
    assert!(matches!(
        tool_available(false, ToolError::FfprobeMissing),
        Err(ToolError::FfprobeMissing)
    ));
}

#[test]
fn the_first_directory_that_answers_yes_wins() {
    assert_eq!(first_hit(&vec![false, true, true]), Some(1));
    assert_eq!(first_hit(&vec![true]), Some(0));
    assert_eq!(first_hit(&vec![false, false]), None);
    assert_eq!(first_hit(&Vec::new()), None);
}
