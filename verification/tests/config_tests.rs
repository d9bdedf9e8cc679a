use r_ya_mapping::config::{parse_doc, quote, render_doc, strip_quotes, ConfigDoc};
use r_ya_mapping::settings::{
    apply_request, known_keys, list_rows, plan_config, validate_key, ConfigAction, ConfigError,
    ConfigOutcome, ConfigRequest, KeyCheck, MappingConfig,
};

fn doc_of(pairs: &[(&str, &str)]) -> ConfigDoc {
    let mut d = ConfigDoc::new();
    for (k, v) in pairs {
        d.insert(k, v);
    }
    d
}

#[test]
fn strip_quotes_cases() {
    assert_eq!(strip_quotes("  \"Sora\"  "), "Sora");
    assert_eq!(strip_quotes("'x y'"), "x y");
    assert_eq!(strip_quotes("\""), "\"");
    assert_eq!(strip_quotes("\"a'"), "\"a'");
    assert_eq!(strip_quotes(" 18 "), "18");
    assert_eq!(strip_quotes("\"\""), "");
}

#[test]
fn quote_escapes_backslash_and_quote() {
    assert_eq!(quote("plain"), "\"plain\"");
    assert_eq!(quote("a\"b\\c"), "\"a\\\"b\\\\c\"");
    assert_eq!(quote(""), "\"\"");
}

#[test]
fn doc_insert_get_remove() {
    let mut d = ConfigDoc::new();
    assert!(d.is_empty());
    d.insert("map.njs", "18");
    d.insert("mapper.name", "Sora");
    d.insert("map.njs", "20");
    assert_eq!(d.len(), 2);
    assert_eq!(d.get("map.njs").as_deref(), Some("20"));
    assert_eq!(d.get("mapper.name").as_deref(), Some("Sora"));
    assert_eq!(d.get("missing"), None);
    assert_eq!(d.remove("map.njs").as_deref(), Some("20"));
    assert_eq!(d.remove("map.njs"), None);
    assert_eq!(d.len(), 1);
}

#[test]
fn parse_reads_sections_comments_and_quotes() {
    let text = "# comment\n\n[mapper]\nname = \"Sora\"\r\n[map]\n  njs = 18  \nenvironment='Big Mirror'\nno equals sign\ntop = level\n[ ]\nbare = \"x\"\n";
    let d = parse_doc(text);
    assert_eq!(d.get("mapper.name").as_deref(), Some("Sora"));
    assert_eq!(d.get("map.njs").as_deref(), Some("18"));
    assert_eq!(d.get("map.environment").as_deref(), Some("Big Mirror"));
    assert_eq!(d.get("map.top").as_deref(), Some("level"));
    assert_eq!(d.get("bare").as_deref(), Some("x"));
    assert_eq!(d.len(), 5);
}

#[test]
fn parse_later_value_wins_and_empty_text() {
    let d = parse_doc("a = 1\na = 2\n");
    assert_eq!(d.get("a").as_deref(), Some("2"));
    assert!(parse_doc("").is_empty());
    let d = parse_doc("[s]\nk=v=w");
    assert_eq!(d.get("s.k").as_deref(), Some("v=w"));
}

#[test]
fn render_groups_sections_in_key_order() {
    let d = doc_of(&[
        ("mapper.name", "Sora"),
        ("map.njs", "18"),
        ("map.difficulty", "Expert"),
        ("a-c.d", "1"),
        ("a.b", "2"),
        ("plain", "3"),
    ]);
    let text = render_doc(&d);
    let expected = "# r-ya-mapping global config. Edit with `r-ya-mapping config <key> <value>`.\n\
[]\nplain = \"3\"\n\n\
[a]\nb = \"2\"\n\n\
[a-c]\nd = \"1\"\n\n\
[map]\ndifficulty = \"Expert\"\nnjs = \"18\"\n\n\
[mapper]\nname = \"Sora\"\n\n";
    assert_eq!(text, expected);
}

#[test]
fn render_of_empty_doc_is_header_only() {
    let text = render_doc(&ConfigDoc::new());
    assert_eq!(
        text,
        "# r-ya-mapping global config. Edit with `r-ya-mapping config <key> <value>`.\n"
    );
}

#[test]
fn written_file_reads_back() {
    let d = doc_of(&[
        ("mapper.name", "Sora Hikari"),
        ("customwiplevels.path", "C:/Steam/steamapps/common/Beat Saber/CustomWIPLevels"),
        ("map.njs", "18"),
        ("map.note_jump_start_beat_offset", "-1.902"),
        ("x.y.z", " spaced "),
    ]);
    let back = parse_doc(&render_doc(&d));
    assert_eq!(back.len(), d.len());
    for (k, _) in known_keys() {
        assert_eq!(back.get(k), d.get(k));
    }
    assert_eq!(back.get("x.y.z").as_deref(), Some(" spaced "));
    assert_eq!(render_doc(&back), render_doc(&d));
}

#[test]
fn escaped_values_read_back() {
    // Quoting escapes backslash and double quote, and reading undoes it.
    let d = doc_of(&[("mapper.name", "say \"hi\""), ("customwiplevels.path", "C:\\x\\")]);
    let text = render_doc(&d);
    assert!(text.contains("path = \"C:\\\\x\\\\\"\n"));
    let back = parse_doc(&text);
    assert_eq!(back.get("mapper.name").as_deref(), Some("say \"hi\""));
    assert_eq!(back.get("customwiplevels.path").as_deref(), Some("C:\\x\\"));
    // Single-quoted and bare values keep their backslashes.
    let hand = parse_doc("[a]\nb = 'C:\\x'\nc = C:\\y\nd = \"p\\q\"\n");
    assert_eq!(hand.get("a.b").as_deref(), Some("C:\\x"));
    assert_eq!(hand.get("a.c").as_deref(), Some("C:\\y"));
    assert_eq!(hand.get("a.d").as_deref(), Some("p\\q"));
}

#[test]
fn key_validation() {
    assert!(matches!(validate_key("mapper.name"), Ok(KeyCheck::Known)));
    assert!(matches!(validate_key("my-sec.some_key9"), Ok(KeyCheck::Unknown)));
    assert!(matches!(validate_key("sektion.näme"), Ok(KeyCheck::Unknown)));
    for bad in ["nodot", "a.b.c", "a b.c", "a.b=c", "", ".", "a.", ".b"] {
        match validate_key(bad) {
            Err(ConfigError::InvalidKey(k)) => assert_eq!(k, bad),
            other => panic!("{bad}: {other:?}"),
        }
    }
}

fn action(key: Option<&str>, value: Option<&str>, list: bool, unset: bool) -> ConfigAction {
    ConfigAction {
        key: key.map(|s| s.to_string()),
        value: value.map(|s| s.to_string()),
        list,
        unset,
    }
}

#[test]
fn config_requests() {
    assert!(matches!(plan_config(action(Some("bad"), None, true, false)), Ok(ConfigRequest::List)));
    assert!(matches!(plan_config(action(None, None, false, true)), Ok(ConfigRequest::ShowKnownKeys)));
    assert!(matches!(
        plan_config(action(Some("bad"), Some("v"), false, false)),
        Err(ConfigError::InvalidKey(_))
    ));
    match plan_config(action(Some("map.njs"), Some("20"), false, true)) {
        Ok(ConfigRequest::Unset { key, check }) => {
            assert_eq!(key, "map.njs");
            assert_eq!(check, KeyCheck::Known);
        }
        other => panic!("{other:?}"),
    }
    match plan_config(action(Some("a.b"), Some("20"), false, false)) {
        Ok(ConfigRequest::Store { key, value, check }) => {
            assert_eq!((key.as_str(), value.as_str()), ("a.b", "20"));
            assert_eq!(check, KeyCheck::Unknown);
        }
        other => panic!("{other:?}"),
    }
    assert!(matches!(
        plan_config(action(Some("map.njs"), None, false, false)),
        Ok(ConfigRequest::Get { .. })
    ));
}

#[test]
fn set_get_unset_cycle() {
    let mut doc = ConfigDoc::new();
    let req = plan_config(action(Some("mapper.name"), Some("Sora"), false, false)).unwrap();
    assert!(matches!(apply_request(req, &mut doc), Ok(ConfigOutcome::Stored)));
    let mut doc = parse_doc(&render_doc(&doc));
    let req = plan_config(action(Some("mapper.name"), None, false, false)).unwrap();
    match apply_request(req, &mut doc) {
        Ok(ConfigOutcome::Value(v)) => assert_eq!(v, "Sora"),
        _ => panic!("expected a value"),
    }
    let req = plan_config(action(Some("mapper.name"), None, false, true)).unwrap();
    assert!(matches!(apply_request(req, &mut doc), Ok(ConfigOutcome::Unset { removed: true })));
    let req = plan_config(action(Some("mapper.name"), None, false, true)).unwrap();
    assert!(matches!(apply_request(req, &mut doc), Ok(ConfigOutcome::Unset { removed: false })));
    let req = plan_config(action(Some("mapper.name"), None, false, false)).unwrap();
    match apply_request(req, &mut doc) {
        Err(ConfigError::KeyUnset(k)) => assert_eq!(k, "mapper.name"),
        _ => panic!("expected an unset key"),
    }
}

#[test]
fn list_shows_every_known_key() {
    let doc = doc_of(&[("map.njs", "20"), ("other.key", "x")]);
    let rows = list_rows(&doc);
    assert_eq!(rows.len(), 9);
    assert_eq!(rows[0].key, "mapper.name");
    assert_eq!(rows[0].value, "");
    assert_eq!(rows[5].key, "map.njs");
    assert_eq!(rows[5].value, "20");
    assert_eq!(rows[5].description, "Default Note Jump Movement Speed.");
    let mut doc2 = ConfigDoc::new();
    match apply_request(ConfigRequest::List, &mut doc2) {
        Ok(ConfigOutcome::Listed { rows, empty }) => {
            assert!(empty);
            let values: Vec<&str> = rows.iter().map(|r| r.value.as_str()).collect();
            assert_eq!(
                values,
                vec![
                    "",
                    "",
                    "Standard",
                    "ExpertPlus",
                    "9",
                    "18",
                    "-1.902",
                    "DefaultEnvironment",
                    "song.ogg"
                ]
            );
        }
        _ => panic!("expected a listing"),
    }
}

#[test]
fn mapping_config_from_doc() {
    let doc = doc_of(&[
        ("mapper.name", "Sora"),
        ("map.difficulty_rank", "7"),
        ("map.njs", "20"),
        ("map.song_filename", "x.ogg"),
    ]);
    let c = MappingConfig::from_doc(&doc);
    assert_eq!(c.mapper_name.as_deref(), Some("Sora"));
    assert_eq!(c.difficulty_rank, Some(7));
    assert_eq!(c.njs.as_deref(), Some("20"));
    assert_eq!(c.song_filename.as_deref(), Some("x.ogg"));
    assert!(c.custom_wip_levels.is_none());
    assert_eq!(c.require_mapper_name().unwrap(), "Sora");
    assert!(matches!(c.require_wip_levels(), Err(ConfigError::MissingWipLevels)));
}

#[test]
fn difficulty_rank_that_does_not_parse_is_absent() {
    for bad in ["seven", " 7", "", "99999999999999999999"] {
        let c = MappingConfig::from_doc(&doc_of(&[("map.difficulty_rank", bad)]));
        assert_eq!(c.difficulty_rank, None, "{bad}");
        assert!(matches!(c.require_mapper_name(), Err(ConfigError::MissingMapperName)));
    }
    let c = MappingConfig::from_doc(&doc_of(&[("map.difficulty_rank", "-3")]));
    assert_eq!(c.difficulty_rank, Some(-3));
    let c = MappingConfig::from_doc(&doc_of(&[("map.difficulty_rank", "+5")]));
    assert_eq!(c.difficulty_rank, Some(5));
}

#[test]
fn accepted_keys_read_back_from_the_file() {
    for key in ["my-sec.some_key9", "mapper.name", "a.b", "sektion.näme"] {
        assert!(validate_key(key).is_ok());
        let d = doc_of(&[(key, "v 1")]);
        let back = parse_doc(&render_doc(&d));
        assert_eq!(back.get(key).as_deref(), Some("v 1"));
    }
}

#[test]
fn difficulty_rank_reads_the_whole_i64_range() {
    let rank = |t: &str| MappingConfig::from_doc(&doc_of(&[("map.difficulty_rank", t)])).difficulty_rank;
    assert_eq!(rank("-9223372036854775808"), Some(i64::MIN));
    assert_eq!(rank("9223372036854775807"), Some(i64::MAX));
    assert_eq!(rank("9223372036854775808"), None);
    assert_eq!(rank("-9223372036854775809"), None);
    assert_eq!(rank("007"), Some(7));
    assert_eq!(rank("-"), None);
    assert_eq!(rank("+"), None);
    assert_eq!(rank("--1"), None);
    assert_eq!(rank("1-"), None);
}
