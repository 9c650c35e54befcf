use phyto_fsm::options::{
    option_key, parse_log_level, parse_non_empty, LogLevel, OptionKey, OptionKeyValue, Options,
};

/// A `key = "value"` pair, read as the macro reads it.
fn kv(key: &str, value: &str) -> Result<OptionKeyValue, String> {
    match option_key(key)? {
        OptionKey::FilePath => Ok(OptionKeyValue::FilePath(parse_non_empty(value.to_string(), "File path")?)),
        OptionKey::LogLevel => Ok(OptionKeyValue::LogLevel(parse_log_level(value)?)),
        OptionKey::Naming => Ok(OptionKeyValue::Naming(parse_non_empty(
            value.to_string(),
            "Naming template path",
        )?)),
        OptionKey::SubFsms => Err("expected a list".to_string()),
    }
}

/// A `sub_fsms = [...]` pair.
fn subs(paths: &[&str]) -> Result<OptionKeyValue, String> {
    match option_key("sub_fsms")? {
        OptionKey::SubFsms => Ok(OptionKeyValue::SubFsms(paths.iter().map(|p| p.to_string()).collect())),
        _ => Err("expected sub_fsms".to_string()),
    }
}

/// The options of a list of pairs; the first pair that cannot be read fails them all.
fn parse(pairs: Vec<Result<OptionKeyValue, String>>) -> Result<Options, String> {
    let pairs = pairs.into_iter().collect::<Result<Vec<_>, _>>()?;
    Options::try_from_key_value_pairs(pairs)
}

#[test]
fn parse_file_path_only() {
    let options = Options::try_from_file_path("path/to/fsm.puml".to_string()).unwrap();
    assert_eq!(options.file_path, "path/to/fsm.puml");
    assert_eq!(options.log_level, None);
}

#[test]
fn error_from_empty_file_path() {
    let result = Options::try_from_file_path("".to_string());
    assert!(result.is_err());

    let result = Options::try_from_file_path("    ".to_string());
    assert!(result.is_err());
}

#[test]
fn parse_file_path_as_key_value() {
    let options = parse(vec![kv("file_path", "path/to/fsm.puml")]).unwrap();
    assert_eq!(options.file_path, "path/to/fsm.puml");
    assert_eq!(options.log_level, None);
}

#[test]
fn parse_key_value_pairs() {
    let options = parse(vec![kv("file_path", "path/to/fsm.puml"), kv("log_level", "error")]).unwrap();
    assert_eq!(options.file_path, "path/to/fsm.puml");
    assert_eq!(options.log_level, Some(LogLevel::Error));
}

#[test]
fn error_on_duplicate_keys() {
    let result = parse(vec![kv("file_path", "path/to/fsm.puml"), kv("file_path", "another/path.puml")]);
    assert!(result.is_err());
}

#[test]
fn error_on_duplicate_optional_keys() {
    let duplicates = vec![
        vec![kv("file_path", "fsm.puml"), kv("log_level", "error"), kv("log_level", "warn")],
        vec![kv("file_path", "fsm.puml"), kv("naming", "a.tmpl"), kv("naming", "b.tmpl")],
        vec![kv("file_path", "fsm.puml"), subs(&["a.puml"]), subs(&["b.puml"])],
    ];
    for pairs in duplicates {
        assert!(parse(pairs).is_err());
    }
}

#[test]
fn error_on_missing_file_path() {
    assert!(parse(vec![kv("log_level", "error")]).is_err());
}

#[test]
fn error_on_empty_naming_path() {
    assert!(parse(vec![kv("file_path", "fsm.puml"), kv("naming", "   ")]).is_err());
}

#[test]
fn parse_sub_fsms() {
    let options = parse(vec![kv("file_path", "fsm.puml"), subs(&["a.puml", "b.puml"])]).unwrap();
    assert_eq!(options.sub_fsms, ["a.puml", "b.puml"]);
}

#[test]
fn error_on_invalid_log_level() {
    let result = parse(vec![kv("file_path", "path/to/fsm.puml"), kv("log_level", "INVALID")]);
    assert!(result.is_err());
}

#[test]
fn parse_naming_option() {
    let options = parse(vec![kv("file_path", "path/to/fsm.puml"), kv("naming", "path/to/naming.tmpl")]).unwrap();
    assert_eq!(options.naming_path, Some("path/to/naming.tmpl".to_string()));
}

#[test]
fn duplicate_key_message_names_the_key() {
    let result = parse(vec![kv("file_path", "fsm.puml"), kv("naming", "a"), kv("naming", "b")]);
    assert_eq!(result.unwrap_err(), "Expected at most one 'naming' key in options");
}

#[test]
fn missing_file_path_message() {
    let result = parse(vec![kv("naming", "a")]);
    assert_eq!(result.unwrap_err(), "Expected a 'file_path' key in options");
}

#[test]
fn log_levels_are_read_in_any_case() {
    assert_eq!(parse_log_level("TRACE"), Ok(LogLevel::Trace));
    assert_eq!(parse_log_level("Warn"), Ok(LogLevel::Warn));
    assert_eq!(parse_log_level("info"), Ok(LogLevel::Info));
    assert_eq!(parse_log_level("debug"), Ok(LogLevel::Debug));
    assert_eq!(
        parse_log_level("verbose"),
        Err("Invalid log level. Expected one of: error, warn, info, debug, trace".to_string())
    );
}

#[test]
fn unknown_option_key_is_refused() {
    assert!(option_key("colour").is_err());
    assert!(option_key("file_path").is_ok());
}

#[test]
fn blank_values_are_refused_with_their_name() {
    assert_eq!(
        parse_non_empty("  ".to_string(), "File path"),
        Err("File path cannot be empty".to_string())
    );
    assert_eq!(parse_non_empty("x".to_string(), "File path"), Ok("x".to_string()));
}
