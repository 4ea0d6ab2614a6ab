use safaribooks::Args;

#[test]
fn parses_positional_bookid_only() {
    let args = Args::try_parse_from(&["safaribooks-rs", "9781491958698"]).unwrap();
    assert_eq!(args.bookid, "9781491958698");
    assert!(!args.preserve_log);
}

#[test]
fn parses_with_preserve_log_flag() {
    let args =
        Args::try_parse_from(&["safaribooks-rs", "--preserve-log", "9781491958698"]).unwrap();
    assert_eq!(args.bookid, "9781491958698");
    assert!(args.preserve_log);
}

#[test]
fn error_when_missing_bookid() {
    let err = Args::try_parse_from(&["safaribooks-rs", "--preserve-log"]).unwrap_err();
    let msg = err.to_string();
    assert!(msg.contains("<BOOKID>"));
}

#[test]
fn error_on_unknown_flag() {
    let err = Args::try_parse_from(&["safaribooks-rs", "--kindle", "9781491958698"]).unwrap_err();
    let msg = err.to_string().to_lowercase();
    assert!(msg.contains("unexpected argument '--kindle' found"));
}

#[test]
fn help_and_version_are_available() {
    let help = Args::command().render_help().to_string();
    assert!(help.contains("Usage:"));
    assert!(help.contains("<BOOKID>"));
    assert!(help.contains("--preserve-log"));

    let version = Args::command().render_version();
    assert!(!version.trim().is_empty());
}

#[test]
fn help_request_is_reported_with_success_code() {
    let err = Args::try_parse_from(&["safaribooks-rs", "--help"]).unwrap_err();
    assert_eq!(err.exit_code, 0);
    assert!(err.to_string().contains("--preserve-log"));
}

#[test]
fn from_parts_needs_a_bookid() {
    assert!(Args::from_parts(None, Some(true)).is_none());
    let a = Args::from_parts(Some("42".to_string()), None).unwrap();
    assert_eq!(a.bookid, "42");
    assert!(!a.preserve_log);
}
