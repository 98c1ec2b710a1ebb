use neuron_wire::logger::{
    format_json_line, format_plain_line, format_timestamp, is_leap, json_escape, level_enabled,
    timestamp, Level,
};

#[test]
fn timestamps() {
    assert_eq!(format_timestamp(0), "1970-01-01T00:00:00Z");
    assert_eq!(format_timestamp(951_782_400), "2000-02-29T00:00:00Z");
    assert_eq!(format_timestamp(1_700_000_000), "2023-11-14T22:13:20Z");
    assert_eq!(format_timestamp(86_399), "1970-01-01T23:59:59Z");
    let now = timestamp();
    assert_eq!(now.len(), 20);
    assert!(now.ends_with('Z'));
}

#[test]
fn leap_years() {
    assert!(is_leap(2000));
    assert!(!is_leap(1900));
    assert!(is_leap(2024));
    assert!(!is_leap(2023));
}

#[test]
fn levels() {
    assert_eq!(Level::from_env("WARNING"), Level::Warn);
    assert_eq!(Level::from_env("Debug"), Level::Debug);
    assert_eq!(Level::from_env("nonsense"), Level::Info);
    assert_eq!(Level::from_u8(0), Level::Error);
    assert_eq!(Level::from_u8(4), Level::Trace);
    assert_eq!(Level::from_u8(200), Level::Info);
    assert_eq!(Level::Warn.as_str(), "WARN");
    assert_eq!(Level::Debug.code(), 3);
    assert!(level_enabled(Level::Error, 2));
    assert!(!level_enabled(Level::Debug, 2));
}

#[test]
fn json_escaping_and_lines() {
    assert_eq!(json_escape("a\"b\\c\nd\te\r"), "a\\\"b\\\\c\\nd\\te\\r");
    let line = format_json_line(
        "2024-01-01T00:00:00Z",
        Level::Info,
        "dht",
        "peer \"x\" joined",
        Some("ab12"),
        None,
        Some("k=v"),
    );
    assert_eq!(
        line,
        "{\"ts\":\"2024-01-01T00:00:00Z\",\"level\":\"INFO\",\"module\":\"dht\",\"msg\":\"peer \\\"x\\\" joined\",\"peer\":\"ab12\",\"extra\":\"k=v\"}\n"
    );
    let plain = format_plain_line("T", Level::Error, "io", "boom", None, Some("ev"));
    assert_eq!(plain, "[T] \x1b[31mERROR\x1b[0m io (ev) boom");
}
