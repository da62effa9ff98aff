//! Configuration defaults and the parsing of environment values.
use my_chat::config::{parse_u64_str, parse_usize_str, Config};

#[test]
fn defaults() {
    let cfg = Config::default();
    assert_eq!(cfg.server_addr, "0.0.0.0:9000");
    assert_eq!(cfg.log_level, "info");
    assert_eq!(cfg.history_limit, 100);
    assert_eq!(cfg.room_ttl_secs, 300);
}

#[test]
fn env_override() {
    let cfg = Config::from_parts(
        Some("127.0.0.1:8080".into()),
        Some("debug".into()),
        Some("256".into()),
        Some("600".into()),
    );
    assert_eq!(cfg.server_addr, "127.0.0.1:8080");
    assert_eq!(cfg.log_level, "debug");
    assert_eq!(cfg.history_limit, 256);
    assert_eq!(cfg.room_ttl_secs, 600);
}

#[test]
fn unset_values_fall_back_to_defaults() {
    let cfg = Config::from_parts(None, None, None, None);
    assert_eq!(cfg.server_addr, "0.0.0.0:9000");
    assert_eq!(cfg.log_level, "info");
    assert_eq!(cfg.history_limit, 100);
    assert_eq!(cfg.room_ttl_secs, 300);
}

#[test]
fn unparsable_numbers_fall_back_to_defaults() {
    let cfg = Config::from_parts(None, None, Some("many".into()), Some("-3".into()));
    assert_eq!(cfg.history_limit, 100);
    assert_eq!(cfg.room_ttl_secs, 300);
}

#[test]
fn number_parsing_matches_the_standard_library() {
    let cases = [
        "", "+", "0", "7", "007", "+42", "4294967296", "18446744073709551615",
        "18446744073709551616", "99999999999999999999999", " 5", "5 ", "1.5", "-1", "0x10",
    ];
    for s in cases {
        assert_eq!(parse_u64_str(s), s.parse::<u64>().ok(), "u64 {s:?}");
        assert_eq!(parse_usize_str(s), s.parse::<usize>().ok(), "usize {s:?}");
    }
}
