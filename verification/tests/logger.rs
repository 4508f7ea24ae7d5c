//! Log levels.

use confluence2md::logger::{parse_log_level, LogLevel};

#[test]
fn parse_log_level_accepts_known_levels() {
    assert_eq!(parse_log_level("DEBUG").unwrap(), LogLevel::Debug);
    assert_eq!(parse_log_level("info").unwrap(), LogLevel::Info);
    assert_eq!(parse_log_level("Warning").unwrap(), LogLevel::Warning);
    assert_eq!(parse_log_level("ERROR").unwrap(), LogLevel::Error);
}

#[test]
fn parse_log_level_rejects_unknown() {
    assert!(parse_log_level("TRACE").is_err());
}

#[test]
fn ordering_matches_severity() {
    assert!(LogLevel::Debug < LogLevel::Info);
    assert!(LogLevel::Info < LogLevel::Warning);
    assert!(LogLevel::Warning < LogLevel::Error);
}
