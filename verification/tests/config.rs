use dwm_monitor::config::load_threshold;
use dwm_monitor::config::render_threshold;
use dwm_monitor::config::ConfigError;
use dwm_monitor::config::DEFAULT_MEMORY_THRESHOLD;

#[test]
fn test_get_memory_threshold() {
    // starting without a file, the default is rendered and used
    let created = render_threshold(DEFAULT_MEMORY_THRESHOLD);
    assert_eq!(load_threshold(&created), Ok(DEFAULT_MEMORY_THRESHOLD));
    // after the file is replaced, the new value is loaded
    let threshold = load_threshold(b"memory_threshold = 1048576001");
    assert_eq!(threshold, Ok(1048576001));
}

#[test]
fn default_renders_as_expected() {
    assert_eq!(DEFAULT_MEMORY_THRESHOLD, 1_048_576_000);
    assert_eq!(
        render_threshold(DEFAULT_MEMORY_THRESHOLD),
        b"memory_threshold = 1048576000".to_vec()
    );
}

#[test]
fn round_trip_returns_what_was_written() {
    for v in [0u64, 1, 9, 10, 42, 1_048_576_000, u64::MAX] {
        let text = render_threshold(v);
        assert_eq!(load_threshold(&text), Ok(v));
    }
}

#[test]
fn reloading_unmodified_text_gives_the_same_value() {
    let text = b"memory_threshold = 123456789";
    let first = load_threshold(text);
    let second = load_threshold(text);
    assert_eq!(first, Ok(123456789));
    assert_eq!(first, second);
}

#[test]
fn non_numeric_value_is_a_fatal_error_not_a_default() {
    let r = load_threshold(b"memory_threshold = abc");
    assert_eq!(r, Err(ConfigError::BadValue));
    assert_ne!(r, Ok(DEFAULT_MEMORY_THRESHOLD));
    assert_eq!(load_threshold(b"memory_threshold = 12.5"), Err(ConfigError::BadValue));
    assert_eq!(load_threshold(b"memory_threshold = -1"), Err(ConfigError::BadValue));
    assert_eq!(load_threshold(b"memory_threshold = "), Err(ConfigError::BadValue));
}

#[test]
fn value_too_large_for_u64_is_a_bad_value() {
    assert_eq!(
        load_threshold(b"memory_threshold = 18446744073709551616"),
        Err(ConfigError::BadValue)
    );
    assert_eq!(
        load_threshold(b"memory_threshold = 18446744073709551615"),
        Ok(u64::MAX)
    );
}

#[test]
fn missing_key_is_reported() {
    assert_eq!(load_threshold(b""), Err(ConfigError::Missing));
    assert_eq!(load_threshold(b"other_key = 5"), Err(ConfigError::Missing));
    // spaces inside the key are removed, so this key is not the threshold
    assert_eq!(load_threshold(b"memory threshold = 5"), Err(ConfigError::Missing));
}

#[test]
fn malformed_line_makes_the_file_invalid() {
    assert_eq!(load_threshold(b"nonsense line"), Err(ConfigError::Invalid));
    assert_eq!(load_threshold(b"a = b = c"), Err(ConfigError::Invalid));
    assert_eq!(
        load_threshold(b"memory_threshold = 5\nbroken"),
        Err(ConfigError::Invalid)
    );
}

#[test]
fn comments_sections_and_case_are_tolerated() {
    let text = b"# a comment\n; another\n[section]\n  Memory_Threshold = 42 ; trailing note\n";
    assert_eq!(load_threshold(text), Ok(42));
}

#[test]
fn last_entry_wins() {
    let text = b"memory_threshold = 1\nmemory_threshold = 2";
    assert_eq!(load_threshold(text), Ok(2));
}

#[test]
fn leading_plus_and_padding_are_accepted() {
    assert_eq!(load_threshold(b"  memory_threshold   =   +5  "), Ok(5));
}
