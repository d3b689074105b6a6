use qmkonnect::errors::ErrorContext;
use qmkonnect::notifier::{info_is_capable, sweep_deadline_passed, CommandResponse};
use qmkonnect::pattern::{pattern_match, process_escapes};

#[test]
fn processed_pattern_has_no_nul_and_stops_at_nul() {
    let o = process_escapes("a\\d+\0\\b*");
    assert!(!o.contains(&0u8));
    assert_eq!(o, process_escapes("a\\d+"));
    assert!(o.len() <= "a\\d+\0\\b*".len());
}

#[test]
fn plain_text_is_unchanged_by_escape_processing() {
    assert_eq!(process_escapes("Hello World 42"), b"Hello World 42".to_vec());
}

#[test]
fn insensitive_match_ignores_ascii_case_of_the_string() {
    for (p, s) in [("*Fire*", "FireFox"), ("^a\\w+z$", "AbcZ"), ("\\bDocs", "my docs"), ("x", "Y")] {
        let r = pattern_match(p, s, false);
        assert_eq!(r, pattern_match(p, &s.to_ascii_lowercase(), false));
        assert_eq!(r, pattern_match(p, &s.to_ascii_uppercase(), false));
        if pattern_match(p, s, true) {
            assert!(r);
        }
    }
}

#[test]
fn timestamp_is_seconds_since_epoch_or_nothing() {
    let after = std::time::UNIX_EPOCH + std::time::Duration::from_millis(5_900);
    assert_eq!(ErrorContext::new().timestamp(after).get("timestamp"), Some("5"));
    let before = std::time::UNIX_EPOCH - std::time::Duration::from_secs(1);
    assert!(!ErrorContext::new().timestamp(before).contains_key("timestamp"));
}

#[test]
fn capability_and_sweep_budget_helpers() {
    let capable = Ok(CommandResponse::Info {
        proto_ver: 2,
        feature_flags: 0x01,
        callback_count: 70,
        board_rules_present: false,
    });
    assert!(info_is_capable(&capable));
    let no_bit = Ok(CommandResponse::Info {
        proto_ver: 2,
        feature_flags: 0x02,
        callback_count: 70,
        board_rules_present: false,
    });
    assert!(!info_is_capable(&no_bit));
    assert!(!info_is_capable(&Err("x".to_string())));
    assert!(!sweep_deadline_passed(5000));
    assert!(sweep_deadline_passed(5001));
}
