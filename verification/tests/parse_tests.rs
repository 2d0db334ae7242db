//! Tests for the byte-level parsers and the command grammar.

use bpsim::bytes::{parse_fixed, parse_u64};
use bpsim::command::BPCommand;
use bpsim::event::BPActionType;

#[test]
fn parse_u64_plain_and_signed() {
    assert_eq!(parse_u64(b"0"), Some(0));
    assert_eq!(parse_u64(b"42"), Some(42));
    assert_eq!(parse_u64(b"+7"), Some(7));
    assert_eq!(parse_u64(b""), None);
    assert_eq!(parse_u64(b"+"), None);
    assert_eq!(parse_u64(b"4a"), None);
    assert_eq!(parse_u64(b"-1"), None);
}

#[test]
fn parse_u64_at_the_limit() {
    assert_eq!(parse_u64(b"18446744073709551615"), Some(u64::MAX));
    assert_eq!(parse_u64(b"18446744073709551616"), None);
}

#[test]
fn parse_fixed_integers_and_decimals() {
    assert_eq!(parse_fixed(b"1"), Some(1_000_000));
    assert_eq!(parse_fixed(b"0.5"), Some(500_000));
    assert_eq!(parse_fixed(b"-1.25"), Some(-1_250_000));
    assert_eq!(parse_fixed(b"+0.25"), Some(250_000));
    assert_eq!(parse_fixed(b".5"), Some(500_000));
    assert_eq!(parse_fixed(b"5."), Some(5_000_000));
    assert_eq!(parse_fixed(b"-0"), Some(0));
}

#[test]
fn parse_fixed_cuts_fraction_past_the_sixth_digit() {
    assert_eq!(parse_fixed(b"1.2345678"), Some(1_234_567));
    assert_eq!(parse_fixed(b"0.0000001"), Some(0));
}

#[test]
fn parse_fixed_rejects_what_the_grammar_excludes() {
    assert_eq!(parse_fixed(b""), None);
    assert_eq!(parse_fixed(b"-"), None);
    assert_eq!(parse_fixed(b"."), None);
    assert_eq!(parse_fixed(b"-."), None);
    assert_eq!(parse_fixed(b"1e5"), None);
    assert_eq!(parse_fixed(b"inf"), None);
    assert_eq!(parse_fixed(b"1.2.3"), None);
    assert_eq!(parse_fixed(b"12a"), None);
}

#[test]
fn empty_and_newline_lines_are_silent() {
    assert!(BPCommand::new(b"").is_none());
    assert!(BPCommand::new(b"\n").is_none());
}

#[test]
fn missing_frame_or_name_fails() {
    assert!(BPCommand::new(b"abc VIBRATE Duration:1").is_none());
    assert!(BPCommand::new(b"42").is_none());
}

#[test]
fn vibrate_line_becomes_an_event() {
    let cmd = BPCommand::new(b"42 VIBRATE Duration:0.5 Strength:0.8 Motor:0").unwrap();
    assert_eq!(cmd.game_frame(), 42);
    let ev = cmd.to_event().unwrap();
    assert!(!ev.finished);
    assert_eq!(ev.time_remaining_us, 500_000);
    assert_eq!(
        ev.action,
        BPActionType::Vibrate { strength: 800_000, motor: 0 }
    );
}

#[test]
fn power_line_uses_the_fixed_lifetime() {
    let cmd = BPCommand::new(b"100 POWER Strength:1.0 Motor:-1").unwrap();
    let ev = cmd.to_event().unwrap();
    assert!(!ev.finished);
    assert_eq!(ev.time_remaining_us, 300_000_000);
    assert_eq!(
        ev.action,
        BPActionType::Vibrate { strength: 1_000_000, motor: -1 }
    );
}

#[test]
fn power_ignores_any_duration_argument() {
    let cmd = BPCommand::new(b"100 POWER Strength:0.5 Motor:0 Duration:2").unwrap();
    let ev = cmd.to_event().unwrap();
    assert_eq!(ev.time_remaining_us, 300_000_000);
}

#[test]
fn reset_line_becomes_the_stop_event() {
    let cmd = BPCommand::new(b"150 RESET").unwrap();
    let ev = cmd.to_event().unwrap();
    assert!(ev.finished);
    assert_eq!(ev.time_remaining_us, 0);
    assert!(matches!(ev.action, BPActionType::Stop));
}

#[test]
fn unknown_command_yields_no_event() {
    let cmd = BPCommand::new(b"7 STROKE Duration:1").unwrap();
    assert!(cmd.to_event().is_none());
}

#[test]
fn malformed_argument_is_skipped_but_line_still_parses() {
    // the broken Strength argument is dropped, so VIBRATE lacks it
    let cmd = BPCommand::new(b"7 VIBRATE Duration:1 Strength:oops Motor:0").unwrap();
    assert!(cmd.to_event().is_none());
    // an argument with no value is skipped the same way
    let cmd = BPCommand::new(b"7 VIBRATE junk Duration:1 Strength:0.25 Motor:1").unwrap();
    let ev = cmd.to_event().unwrap();
    assert_eq!(
        ev.action,
        BPActionType::Vibrate { strength: 250_000, motor: 1 }
    );
}

#[test]
fn negative_duration_is_rejected() {
    let cmd = BPCommand::new(b"7 VIBRATE Duration:-1 Strength:1 Motor:0").unwrap();
    assert!(cmd.to_event().is_none());
}

#[test]
fn repeated_argument_keeps_the_latest_value() {
    let cmd = BPCommand::new(b"7 VIBRATE Duration:1 Strength:0.1 Strength:0.9 Motor:0").unwrap();
    let ev = cmd.to_event().unwrap();
    assert_eq!(
        ev.action,
        BPActionType::Vibrate { strength: 900_000, motor: 0 }
    );
}

#[test]
fn motor_index_truncates_and_saturates() {
    let cmd = BPCommand::new(b"7 VIBRATE Duration:1 Strength:1 Motor:1.9").unwrap();
    let ev = cmd.to_event().unwrap();
    assert_eq!(ev.action, BPActionType::Vibrate { strength: 1_000_000, motor: 1 });
    let cmd = BPCommand::new(b"7 VIBRATE Duration:1 Strength:1 Motor:-1.9").unwrap();
    let ev = cmd.to_event().unwrap();
    assert_eq!(ev.action, BPActionType::Vibrate { strength: 1_000_000, motor: -1 });
    let cmd = BPCommand::new(b"7 VIBRATE Duration:1 Strength:1 Motor:500").unwrap();
    let ev = cmd.to_event().unwrap();
    assert_eq!(ev.action, BPActionType::Vibrate { strength: 1_000_000, motor: 127 });
}
