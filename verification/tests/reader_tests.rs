//! Tests for the incremental log reader: watermarks, the first-read edge
//! case, and idempotent re-polling.

use bpsim::event::BPActionType;
use bpsim::reader::BPDataParser;

fn lines(texts: &[&str]) -> Vec<Vec<u8>> {
    texts.iter().map(|t| t.as_bytes().to_vec()).collect()
}

#[test]
fn first_read_accepts_frame_zero() {
    let mut parser = BPDataParser::new("cmdlog.txt".to_string());
    let log = lines(&["0 VIBRATE Duration:1 Strength:1 Motor:0"]);
    let events = parser.get_new_events(&log, true);
    assert_eq!(events.len(), 1);
    assert_eq!(
        events[0].action,
        BPActionType::Vibrate { strength: 1_000_000, motor: 0 }
    );
    // the second poll over the unchanged log yields nothing
    let events = parser.get_new_events(&log, true);
    assert_eq!(events.len(), 0);
}

#[test]
fn repoll_of_unchanged_log_is_empty() {
    let mut parser = BPDataParser::new("cmdlog.txt".to_string());
    // newest line first, as the file is read from its end backward
    let log = lines(&[
        "2 VIBRATE Duration:1 Strength:0.5 Motor:0",
        "1 VIBRATE Duration:1 Strength:0.25 Motor:0",
    ]);
    let events = parser.get_new_events(&log, true);
    // chronological order despite backward discovery
    assert_eq!(events.len(), 2);
    assert_eq!(
        events[0].action,
        BPActionType::Vibrate { strength: 250_000, motor: 0 }
    );
    assert_eq!(
        events[1].action,
        BPActionType::Vibrate { strength: 500_000, motor: 0 }
    );
    let events = parser.get_new_events(&log, true);
    assert_eq!(events.len(), 0);
}

#[test]
fn only_the_appended_tail_is_returned() {
    let mut parser = BPDataParser::new("cmdlog.txt".to_string());
    let log = lines(&["5 VIBRATE Duration:1 Strength:0.5 Motor:0"]);
    assert_eq!(parser.get_new_events(&log, true).len(), 1);
    // two lines appended since: only they come back
    let log = lines(&[
        "9 VIBRATE Duration:1 Strength:0.9 Motor:0",
        "7 VIBRATE Duration:1 Strength:0.7 Motor:0",
        "5 VIBRATE Duration:1 Strength:0.5 Motor:0",
    ]);
    let events = parser.get_new_events(&log, true);
    assert_eq!(events.len(), 2);
    assert_eq!(
        events[0].action,
        BPActionType::Vibrate { strength: 700_000, motor: 0 }
    );
    assert_eq!(
        events[1].action,
        BPActionType::Vibrate { strength: 900_000, motor: 0 }
    );
}

#[test]
fn malformed_lines_are_skipped_but_advance_the_watermark() {
    let mut parser = BPDataParser::new("cmdlog.txt".to_string());
    let log = lines(&["3 NONSENSE", "not a command", ""]);
    // present but useless lines still count: no events, watermark at 3
    let events = parser.get_new_events(&log, true);
    assert_eq!(events.len(), 0);
    let events = parser.get_new_events(&log, true);
    assert_eq!(events.len(), 0);
}

#[test]
fn aborted_poll_keeps_the_state_unchanged() {
    let mut parser = BPDataParser::new("cmdlog.txt".to_string());
    let log = lines(&["1 VIBRATE Duration:1 Strength:0.5 Motor:0"]);
    // the read broke off before the file's start: events are returned but
    // the watermark stays, so the next clean poll sees them again
    let events = parser.get_new_events(&log, false);
    assert_eq!(events.len(), 1);
    let events = parser.get_new_events(&log, true);
    assert_eq!(events.len(), 1);
    let events = parser.get_new_events(&log, true);
    assert_eq!(events.len(), 0);
}

#[test]
fn reset_line_comes_through_as_a_stop_event() {
    let mut parser = BPDataParser::new("cmdlog.txt".to_string());
    let log = lines(&["150 RESET", "100 POWER Strength:1.0 Motor:-1"]);
    let events = parser.get_new_events(&log, true);
    assert_eq!(events.len(), 2);
    assert!(matches!(events[0].action, BPActionType::Vibrate { .. }));
    assert!(matches!(events[1].action, BPActionType::Stop));
    assert!(events[1].finished);
}

#[test]
fn file_path_is_kept() {
    let parser = BPDataParser::new("somewhere/cmdlog.txt".to_string());
    assert_eq!(parser.file_path(), "somewhere/cmdlog.txt");
}
