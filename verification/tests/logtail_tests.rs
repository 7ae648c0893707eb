use steam_core::logtail::{running_candidates, split_lines, tail_start, tail_step, LogSource, TailStart};
use steam_core::playtime::EventKind;

fn stored(device: Option<u64>, inode: Option<u64>, offset: Option<u64>) -> LogSource {
    LogSource { device, inode, offset }
}

#[test]
fn reading_resumes_where_the_same_file_was_left() {
    let start = tail_start(&stored(Some(7), Some(42), Some(120)), 7, 42, 500);
    assert!(start.same_file);
    assert_eq!(start.offset, 120);
}

#[test]
fn a_truncated_or_replaced_log_is_read_from_its_start() {
    let shorter = tail_start(&stored(Some(7), Some(42), Some(900)), 7, 42, 500);
    assert!(shorter.same_file);
    assert_eq!(shorter.offset, 0);

    let rotated = tail_start(&stored(Some(7), Some(42), Some(120)), 7, 43, 500);
    assert!(!rotated.same_file);
    assert_eq!(rotated.offset, 0);

    let unknown = tail_start(&stored(None, None, Some(120)), 7, 42, 500);
    assert!(!unknown.same_file);
    assert_eq!(unknown.offset, 0);

    let no_offset = tail_start(&stored(Some(7), Some(42), None), 7, 42, 500);
    assert!(no_offset.same_file);
    assert_eq!(no_offset.offset, 0);
}

#[test]
fn only_complete_lines_move_the_position() {
    let start = TailStart { offset: 100, same_file: true };
    let step = tail_step(Some(100), start, b"first\nsecond\npart");
    assert_eq!(step.consumed, 13);
    assert_eq!(step.stored_offset, Some(113));
    assert!(step.changed);

    let waiting = tail_step(Some(100), start, b"no line feed yet");
    assert_eq!(waiting.consumed, 0);
    assert_eq!(waiting.stored_offset, None);
    assert!(!waiting.changed);

    let other_file = TailStart { offset: 0, same_file: false };
    let fresh = tail_step(Some(100), other_file, b"partial");
    assert_eq!(fresh.consumed, 0);
    assert_eq!(fresh.stored_offset, Some(0));
    assert!(fresh.changed);

    let nothing = tail_step(Some(100), start, b"");
    assert_eq!(nothing.consumed, 0);
    assert!(!nothing.changed);
}

#[test]
fn a_read_ending_at_the_stored_position_changes_nothing() {
    let start = TailStart { offset: 0, same_file: true };
    let step = tail_step(Some(4), start, b"abc\n");
    assert_eq!(step.stored_offset, Some(4));
    assert!(!step.changed);
}

#[test]
fn lines_are_split_and_blank_ones_dropped() {
    let (lines, pending) = split_lines("par", "tial\nnext\n\n");
    assert_eq!(lines, vec!["partial".to_string(), "next".to_string()]);
    assert_eq!(pending, "");

    let (lines, pending) = split_lines("", "one\ntwo");
    assert_eq!(lines, vec!["one".to_string()]);
    assert_eq!(pending, "two");

    let (lines, pending) = split_lines("", "");
    assert!(lines.is_empty());
    assert_eq!(pending, "");
}

fn start_line(app_id: &str, pid: u32) -> String {
    format!("[2026-01-10 12:00:00] AppID {app_id} adding PID {pid} as a tracked process \"game\"")
}

fn end_line(app_id: &str, pid: u32) -> String {
    format!("[2026-01-10 12:30:00] AppID {app_id} no longer tracking PID {pid}, exit code 0")
}

#[test]
fn running_games_are_found_in_the_tail_of_the_log() {
    let data = [
        start_line("570", 10),
        start_line("730", 20),
        end_line("570", 10),
        start_line("440", 30),
        String::new(),
    ]
    .join("\n");
    let found = running_candidates(&data, false);
    let ids: Vec<&str> = found.iter().map(|event| event.app_id.as_str()).collect();
    assert_eq!(ids, vec!["730", "440"]);
    assert!(found.iter().all(|event| event.kind == EventKind::Start));
}

#[test]
fn an_end_of_another_process_keeps_the_game() {
    let data = [start_line("570", 10), end_line("570", 11)].join("\n");
    let found = running_candidates(&data, false);
    assert_eq!(found.len(), 1);
    assert_eq!(found[0].pid, Some(10));
}

#[test]
fn a_relaunch_replaces_the_earlier_start() {
    let data = [start_line("570", 10), start_line("570", 12)].join("\n");
    let found = running_candidates(&data, false);
    assert_eq!(found.len(), 1);
    assert_eq!(found[0].pid, Some(12));
}

#[test]
fn removal_and_client_restart_forget_games() {
    let removed = [
        start_line("570", 10),
        "[2026-01-10 12:40:00] Remove 570 from running list".to_string(),
    ]
    .join("\n");
    assert!(running_candidates(&removed, false).is_empty());

    let restarted = [
        start_line("570", 10),
        "[2026-01-10 12:41:00] Client version: 1736000000".to_string(),
        start_line("730", 20),
    ]
    .join("\n");
    let found = running_candidates(&restarted, false);
    assert_eq!(found.len(), 1);
    assert_eq!(found[0].app_id, "730");
}

#[test]
fn a_tail_cut_inside_a_line_skips_that_line() {
    let data = [start_line("570", 10), start_line("730", 20)].join("\n");
    let found = running_candidates(&data, true);
    assert_eq!(found.len(), 1);
    assert_eq!(found[0].app_id, "730");
}
