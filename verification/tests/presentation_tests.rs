use steam_core::accounts::SwitchOutcome;
use steam_core::model::SteamAccount;
use steam_core::presentation::{
    coverage_label, machine_summary, notice_line, playtime_tooltip, report_summary, reported_account_name, session_display_name,
    session_end_text, session_tooltip, statistics_line, status_text, switch_message,
};

fn account(steam_id: &str, account_name: &str, persona_name: &str) -> SteamAccount {
    SteamAccount {
        steam_id: steam_id.to_string(),
        account_name: account_name.to_string(),
        persona_name: persona_name.to_string(),
        avatar_path: None,
        most_recent: false,
        remember_password: false,
        allow_auto_login: false,
        wants_offline_mode: false,
        skip_offline_mode_warning: false,
        timestamp: None,
    }
}

#[test]
fn switches_are_reported_under_the_display_name() {
    let accounts = vec![account("1", "alice", "Alice A."), account("2", "bob", "")];
    assert_eq!(reported_account_name(&accounts, "1", "alice"), "Alice A.");
    assert_eq!(reported_account_name(&accounts, "9", "BOB"), "bob");
    assert_eq!(reported_account_name(&accounts, "9", "carol"), "carol");
}

#[test]
fn switch_messages_tell_what_happened() {
    let name = "alice".to_string();
    assert_eq!(
        switch_message(&SwitchOutcome::AlreadyActive { account_name: name.clone() }, "Alice"),
        "Alice is already the active Steam account."
    );
    assert_eq!(switch_message(&SwitchOutcome::Started { account_name: name.clone() }, "Alice"), "Steam started on Alice.");
    assert_eq!(switch_message(&SwitchOutcome::Switched { account_name: name }, "Alice"), "Switched to Alice.");
}

#[test]
fn session_rows_explain_how_they_ended() {
    assert_eq!(session_end_text(true, "process_exit", Some(3)), "Running");
    assert_eq!(session_end_text(false, "process_exit", None), "Process exited");
    assert_eq!(
        session_end_text(false, "root_process_exit_log", Some(139)),
        "Root process exited (code 139)"
    );
    assert_eq!(session_end_text(false, "crash_report", Some(-1)), "Crash report (code -1)");
    assert_eq!(session_end_text(false, "", None), "Unknown");
}

#[test]
fn coverage_is_full_only_for_full_tracking() {
    assert_eq!(coverage_label("full"), "Full");
    assert_eq!(coverage_label("partial"), "Partial");
    assert_eq!(coverage_label(""), "Partial");
}

#[test]
fn session_names_fall_back_to_login_then_id() {
    assert_eq!(session_display_name("Persona", "login", "7656"), "Persona");
    assert_eq!(session_display_name("", "login", "7656"), "login");
    assert_eq!(session_display_name("", "", "7656"), "7656");
}

#[test]
fn status_counts_accounts_unless_a_message_waits() {
    assert_eq!(status_text(0, ""), "0 accounts");
    assert_eq!(status_text(1, ""), "1 account");
    assert_eq!(status_text(12, ""), "12 accounts");
    assert_eq!(status_text(12, "Switched to alice."), "Switched to alice.");
}

#[test]
fn playtime_tooltip_counts_sessions() {
    assert_eq!(playtime_tooltip("0m", 0), "No local session detected yet.");
    assert_eq!(
        playtime_tooltip("2h 05m", 3),
        "2h 05m in 3 session(s). Open the card details for the per-game breakdown."
    );
}

#[test]
fn report_summary_uses_singular_and_plural() {
    assert_eq!(report_summary("1h 00m", 1, 1), "Total: 1h 00m  |  1 game  |  1 session");
    assert_eq!(report_summary("3h 10m", 2, 7), "Total: 3h 10m  |  2 games  |  7 sessions");
    assert_eq!(report_summary("0m", 0, 0), "Total: 0m  |  0 games  |  0 sessions");
}

#[test]
fn report_lines_are_assembled_from_their_parts() {
    assert_eq!(
        statistics_line("2026-01-10 12:00", 4, "1h 05m", "2h"),
        "Since: 2026-01-10 12:00  |  Detailed sessions: 4  |  Average: 1h 05m  |  Longest: 2h"
    );
    assert_eq!(notice_line("2026-01-10 12:00", None), "Detailed history starts 2026-01-10 12:00.");
    assert_eq!(
        notice_line("2026-01-10 12:00", Some("3h")),
        "Detailed history starts 2026-01-10 12:00. An earlier 3h aggregate remains in the totals without invented dates."
    );
}

#[test]
fn session_tooltips_hide_masked_accounts_and_missing_facts() {
    let shown = session_tooltip("abc", "alice", false, "L", "S", Some(4242), Some("C"), "full", "process_exit");
    assert_eq!(
        shown,
        "Session ID: abc\nAccount: alice\nSteam launch detected: L\nPlaytime counted from: S\nRoot PID: 4242\nProcess created: C\nCoverage: Full\nEnd reason: Process exited"
    );
    let hidden = session_tooltip("abc", "alice", true, "L", "S", None, None, "partial", "");
    assert_eq!(
        hidden,
        "Session ID: abc\nAccount: hidden\nSteam launch detected: L\nPlaytime counted from: S\nRoot PID: Unavailable\nProcess created: Unavailable\nCoverage: Partial\nEnd reason: Unknown"
    );
}

#[test]
fn machine_summary_counts_games_and_accounts() {
    assert_eq!(machine_summary("5h", 1, 1), "Total: 5h  |  1 game  |  1 account");
    assert_eq!(machine_summary("5h", 3, 2), "Total: 5h  |  3 games  |  2 accounts");
}
