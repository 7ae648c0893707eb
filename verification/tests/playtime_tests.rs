use steam_core::model::SteamAccount;
use steam_core::playtime::{parse_gameprocess_line, session_labels, EventKind};
use steam_core::presentation::{account_label, end_reason_label, plural, Catalog};

const STAMP: &str = "2023-11-14 22:13:20";

fn start_line(stamp: &str, app_id: &str, pid: u32) -> String {
    format!(
        "[{}] AppID {} adding PID {} as a tracked process \"ENV_VAR=\"quoted value\" steam-launch-wrapper SteamLaunch AppId={} -- game\"",
        stamp, app_id, pid, app_id
    )
}

fn end_line(stamp: &str, app_id: &str, pid: u32) -> String {
    format!("[{}] AppID {} no longer tracking PID {}, exit code 0", stamp, app_id, pid)
}

#[test]
fn parser_accepts_commands_with_nested_quotes() {
    let event = parse_gameprocess_line(&start_line(STAMP, "570", 99)).expect("start event");
    assert_eq!(event.kind, EventKind::Start);
    assert_eq!(event.app_id, "570");
    assert_eq!(event.pid, Some(99));
    assert!(event.command.contains("SteamLaunch AppId=570"));

    let end = parse_gameprocess_line(&end_line("2023-11-14 22:15:00", "570", 99)).expect("end event");
    assert_eq!(end.kind, EventKind::End);
    assert_eq!(end.pid, Some(99));
    assert_eq!(end.exit_code, Some(0));

    let crash = parse_gameprocess_line(
        "[2026-01-10 12:00:00] AppID 570 no longer tracking PID 99, exit code 139",
    )
    .expect("crash event");
    assert_eq!(crash.exit_code, Some(139));

    let no_code =
        parse_gameprocess_line("[2026-01-10 12:00:00] AppID 570 no longer tracking PID 99")
            .expect("end event without a code");
    assert_eq!(no_code.exit_code, None);

    let remove = parse_gameprocess_line("[2026-01-10 12:00:00] Remove 570 from running list")
        .expect("remove event");
    assert_eq!(remove.kind, EventKind::Remove);

    assert!(parse_gameprocess_line("[2026-01-10 12:00:00] nothing to see").is_none());
}

#[test]
fn log_times_are_read_as_wall_clock_seconds() {
    let event = parse_gameprocess_line(&start_line(STAMP, "570", 99)).expect("start event");
    assert_eq!(event.clock_seconds, 1_700_000_000);
    assert!(parse_gameprocess_line("[2026-13-40 12:00:00] Remove 570 from running list").is_none());
    assert!(parse_gameprocess_line("2026-01-10 12:00:00 Remove 570 from running list").is_none());
    assert!(parse_gameprocess_line("[2026-01-10 12:00:00 Remove 570 from running list").is_none());
}

#[test]
fn malformed_events_are_ignored() {
    assert!(parse_gameprocess_line("[2026-01-10 12:00:00] AppID x adding PID 1").is_none());
    assert!(parse_gameprocess_line("[2026-01-10 12:00:00] AppID 570 adding PID x").is_none());
    assert!(parse_gameprocess_line("[2026-01-10 12:00:00] Remove 570 somewhere else").is_none());
    let huge = parse_gameprocess_line("[2026-01-10 12:00:00] AppID 570 adding PID 99999999999").expect("start");
    assert_eq!(huge.pid, None);
    assert_eq!(huge.command, "");
    let negative = parse_gameprocess_line("  [ 2026-01-10 12:00:00 ]   AppID 7 no longer tracking PID 3, exit code -11\r\n").expect("end");
    assert_eq!(negative.exit_code, Some(-11));
    assert_eq!(negative.app_id, "7");
}

fn account(steam_id: &str, name: &str, persona: &str) -> SteamAccount {
    SteamAccount {
        steam_id: steam_id.to_string(),
        account_name: name.to_string(),
        persona_name: persona.to_string(),
        avatar_path: None,
        most_recent: false,
        remember_password: false,
        allow_auto_login: false,
        wants_offline_mode: false,
        skip_offline_mode_warning: false,
        timestamp: None,
    }
}

#[test]
fn words_and_end_reasons() {
    assert_eq!(plural(1, "game"), "game");
    assert_eq!(plural(2, "game"), "games");
    assert_eq!(plural(0, "session"), "sessions");
    assert_eq!(end_reason_label("steam_running_list"), "Steam stopped game");
    assert_eq!(end_reason_label("replaced_by_new_launch"), "New launch detected");
    assert_eq!(end_reason_label(""), "Unknown");
    assert_eq!(end_reason_label("unknown"), "Unknown");
    assert_eq!(end_reason_label("user_closed_it"), "User closed it");
    assert_eq!(end_reason_label("élan_vital"), "élan vital");
}

#[test]
fn the_catalog_names_accounts() {
    let catalog = Catalog {
        accounts: vec![account("1", "login", "Persona"), account("2", "other", "")],
        masked: false,
    };
    assert_eq!(catalog.display_name("1", "x", "y"), "Persona");
    assert_eq!(catalog.display_name("2", "x", "y"), "other");
    assert_eq!(catalog.display_name("9", "fallback", ""), "fallback");
    assert_eq!(catalog.display_name("9", "", ""), "9");
    assert_eq!(catalog.initial("1", "", ""), "P");
    assert_eq!(catalog.initial("9", "zed", ""), "Z");
    assert_eq!(catalog.initial("9", "", ""), "?");
    assert_eq!(catalog.account_name("2"), "other");
    assert_eq!(catalog.account_name("9"), "");
    assert!(catalog.account("1").is_some());
}

#[test]
fn tray_labels_hide_login_names_when_masked() {
    let both = account("1", "login", "Persona");
    let same = account("2", "login", "login");
    assert_eq!(account_label(&both, 3, true), "Persona");
    assert_eq!(account_label(&same, 3, true), "Account 3");
    assert_eq!(account_label(&both, 3, false), "Persona (login)");
    assert_eq!(account_label(&same, 3, false), "login");
}

#[test]
fn session_rows_fill_in_missing_labels() {
    assert_eq!(session_labels("", "", false), ("partial".to_string(), "unknown".to_string()));
    assert_eq!(session_labels("full", "process_exit", false), ("full".to_string(), "process_exit".to_string()));
    assert_eq!(session_labels("full", "process_exit", true), ("full".to_string(), String::new()));
}
