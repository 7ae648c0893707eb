use steam_core::error::SteamError;
use steam_core::model::{expand_home, join_path, parse_timestamp, parse_vdf_bool, InstallKind, SteamInstallation};
use steam_core::processes::{is_steam_process, steam_process_names};
use steam_core::util::{format_playtime, relative_time, relative_time_at};

fn installation(kind: InstallKind, root: &str) -> SteamInstallation {
    SteamInstallation {
        kind,
        root: root.to_string(),
        config_dir: format!("{root}/config"),
        loginusers_path: format!("{root}/config/loginusers.vdf"),
        registry_path: format!("{root}/registry.vdf"),
        userdata_dir: format!("{root}/userdata"),
        launch_command: vec!["flatpak".to_string()],
        prefix: None,
    }
}

#[test]
fn installation_label_contains_kind_and_root() {
    let installation = SteamInstallation {
        kind: InstallKind::Flatpak,
        root: "/tmp/steam".to_string(),
        config_dir: "/tmp/steam/config".to_string(),
        loginusers_path: "/tmp/steam/config/loginusers.vdf".to_string(),
        registry_path: "/tmp/steam/registry.vdf".to_string(),
        userdata_dir: "/tmp/steam/userdata".to_string(),
        launch_command: vec!["flatpak".to_string()],
        prefix: None,
    };
    assert_eq!(installation.label(), "flatpak: /tmp/steam");
}

#[test]
fn installation_files_sit_in_its_folders() {
    let installation = installation(InstallKind::Native, "/home/me/.steam/steam");
    assert_eq!(installation.playtime_state_path(), "/home/me/.steam/steam/config/steam-account-switcher-playtime.json");
    assert_eq!(installation.metadata_path(), "/home/me/.steam/steam/config/steam-account-switcher-metadata.json");
    assert_eq!(installation.gameprocess_log_path(), "/home/me/.steam/steam/logs/gameprocess_log.txt");
    assert_eq!(InstallKind::Snap.as_str(), "snap");
    assert_eq!(InstallKind::Windows.as_str(), "windows");
}

#[test]
fn paths_join_like_unix_paths() {
    assert_eq!(join_path("/a", "b"), "/a/b");
    assert_eq!(join_path("/a/", "b"), "/a/b");
    assert_eq!(join_path("", "b"), "b");
    assert_eq!(join_path("/a", "/b"), "/b");
    assert_eq!(join_path("/a", ""), "/a/");
    let std_joined = std::path::Path::new("/x/y").join("z/w");
    assert_eq!(join_path("/x/y", "z/w"), std_joined.to_string_lossy());
}

#[test]
fn timestamps_are_positive_integers() {
    assert_eq!(parse_timestamp(" 1700000000 "), Some(1_700_000_000));
    assert_eq!(parse_timestamp("+5"), Some(5));
    assert_eq!(parse_timestamp("0"), None);
    assert_eq!(parse_timestamp("-3"), None);
    assert_eq!(parse_timestamp("12a"), None);
    assert_eq!(parse_timestamp(""), None);
    assert_eq!(parse_timestamp("9223372036854775807"), Some(i64::MAX));
    assert_eq!(parse_timestamp("9223372036854775808"), None);
}

#[test]
fn flags_read_one_true_and_yes() {
    for yes in ["1", "true", " TRUE ", "Yes"] {
        assert!(parse_vdf_bool(yes), "{yes}");
    }
    for no in ["0", "false", "", "2", "y"] {
        assert!(!parse_vdf_bool(no), "{no}");
    }
}

#[test]
fn home_is_expanded_only_before_a_slash() {
    assert_eq!(expand_home("~/Steam", Some("/home/me")), "/home/me/Steam");
    assert_eq!(expand_home("~Steam", Some("/home/me")), "~Steam");
    assert_eq!(expand_home("~/Steam", None), "~/Steam");
    assert_eq!(expand_home("/opt/Steam", Some("/home/me")), "/opt/Steam");
}

#[test]
fn recognises_steam_processes_on_this_platform() {
    for name in steam_process_names() {
        assert!(is_steam_process(name), "{name} should be recognised");
    }
    assert!(is_steam_process("steam.exe"));
    assert!(!is_steam_process("firefox"));
    assert!(!is_steam_process("steam-account-switcher"));
}

#[test]
fn background_services_do_not_keep_the_client_running() {
    // Services and crash reporters can outlive the client. Waiting for
    // them to exit can prevent a switch or try to kill a privileged service.
    assert!(!is_steam_process("steamservice.exe"));
    assert!(!is_steam_process("steamerrorreporter.exe"));
}

#[test]
fn process_names_ignore_ascii_case() {
    assert!(is_steam_process("SteamWebHelper"));
    assert!(is_steam_process("STEAM.SH"));
    assert!(is_steam_process("steamwebhelper.exe"));
}

#[test]
fn formats_compact_durations() {
    assert_eq!(format_playtime(0), "0m");
    assert_eq!(format_playtime(59), "<1m");
    assert_eq!(format_playtime(60), "1m");
    assert_eq!(format_playtime(3600), "1h");
    assert_eq!(format_playtime(3600 + 20 * 60), "1h 20m");
    assert_eq!(format_playtime(-5), "0m");
}

#[test]
fn relative_times_name_two_units_at_most() {
    assert_eq!(relative_time_at(None, 100), "");
    assert_eq!(relative_time_at(Some(100), 100), "just now");
    assert_eq!(relative_time_at(Some(200), 100), "just now");
    assert_eq!(relative_time_at(Some(0), 1), "1 second ago");
    assert_eq!(relative_time_at(Some(0), 3 * 86_400 + 4 * 3_600 + 5), "3 days, 4 hours ago");
    assert_eq!(relative_time_at(Some(0), 31_536_000 + 60), "1 year, 1 minute ago");
    assert_eq!(relative_time_at(Some(0), 2 * 2_592_000), "2 months ago");
}

#[test]
fn relative_time_reads_the_clock() {
    assert_eq!(relative_time(None), "");
    assert!(relative_time(Some(1)).ends_with(" ago"));
}

#[test]
fn errors_read_as_their_message() {
    assert_eq!(SteamError::config("bad".to_string()).to_string(), "bad");
    assert_eq!(SteamError::NotFound("gone".to_string()).to_string(), "gone");
    let vdf = SteamError::Vdf { path: "/x.vdf".to_string(), message: "broken".to_string() };
    assert_eq!(vdf.to_string(), "Unable to parse /x.vdf: broken");
    let io = SteamError::io("Unable to read /x".to_string(), std::io::Error::new(std::io::ErrorKind::Other, "boom"));
    assert_eq!(io.to_string(), "Unable to read /x: boom");
}

#[test]
fn relative_times_accept_any_timestamp() {
    assert_eq!(relative_time_at(Some(i64::MIN), i64::MAX).is_empty(), false);
    assert_eq!(relative_time_at(Some(-60), 0), "1 minute ago");
    assert_eq!(relative_time_at(Some(100), 40), "just now");
}
