use steam_core::model::SteamAccount;
use steam_core::settings::{Settings, SettingsStore};

#[test]
fn hiding_and_showing_installations_is_idempotent() {
    let mut settings = Settings::default();
    settings.hide_installation("/tmp/steam");
    settings.hide_installation("/tmp/steam");
    assert_eq!(settings.hidden_installations.len(), 1);
    assert!(settings.is_hidden("/tmp/steam"));

    settings.show("/tmp/steam");
    assert!(!settings.is_hidden("/tmp/steam"));
}

#[test]
fn custom_installations_are_never_hidden() {
    let mut settings = Settings::default();
    settings.add_custom("/tmp/custom-steam");
    assert!(settings.is_custom("/tmp/custom-steam"));
    assert!(!settings.is_hidden("/tmp/custom-steam"));

    settings.hide_installation("/tmp/custom-steam");
    settings.add_custom("/tmp/custom-steam");
    assert!(!settings.is_hidden("/tmp/custom-steam"));

    settings.remove_custom("/tmp/custom-steam");
    assert!(!settings.is_custom("/tmp/custom-steam"));
}

#[test]
fn defaults_show_everything() {
    let settings = Settings::default();
    assert!(settings.show_installation_selector);
    assert!(settings.show_machine_playtime);
    assert!(settings.hidden_installations.is_empty());
}

#[test]
fn folders_are_created_with_unique_ids() {
    let mut settings = Settings::default();
    let first = settings.create_folder("Main accounts");
    let second = settings.create_folder("Main accounts");
    assert_eq!(first, "main-accounts");
    assert_eq!(second, "main-accounts-2");
    assert_eq!(settings.folders.len(), 2);
}

#[test]
fn deleting_a_folder_returns_its_accounts_to_the_root() {
    let mut settings = Settings::default();
    let folder = settings.create_folder("Smurfs");
    settings.set_account_folder("76561198000000001", Some(&folder));
    assert_eq!(settings.account_folder("76561198000000001"), Some("smurfs"));

    settings.delete_folder(&folder);
    assert!(settings.folders.is_empty());
    assert!(settings.account_folder("76561198000000001").is_none());
}

#[test]
fn unknown_folders_and_unsafe_colours_are_rejected() {
    let mut settings = Settings::default();
    settings.set_account_folder("76561198000000001", Some("missing"));
    assert!(settings.account_folder("76561198000000001").is_none());

    settings.set_account_color("76561198000000001", Some("#8b5cf6"));
    assert_eq!(settings.account_color("76561198000000001"), Some("#8b5cf6"));

    settings.set_account_color("76561198000000001", Some("red; background:url(x)"));
    assert!(settings.account_color("76561198000000001").is_none());
}

#[test]
fn renaming_keeps_the_folder_id() {
    let mut settings = Settings::default();
    let folder = settings.create_folder("Smurfs");
    assert!(settings.rename_folder(&folder, "Secondaries"));
    assert_eq!(settings.folders[0].name, "Secondaries");
    assert_eq!(settings.folders[0].id, folder);
    assert!(!settings.rename_folder("missing", "nope"));
}

#[test]
fn folder_ids_are_slugs_of_the_name() {
    let mut settings = Settings::default();
    assert_eq!(settings.create_folder("  Ünïcode & Co  "), "n-code-co");
    assert_eq!(settings.create_folder("***"), "folder");
    assert_eq!(settings.create_folder("!!"), "folder-2");
    assert_eq!(settings.create_folder("A--B"), "a-b");
    assert_eq!(settings.folders[0].name, "Ünïcode & Co");
}

#[test]
fn a_third_folder_with_the_same_name_gets_the_next_number() {
    let mut settings = Settings::default();
    settings.create_folder("Team");
    settings.create_folder("Team");
    assert_eq!(settings.create_folder("Team"), "team-3");
}

#[test]
fn colours_must_be_short_or_long_hex() {
    let mut settings = Settings::default();
    for good in ["#abc", "#A1B2C3", "#a1b2c3d4"] {
        settings.set_account_color("id", Some(good));
        assert_eq!(settings.account_color("id"), Some(good));
    }
    for bad in ["abc", "#abcd", "#ggg", "#12345", ""] {
        settings.set_account_color("id", Some(bad));
        assert!(settings.account_color("id").is_none(), "{bad}");
    }
    settings.set_account_color("id", Some("#fff"));
    settings.set_account_color("id", None);
    assert!(settings.account_color("id").is_none());
}

#[test]
fn moving_an_account_back_to_the_root() {
    let mut settings = Settings::default();
    let folder = settings.create_folder("Main");
    settings.set_account_folder("1", Some(&folder));
    settings.set_account_folder("2", Some(&folder));
    settings.set_account_folder("1", None);
    assert!(settings.account_folder("1").is_none());
    assert_eq!(settings.account_folder("2"), Some("main"));
    assert_eq!(settings.account_folders.len(), 1);
}

#[test]
fn deleting_a_missing_folder_changes_nothing() {
    let mut settings = Settings::default();
    let folder = settings.create_folder("Keep");
    settings.set_account_folder("1", Some(&folder));
    assert!(!settings.delete_folder("missing"));
    assert_eq!(settings.account_folder("1"), Some("keep"));
    assert!(settings.delete_folder(&folder));
}

#[test]
fn hiding_one_installation_leaves_the_others() {
    let mut settings = Settings::default();
    settings.hide_installation("/a");
    settings.hide_installation("/b");
    settings.show("/a");
    assert!(!settings.is_hidden("/a"));
    assert!(settings.is_hidden("/b"));
}

#[test]
fn the_store_hands_out_its_settings() {
    let mut store = SettingsStore::new("/tmp/settings.json".to_string(), Settings::default());
    store.data_mut().show_machine_playtime = false;
    assert!(!store.data().show_machine_playtime);
    assert_eq!(store.path(), "/tmp/settings.json");
}

#[test]
fn roots_are_compared_as_paths() {
    let mut settings = Settings::default();
    settings.hide_installation("/tmp/steam");
    assert!(settings.is_hidden("/tmp/steam"));
    assert!(settings.is_hidden("/tmp/steam/"));
    assert!(settings.is_hidden("/tmp//steam"));
    assert!(!settings.is_hidden("/tmp/steam2"));

    settings.hide_installation("/tmp/steam/");
    assert_eq!(settings.hidden_installations.len(), 1);

    settings.hide_installation("/tmp/other");
    settings.show("/tmp/steam/");
    assert!(!settings.is_hidden("/tmp/steam"));
    assert_eq!(settings.hidden_installations, vec!["/tmp/other".to_string()]);

    settings.add_custom("/tmp/custom-steam");
    assert!(settings.is_custom("/tmp/custom-steam/"));
    assert!(!settings.is_custom("/tmp/other-steam"));
    settings.remove_custom("/tmp//custom-steam");
    assert!(!settings.is_custom("/tmp/custom-steam"));
}

#[test]
fn folder_ids_are_plain_whatever_the_name() {
    let mut settings = Settings::default();
    for name in ["  My  Games!! ", "---", "Équipe #1", "", "a--b"] {
        let id = settings.create_folder(name);
        assert!(!id.is_empty());
        assert!(id.chars().all(|c| c.is_ascii_alphanumeric() || c == '-'));
        assert!(!id.starts_with('-') && !id.ends_with('-') && !id.contains("--"));
    }
    assert_eq!(settings.folders[0].id, "my-games");
    assert_eq!(settings.folders[1].id, "folder");
}

#[test]
fn installation_edits_keep_the_display_preferences() {
    let mut settings = Settings::default();
    settings.show_machine_playtime = false;
    settings.hide_installation("/tmp/steam");
    settings.show("/tmp/steam");
    settings.add_custom("/tmp/custom");
    settings.remove_custom("/tmp/custom");
    assert!(settings.show_installation_selector);
    assert!(!settings.show_machine_playtime);
}

#[test]
fn folders_count_their_accounts() {
    let account = |id: &str| SteamAccount {
        steam_id: id.to_string(),
        account_name: id.to_string(),
        persona_name: String::new(),
        avatar_path: None,
        most_recent: false,
        remember_password: false,
        allow_auto_login: false,
        wants_offline_mode: false,
        skip_offline_mode_warning: false,
        timestamp: None,
    };
    let mut settings = Settings::default();
    let work = settings.create_folder("Work");
    let play = settings.create_folder("Play");
    settings.set_account_folder("1", Some(&work));
    settings.set_account_folder("2", Some(&work));
    settings.set_account_folder("3", Some(&play));
    let accounts = vec![account("1"), account("2"), account("3"), account("4")];
    assert_eq!(settings.accounts_in_folder(&accounts, &work), 2);
    assert_eq!(settings.accounts_in_folder(&accounts, &play), 1);
    assert_eq!(settings.accounts_in_folder(&accounts, "none"), 0);
}
