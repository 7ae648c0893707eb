use steam_core::games::{display_name_for, library_roots, manifest_name};
use steam_core::model::{InstallKind, SteamInstallation};
use steam_core::pathdetect::{
    candidate_roots, choose_launch_command, classify_custom_path, classify_steam_folder, command_candidates,
    custom_kind, custom_layout, custom_subpaths, installation_score, linux_candidates, looks_installed,
    pick_custom_root, pick_registry, rank_candidates, registry_options, Candidate, FolderFacts, InstallationFacts,
    SteamFolder,
};
use steam_core::state::{choose_installations, Keyed};
use steam_core::vdf::parse;

fn folder(is_dir: bool, login_history: bool, steamapps_dir: bool) -> FolderFacts {
    FolderFacts {
        is_dir,
        login_history,
        registry_file: false,
        steamapps_dir,
        userdata_dir: false,
        steam_exe: false,
        steam_sh: false,
    }
}

fn installation(kind: InstallKind, root: &str) -> SteamInstallation {
    SteamInstallation {
        kind,
        root: root.to_string(),
        config_dir: format!("{root}/config"),
        loginusers_path: format!("{root}/config/loginusers.vdf"),
        registry_path: format!("{root}/registry.vdf"),
        userdata_dir: format!("{root}/userdata"),
        launch_command: vec!["steam".to_string()],
        prefix: None,
    }
}

#[test]
fn folders_are_classified_by_their_markers() {
    assert_eq!(classify_steam_folder(&folder(false, true, true)), SteamFolder::NotADirectory);
    assert_eq!(classify_steam_folder(&folder(true, true, false)), SteamFolder::Usable);
    assert_eq!(classify_steam_folder(&folder(true, false, true)), SteamFolder::NeverSignedIn);
    assert_eq!(classify_steam_folder(&folder(true, false, false)), SteamFolder::NotSteam);
    assert_eq!(SteamFolder::NeverSignedIn.message(), "Steam found, sign in once so it creates its login history.");
}

#[test]
fn a_parent_folder_is_classified_by_what_it_holds() {
    let parent = folder(true, false, false);
    let below = vec![folder(false, false, false), folder(true, false, true), folder(true, true, false)];
    assert_eq!(classify_custom_path(&parent, &below), SteamFolder::NeverSignedIn);
    assert_eq!(classify_custom_path(&parent, &vec![folder(false, false, false)]), SteamFolder::NotSteam);
    assert_eq!(classify_custom_path(&folder(false, false, false), &below), SteamFolder::NotADirectory);
}

#[test]
fn custom_paths_try_the_known_layouts() {
    assert_eq!(custom_subpaths().len(), 7);
    let roots = candidate_roots("/data");
    assert_eq!(roots[0], "/data");
    assert_eq!(roots[1], "/data/.steam/steam");
    assert_eq!(roots[6], "/data/Steam");
    let facts = vec![folder(true, false, false), folder(false, false, false), folder(true, true, false)];
    assert_eq!(pick_custom_root(true, &facts), Some(2));
    assert_eq!(pick_custom_root(false, &facts), None);
    assert_eq!(pick_custom_root(true, &vec![folder(true, false, false)]), None);
}

#[test]
fn custom_roots_get_a_kind_and_commands() {
    assert_eq!(custom_kind("/home/me/.var/app/com.valvesoftware.Steam/data/Steam"), InstallKind::Flatpak);
    assert_eq!(custom_kind("/home/me/snap/steam/common"), InstallKind::Snap);
    assert_eq!(custom_kind("/home/me/.steam/steam"), InstallKind::Native);
    let layout = custom_layout("/data", "/data/Steam");
    assert_eq!(layout.kind, InstallKind::Native);
    assert_eq!(layout.registry_candidates, vec!["/data/registry.vdf".to_string(), "/data/Steam/registry.vdf".to_string()]);
    assert_eq!(layout.prefix.as_deref(), Some("/"));
    assert_eq!(command_candidates(InstallKind::Snap), vec![vec!["snap".to_string(), "run".to_string(), "steam".to_string()], vec!["steam".to_string()]]);
}

#[test]
fn linux_candidates_cover_native_flatpak_and_snap() {
    let layouts = linux_candidates("/home/me", None);
    assert_eq!(layouts.len(), 10);
    assert_eq!(layouts[0].root, "/home/me/.local/share/Steam");
    assert_eq!(layouts[0].prefix.as_deref(), Some("/home/me/.steam"));
    assert_eq!(layouts[4].kind, InstallKind::Flatpak);
    assert_eq!(layouts[4].root, "/home/me/.var/app/com.valvesoftware.Steam/.local/share/Steam");
    assert_eq!(layouts[7].kind, InstallKind::Snap);
    assert_eq!(layouts[7].prefix.as_deref(), Some("/home/me/snap/steam/common/.local/share"));
    assert_eq!(layouts[8].registry_candidates.len(), 2);

    let with_xdg = linux_candidates("/home/me", Some("/data/xdg"));
    assert_eq!(with_xdg.len(), 11);
    assert_eq!(with_xdg[0].root, "/data/xdg/Steam");
    let known = linux_candidates("/home/me", Some("/home/me/.local/share/"));
    assert_eq!(known.len(), 10);
}

#[test]
fn launch_commands_prefer_an_available_program() {
    let commands = command_candidates(InstallKind::Native);
    assert_eq!(choose_launch_command(&commands, &vec![false, true]), vec!["steam-native".to_string()]);
    assert_eq!(choose_launch_command(&commands, &vec![false, false]), vec!["steam".to_string()]);
    assert!(choose_launch_command(&Vec::new(), &Vec::new()).is_empty());
}

#[test]
fn registry_files_are_looked_for_in_order() {
    let options = registry_options(&vec!["/home/me/.steam/registry.vdf".to_string()], "/home/me/.local/share/Steam");
    assert_eq!(options, vec![
        "/home/me/.steam/registry.vdf".to_string(),
        "/home/me/.local/share/Steam/registry.vdf".to_string(),
        "/home/me/.local/share/registry.vdf".to_string(),
    ]);
    assert_eq!(pick_registry(&options, &vec![false, true, true]), options[1]);
    assert_eq!(pick_registry(&options, &vec![false]), options[0]);
}

#[test]
fn ranked_candidates_are_unique_and_sorted_by_completeness() {
    let facts = |login: bool, registry: bool, config: bool| InstallationFacts {
        root_dir: true,
        config_dir: config,
        loginusers_file: login,
        registry_file: registry,
    };
    let candidate = |root: &str, f: InstallationFacts| Candidate {
        installation: installation(InstallKind::Native, root),
        facts: f,
        root_key: root.to_string(),
        registry_key: format!("{root}/registry.vdf"),
    };
    let missing = InstallationFacts { root_dir: false, config_dir: false, loginusers_file: false, registry_file: false };
    assert!(!looks_installed(&missing));
    assert_eq!(installation_score(&facts(true, false, true)), (1, 0, 1));
    let ranked = rank_candidates(vec![
        candidate("/a", facts(false, false, true)),
        candidate("/b", facts(true, false, false)),
        candidate("/a", facts(true, true, true)),
        candidate("/c", missing),
        candidate("/d", facts(false, false, true)),
        candidate("/e", facts(true, true, false)),
    ]);
    let roots: Vec<&str> = ranked.iter().map(|i| i.root.as_str()).collect();
    assert_eq!(roots, vec!["/e", "/b", "/a", "/d"]);
}

#[test]
fn the_picker_hides_and_adds_installations() {
    let keyed = |root: &str| Keyed { installation: installation(InstallKind::Native, root), key: root.to_string() };
    let (list, selected) = choose_installations(
        vec![keyed("/a"), keyed("/b"), keyed("/c")],
        &vec!["/b".to_string()],
        vec![keyed("/c"), keyed("/d")],
        Some("/d"),
    );
    let roots: Vec<&str> = list.iter().map(|i| i.root.as_str()).collect();
    assert_eq!(roots, vec!["/a", "/c", "/d"]);
    assert_eq!(selected, 2);
    let (list, selected) = choose_installations(vec![keyed("/a")], &Vec::new(), Vec::new(), Some("/gone"));
    assert_eq!(list.len(), 1);
    assert_eq!(selected, 0);
    let (list, selected) = choose_installations(Vec::new(), &Vec::new(), Vec::new(), None);
    assert!(list.is_empty());
    assert_eq!(selected, 0);
}

#[test]
fn library_roots_come_from_libraryfolders() {
    let data = parse("\"libraryfolders\"\n{\n\t\"0\"\n\t{\n\t\t\"path\"\t\t\"/games\"\n\t}\n\t\"1\"\t\"~/more\"\n\t\"2\"\n\t{\n\t\t\"path\"\t\t\"/steam\"\n\t}\n}\n").expect("parses");
    let roots = library_roots("/steam", Some(&data), Some("/home/me"));
    assert_eq!(roots, vec!["/steam".to_string(), "/games".to_string(), "/home/me/more".to_string()]);
    assert_eq!(library_roots("/steam", None, None), vec!["/steam".to_string()]);
}

#[test]
fn resolves_names_from_a_manifest() {
    let manifest = parse("\"AppState\"\n{\n\t\"appid\"\t\t\"570\"\n\t\"name\"\t\t\"Dota 2\"\n}\n").expect("manifest");
    assert_eq!(manifest_name(&manifest), "Dota 2");
    assert_eq!(manifest_name(&parse("\"AppState\" { }").expect("parses")), "");
    assert_eq!(display_name_for("", "999"), "App 999");
    assert_eq!(display_name_for("Dota 2", "570"), "Dota 2");
}

#[test]
fn a_root_is_found_exactly_when_the_path_classifies_as_steam() {
    let cases = [
        (folder(true, false, false), vec![folder(false, false, false), folder(true, true, false)]),
        (folder(true, false, true), vec![folder(false, false, false)]),
        (folder(true, false, false), vec![folder(true, false, false), folder(false, false, false)]),
        (folder(false, false, false), vec![folder(true, true, true)]),
    ];
    for (base, subfolders) in cases {
        let mut all = vec![base];
        all.extend(subfolders.iter().copied());
        let found = pick_custom_root(base.is_dir, &all).is_some();
        let classified = classify_custom_path(&base, &subfolders);
        assert_eq!(found, matches!(classified, SteamFolder::Usable | SteamFolder::NeverSignedIn));
    }
}
