use steam_core::avatars::{avatar_candidates, avatar_dirs, avatar_names, pick_listed_avatar, ListedFile};
use steam_core::model::{InstallKind, SteamInstallation};

fn listed(path: &str, is_file: bool) -> ListedFile {
    let p = std::path::Path::new(path);
    ListedFile {
        path: path.to_string(),
        is_file,
        extension: p.extension().map(|e| e.to_string_lossy().into_owned()),
        stem: p.file_stem().map(|s| s.to_string_lossy().into_owned()),
    }
}

#[test]
fn avatar_files_are_tried_folder_by_folder() {
    let installation = SteamInstallation {
        kind: InstallKind::Native,
        root: "/s".to_string(),
        config_dir: "/s/config".to_string(),
        loginusers_path: "/s/config/loginusers.vdf".to_string(),
        registry_path: "/s/registry.vdf".to_string(),
        userdata_dir: "/s/userdata".to_string(),
        launch_command: vec![],
        prefix: None,
    };
    let dirs = avatar_dirs(&installation);
    assert_eq!(dirs, vec!["/s/config/avatarcache", "/s/config/avatarcache", "/s/appcache/avatarcache"]);
    let names = avatar_names("765", "login");
    assert_eq!(names, vec!["765", "login", "765_full", "765_medium", "765_icon"]);
    assert_eq!(avatar_names("765", "").len(), 4);
    let candidates = avatar_candidates(&dirs, &names);
    assert_eq!(candidates.len(), 3 * 5 * 4);
    assert_eq!(candidates[0], "/s/config/avatarcache/765.png");
    assert_eq!(candidates[1], "/s/config/avatarcache/765.jpg");
    assert_eq!(candidates[4], "/s/config/avatarcache/login.png");
    assert_eq!(candidates[59], "/s/appcache/avatarcache/765_icon.webp");
}

#[test]
fn a_named_image_wins_over_one_that_only_holds_the_id() {
    let names = avatar_names("765", "Login");
    let files = vec![
        listed("/c/x765y.png", true),
        listed("/c/login.txt", true),
        listed("/c/LOGIN.PNG", false),
        listed("/c/Login.JPEG", true),
    ];
    assert_eq!(pick_listed_avatar(&files, &names, "765").as_deref(), Some("/c/Login.JPEG"));
    let only_id = vec![listed("/c/readme", true), listed("/c/a765.webp", true), listed("/c/b765.webp", true)];
    assert_eq!(pick_listed_avatar(&only_id, &names, "765").as_deref(), Some("/c/a765.webp"));
    assert!(pick_listed_avatar(&only_id, &names, "").is_none());
    assert!(pick_listed_avatar(&Vec::new(), &names, "765").is_none());
}
