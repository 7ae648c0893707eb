use steam_core::model::{InstallKind, SteamInstallation};
use steam_core::processes::{shutdown_helper_paths, shutdown_request, steam_processes, ProcessEntry};

fn entry(pid: u32, name: &str, zombie: bool, args: &[&str]) -> ProcessEntry {
    ProcessEntry {
        pid,
        name: name.to_string(),
        zombie,
        args: args.iter().map(|arg| arg.to_string()).collect(),
    }
}

fn table() -> Vec<ProcessEntry> {
    vec![
        entry(10, "steam", false, &["steam"]),
        entry(11, "steamwebhelper", false, &["steamwebhelper", "-lang=en"]),
        entry(12, "firefox", false, &["firefox"]),
        entry(13, "steam", true, &["steam"]),
        entry(14, "steam", false, &["steam", "-shutdown"]),
        entry(99, "steam", false, &["steam"]),
        entry(15, "STEAM.EXE", false, &[]),
    ]
}

#[test]
fn steam_processes_exclude_this_process_zombies_and_others() {
    let found = steam_processes(&table(), 99, false);
    let pids: Vec<u32> = found.iter().map(|(pid, _)| *pid).collect();
    assert_eq!(pids, vec![10, 11, 14, 15]);
    assert_eq!(found[0].1, "steam");
}

#[test]
fn a_shutdown_request_is_not_a_running_client() {
    let clients = steam_processes(&table(), 99, true);
    let pids: Vec<u32> = clients.iter().map(|(pid, _)| *pid).collect();
    assert_eq!(pids, vec![10, 11, 15]);
    assert!(steam_processes(&vec![entry(14, "steam", false, &["steam", "-shutdown"])], 1, true).is_empty());
}

fn installation(prefix: Option<&str>) -> SteamInstallation {
    SteamInstallation {
        kind: InstallKind::Flatpak,
        root: "/home/u/.steam/steam".to_string(),
        config_dir: "/home/u/.steam/steam/config".to_string(),
        loginusers_path: "/home/u/.steam/steam/config/loginusers.vdf".to_string(),
        registry_path: "/home/u/.steam/registry.vdf".to_string(),
        userdata_dir: "/home/u/.steam/steam/userdata".to_string(),
        launch_command: vec!["flatpak".to_string(), "run".to_string(), "com.valvesoftware.Steam".to_string()],
        prefix: prefix.map(str::to_string),
    }
}

#[test]
fn the_runtime_helper_is_looked_for_under_root_and_prefix() {
    let paths = shutdown_helper_paths(&installation(Some("/home/u/.var/app/com.valvesoftware.Steam")));
    assert_eq!(
        paths,
        vec![
            "/home/u/.steam/steam/ubuntu12_32/steam-runtime/amd64/usr/bin/steam-runtime-steam-remote".to_string(),
            "/home/u/.steam/steam/ubuntu12_32/steam-runtime/i386/usr/bin/steam-runtime-steam-remote".to_string(),
            "/home/u/.var/app/com.valvesoftware.Steam/root/ubuntu12_32/steam-runtime/amd64/usr/bin/steam-runtime-steam-remote"
                .to_string(),
            "/home/u/.var/app/com.valvesoftware.Steam/root/ubuntu12_32/steam-runtime/i386/usr/bin/steam-runtime-steam-remote"
                .to_string(),
        ]
    );
    assert_eq!(shutdown_helper_paths(&installation(None)).len(), 2);
}

#[test]
fn the_shutdown_request_reuses_the_launch_command() {
    let command = shutdown_request(&installation(None).launch_command);
    assert_eq!(command, vec!["flatpak", "run", "com.valvesoftware.Steam", "-shutdown"]);
    assert_eq!(shutdown_request(&Vec::new()), vec!["-shutdown"]);
}
