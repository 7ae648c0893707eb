//! Which processes are the Steam client. Reading the process table, stopping
//! and starting Steam are left to the caller.

use vstd::prelude::*;
use vstd::string::StringExecFns;
use crate::text::{ascii_lower_seq, ascii_lowercase, text_eq};
use crate::model::{join_path, joined, SteamInstallation};

verus! {

/// Client processes that mean "Steam is running", on Unix.
pub open spec fn steam_names() -> Seq<Seq<char>> {
    seq![
        "steam"@,
        "steam.sh"@,
        "steamwebhelper"@,
        "steam-runtime-supervisor"@,
        "steam-runtime-launcher"@,
        "steam-runtime-check-requirements"@,
    ]
}

pub fn steam_process_names() -> (result: Vec<&'static str>)
    ensures
        result@.map_values(|s: &str| s@) == steam_names(),
{
    let result = vec![
        "steam",
        "steam.sh",
        "steamwebhelper",
        "steam-runtime-supervisor",
        "steam-runtime-launcher",
        "steam-runtime-check-requirements",
    ];
    proof {
        assert(result@.map_values(|s: &str| s@) =~= steam_names());
    }
    result
}

/// A process name is Steam's when, ignoring ASCII case, it is one of the
/// client names, or one of them followed by `.exe`.
pub open spec fn is_steam_name(name: Seq<char>) -> bool {
    exists|i: int|
        0 <= i < steam_names().len() && (ascii_lower_seq(name) == ascii_lower_seq(#[trigger] steam_names()[i])
            || ascii_lower_seq(name) == steam_names()[i] + ".exe"@)
}

pub fn is_steam_process(name: &str) -> (result: bool)
    ensures
        result == is_steam_name(name@),
{
    let lowered = ascii_lowercase(name);
    let names = steam_process_names();
    let mut index: usize = 0;
    while index < names.len()
        invariant
            names@.map_values(|s: &str| s@) == steam_names(),
            lowered@ == ascii_lower_seq(name@),
            index <= names@.len(),
            forall|j: int|
                0 <= j < index ==> !(ascii_lower_seq(name@) == ascii_lower_seq(#[trigger] steam_names()[j])
                    || ascii_lower_seq(name@) == steam_names()[j] + ".exe"@),
        decreases names@.len() - index,
    {
        let candidate = names[index];
        proof {
            assert(names@.map_values(|s: &str| s@)[index as int] == candidate@);
        }
        let candidate_lower = ascii_lowercase(candidate);
        let mut with_exe = candidate.to_owned();
        with_exe.append(".exe");
        if text_eq(lowered.as_str(), candidate_lower.as_str()) || text_eq(lowered.as_str(), with_exe.as_str()) {
            return true;
        }
        index += 1;
    }
    false
}


/// Law: whether a process is Steam's does not depend on the case of its
/// ASCII letters.
pub proof fn law_process_names_ignore_case(a: Seq<char>, b: Seq<char>)
    requires
        ascii_lower_seq(a) == ascii_lower_seq(b),
    ensures
        is_steam_name(a) == is_steam_name(b),
{
}

/// Law: every client name is recognised, with or without `.exe`.
pub proof fn law_client_names_are_recognised(i: int)
    requires
        0 <= i < steam_names().len(),
    ensures
        is_steam_name(steam_names()[i]),
        is_steam_name(steam_names()[i] + ".exe"@),
{
    let n = steam_names()[i];
    reveal_strlit(".exe");
    assert(ascii_lower_seq(n) == ascii_lower_seq(n));
    lemma_lower_names(i);
    assert(ascii_lower_seq(n + ".exe"@) =~= ascii_lower_seq(n) + ascii_lower_seq(".exe"@));
    assert(ascii_lower_seq(".exe"@) =~= ".exe"@);
}

/// The client names are written in lower case.
proof fn lemma_lower_names(i: int)
    requires
        0 <= i < steam_names().len(),
    ensures
        ascii_lower_seq(steam_names()[i]) == steam_names()[i],
{
    reveal_strlit("steam");
    reveal_strlit("steam.sh");
    reveal_strlit("steamwebhelper");
    reveal_strlit("steam-runtime-supervisor");
    reveal_strlit("steam-runtime-launcher");
    reveal_strlit("steam-runtime-check-requirements");
    assert(ascii_lower_seq(steam_names()[i]) =~= steam_names()[i]);
}

// ------------------------------------------------------------ process table

/// What the process table says of one process.
pub struct ProcessEntry {
    pub pid: u32,
    pub name: String,
    /// The process has exited and waits to be reaped.
    pub zombie: bool,
    /// Its command line, program first.
    pub args: Vec<String>,
}

pub struct EntryView {
    pub pid: u32,
    pub name: Seq<char>,
    pub zombie: bool,
    pub args: Seq<Seq<char>>,
}

impl View for ProcessEntry {
    type V = EntryView;

    open spec fn view(&self) -> EntryView {
        EntryView { pid: self.pid, name: self.name@, zombie: self.zombie, args: self.args@.map_values(|a: String| a@) }
    }
}

/// `steam -shutdown` runs as a `steam` process of its own and stays alive
/// after the client is gone: it is a request, not a client.
pub open spec fn is_shutdown_request(e: EntryView) -> bool {
    exists|i: int| 0 <= i < e.args.len() && #[trigger] e.args[i] == "-shutdown"@
}

/// A process that counts as Steam: another process than `own_pid`, alive,
/// with a Steam name, and with `clients_only` not a shutdown request.
pub open spec fn counts_as_steam(e: EntryView, own_pid: u32, clients_only: bool) -> bool {
    &&& e.pid != own_pid
    &&& !e.zombie
    &&& !(clients_only && is_shutdown_request(e))
    &&& is_steam_name(e.name)
}

/// The processes of `table` that count as Steam, with their names, in
/// table order.
pub open spec fn steam_entries(table: Seq<EntryView>, own_pid: u32, clients_only: bool) -> Seq<(u32, Seq<char>)>
    decreases table.len(),
{
    if table.len() == 0 {
        seq![]
    } else {
        let before = steam_entries(table.drop_last(), own_pid, clients_only);
        if counts_as_steam(table.last(), own_pid, clients_only) {
            before.push((table.last().pid, table.last().name))
        } else {
            before
        }
    }
}

pub open spec fn entry_views(t: Seq<ProcessEntry>) -> Seq<EntryView> {
    t.map_values(|e: ProcessEntry| e@)
}

pub open spec fn pid_names(r: Seq<(u32, String)>) -> Seq<(u32, Seq<char>)> {
    r.map_values(|p: (u32, String)| (p.0, p.1@))
}

fn has_shutdown_argument(entry: &ProcessEntry) -> (result: bool)
    ensures
        result == is_shutdown_request(entry@),
{
    let ghost v = entry@;
    let mut index: usize = 0;
    while index < entry.args.len()
        invariant
            v == entry@,
            index <= entry.args@.len(),
            forall|j: int| 0 <= j < index ==> v.args[j] != "-shutdown"@,
        decreases entry.args@.len() - index,
    {
        if text_eq(entry.args[index].as_str(), "-shutdown") {
            proof {
                assert(v.args[index as int] == "-shutdown"@);
            }
            return true;
        }
        index += 1;
    }
    false
}

/// The Steam processes of the process table, other than `own_pid`; with
/// `clients_only` the shutdown requests are left out, so what is left are
/// running clients.
pub fn steam_processes(table: &Vec<ProcessEntry>, own_pid: u32, clients_only: bool) -> (result: Vec<(u32, String)>)
    ensures
        pid_names(result@) == steam_entries(entry_views(table@), own_pid, clients_only),
{
    let ghost t = entry_views(table@);
    let mut result: Vec<(u32, String)> = Vec::new();
    let mut index: usize = 0;
    proof {
        assert(t.take(0) =~= seq![]);
        assert(pid_names(result@) =~= seq![]);
    }
    while index < table.len()
        invariant
            t == entry_views(table@),
            index <= table@.len(),
            pid_names(result@) == steam_entries(t.take(index as int), own_pid, clients_only),
        decreases table@.len() - index,
    {
        let entry = &table[index];
        proof {
            assert(t.take(index + 1).drop_last() =~= t.take(index as int));
            assert(t.take(index + 1).last() == entry@);
        }
        let counted = entry.pid != own_pid && !entry.zombie && !(clients_only && has_shutdown_argument(entry))
            && is_steam_process(entry.name.as_str());
        if counted {
            let ghost before = result@;
            result.push((entry.pid, entry.name.clone()));
            proof {
                assert(pid_names(result@) =~= pid_names(before).push((entry.pid, entry.name@)));
            }
        }
        index += 1;
    }
    proof {
        assert(t.take(table@.len() as int) =~= t);
    }
    result
}

// ---------------------------------------------------------------- shutdown

/// Where the runtime helper that asks a running client to close may be:
/// under the installation root, then under the Flatpak or Snap prefix's
/// `root`, each for the 64-bit then the 32-bit runtime.
pub open spec fn helper_paths(root: Seq<char>, prefix: Option<Seq<char>>) -> Seq<Seq<char>> {
    let bases = match prefix {
        Some(p) => seq![root, joined(p, "root"@)],
        None => seq![root],
    };
    Seq::new(2 * bases.len(), |i: int| joined(bases[i / 2], helper_suffix(i % 2 == 0)))
}

pub open spec fn helper_suffix(wide: bool) -> Seq<char> {
    if wide {
        "ubuntu12_32/steam-runtime/amd64/usr/bin/steam-runtime-steam-remote"@
    } else {
        "ubuntu12_32/steam-runtime/i386/usr/bin/steam-runtime-steam-remote"@
    }
}

pub open spec fn opt_text(o: Option<String>) -> Option<Seq<char>> {
    match o {
        Some(p) => Some(p@),
        None => None,
    }
}

pub fn shutdown_helper_paths(installation: &SteamInstallation) -> (result: Vec<String>)
    ensures
        result@.map_values(|s: String| s@) == helper_paths(installation.root@, opt_text(installation.prefix)),
{
    let mut bases: Vec<String> = Vec::new();
    bases.push(installation.root.clone());
    match &installation.prefix {
        Some(p) => bases.push(join_path(p.as_str(), "root")),
        None => {},
    }
    let ghost b = bases@.map_values(|s: String| s@);
    let ghost want = helper_paths(installation.root@, opt_text(installation.prefix));
    proof {
        assert(b =~= match installation.prefix {
            Some(p) => seq![installation.root@, joined(p@, "root"@)],
            None => seq![installation.root@],
        });
    }
    let mut result: Vec<String> = Vec::new();
    let mut index: usize = 0;
    while index < bases.len()
        invariant
            b == bases@.map_values(|s: String| s@),
            want.len() == 2 * b.len(),
            forall|i: int| 0 <= i < want.len() ==> #[trigger] want[i] == joined(b[i / 2], helper_suffix(i % 2 == 0)),
            index <= bases@.len(),
            result@.len() == 2 * index,
            forall|i: int| 0 <= i < 2 * index ==> #[trigger] result@[i]@ == want[i],
        decreases bases@.len() - index,
    {
        let wide = join_path(bases[index].as_str(), "ubuntu12_32/steam-runtime/amd64/usr/bin/steam-runtime-steam-remote");
        let narrow = join_path(bases[index].as_str(), "ubuntu12_32/steam-runtime/i386/usr/bin/steam-runtime-steam-remote");
        proof {
            assert(want[2 * index] == joined(b[index as int], helper_suffix(true)));
            assert(want[2 * index + 1] == joined(b[index as int], helper_suffix(false)));
        }
        result.push(wide);
        result.push(narrow);
        index += 1;
    }
    proof {
        assert(result@.map_values(|s: String| s@) =~= want);
    }
    result
}

/// The command that asks Steam to close: its launch command with
/// `-shutdown` appended.
pub fn shutdown_request(launch_command: &Vec<String>) -> (result: Vec<String>)
    ensures
        result@.map_values(|s: String| s@) == launch_command@.map_values(|s: String| s@).push("-shutdown"@),
{
    let mut result: Vec<String> = Vec::new();
    let mut index: usize = 0;
    while index < launch_command.len()
        invariant
            index <= launch_command@.len(),
            result@.len() == index,
            forall|k: int| 0 <= k < index ==> #[trigger] result@[k]@ == launch_command@[k]@,
        decreases launch_command@.len() - index,
    {
        result.push(launch_command[index].clone());
        index += 1;
    }
    result.push(String::from_str("-shutdown"));
    proof {
        assert(result@.map_values(|s: String| s@) =~= launch_command@.map_values(|s: String| s@).push("-shutdown"@));
    }
    result
}

} // verus!
