//! Where Steam data roots are looked for, and how a folder is judged.
//!
//! Linux users can have several clients at once (distribution package,
//! Flatpak and Snap), so every candidate is listed and the caller, which looks
//! at the file system, keeps those that exist. The checks on the file system
//! arrive here as facts.

use vstd::prelude::*;
use vstd::string::StringExecFns;
use crate::model::{InstallKind, SteamInstallation, join_path, joined};
use crate::text::{ascii_lower_seq, ascii_lowercase, contains_text, has_infix};

verus! {

/// Why a folder is, or is not, usable as a Steam root: Steam is often installed
/// but never signed in, which is not the same as "not found".
#[derive(Debug, Clone, Copy, PartialEq, Eq, Structural)]
pub enum SteamFolder {
    /// Missing, or a file rather than a folder.
    NotADirectory,
    /// A real folder that has nothing to do with a Steam client.
    NotSteam,
    /// Steam is installed here but never signed in: no login history yet.
    NeverSignedIn,
    /// `config/loginusers.vdf` exists, accounts can be read.
    Usable,
}

pub open spec fn folder_message(f: SteamFolder) -> Seq<char> {
    match f {
        SteamFolder::NotADirectory => "This folder does not exist."@,
        SteamFolder::NotSteam => "No Steam client found in this folder."@,
        SteamFolder::NeverSignedIn => "Steam found, sign in once so it creates its login history."@,
        SteamFolder::Usable => "Steam installation ready."@,
    }
}

impl SteamFolder {
    pub fn message(self) -> (result: &'static str)
        ensures
            result@ == folder_message(self),
    {
        match self {
            SteamFolder::NotADirectory => "This folder does not exist.",
            SteamFolder::NotSteam => "No Steam client found in this folder.",
            SteamFolder::NeverSignedIn => "Steam found, sign in once so it creates its login history.",
            SteamFolder::Usable => "Steam installation ready.",
        }
    }
}

/// What the file system shows of a folder: whether it is one, and which
/// markers of a Steam client it holds.
#[derive(Debug, Clone, Copy, PartialEq, Eq)]
pub struct FolderFacts {
    pub is_dir: bool,
    /// `config/loginusers.vdf` is a file.
    pub login_history: bool,
    /// `registry.vdf` is a file.
    pub registry_file: bool,
    /// `steamapps` is a folder.
    pub steamapps_dir: bool,
    /// `userdata` is a folder.
    pub userdata_dir: bool,
    /// `steam.exe` is a file.
    pub steam_exe: bool,
    /// `steam.sh` is a file.
    pub steam_sh: bool,
}

pub open spec fn has_marker(f: FolderFacts) -> bool {
    f.login_history || f.registry_file || f.steamapps_dir || f.userdata_dir || f.steam_exe || f.steam_sh
}

/// A path is a Steam root when it is a folder holding any of the client's
/// markers (a path that is no folder holds none).
pub open spec fn is_steam_root(f: FolderFacts) -> bool {
    f.is_dir && has_marker(f)
}

pub fn looks_like_steam_root(facts: &FolderFacts) -> (result: bool)
    ensures
        result == is_steam_root(*facts),
{
    facts.is_dir && (facts.login_history || facts.registry_file || facts.steamapps_dir || facts.userdata_dir
        || facts.steam_exe || facts.steam_sh)
}

pub open spec fn classified(f: FolderFacts) -> SteamFolder {
    if !f.is_dir {
        SteamFolder::NotADirectory
    } else if f.login_history {
        SteamFolder::Usable
    } else if has_marker(f) {
        SteamFolder::NeverSignedIn
    } else {
        SteamFolder::NotSteam
    }
}

/// Classifies a single folder, used for the picker and for later reads so a
/// path can never be accepted by one and rejected by the other.
pub fn classify_steam_folder(facts: &FolderFacts) -> (result: SteamFolder)
    ensures
        result == classified(*facts),
{
    if !facts.is_dir {
        return SteamFolder::NotADirectory;
    }
    if facts.login_history {
        return SteamFolder::Usable;
    }
    if looks_like_steam_root(facts) {
        return SteamFolder::NeverSignedIn;
    }
    SteamFolder::NotSteam
}

/// Folders below a user supplied path that may hold a Steam client; the
/// empty one is the path itself.
pub open spec fn subpaths() -> Seq<Seq<char>> {
    seq![
        ""@,
        ".steam/steam"@,
        ".steam/root"@,
        ".local/share/Steam"@,
        ".var/app/com.valvesoftware.Steam/.local/share/Steam"@,
        "steam"@,
        "Steam"@,
    ]
}

pub fn custom_subpaths() -> (result: Vec<&'static str>)
    ensures
        result@.map_values(|s: &str| s@) == subpaths(),
{
    let result = vec![
        "",
        ".steam/steam",
        ".steam/root",
        ".local/share/Steam",
        ".var/app/com.valvesoftware.Steam/.local/share/Steam",
        "steam",
        "Steam",
    ];
    proof {
        assert(result@.map_values(|s: &str| s@) =~= subpaths());
    }
    result
}

/// The folders tried for a user supplied `base`, in order.
pub open spec fn candidate_roots_of(base: Seq<char>) -> Seq<Seq<char>> {
    subpaths().map_values(|r: Seq<char>| if r.len() == 0 {
        base
    } else {
        joined(base, r)
    })
}

pub fn candidate_roots(base: &str) -> (result: Vec<String>)
    ensures
        result@.map_values(|s: String| s@) == candidate_roots_of(base@),
{
    let parts = custom_subpaths();
    let mut result: Vec<String> = Vec::new();
    let mut index: usize = 0;
    while index < parts.len()
        invariant
            parts@.map_values(|s: &str| s@) == subpaths(),
            index <= parts@.len(),
            result@.len() == index,
            forall|k: int| 0 <= k < index ==> (#[trigger] result@[k])@ == candidate_roots_of(base@)[k],
        decreases parts@.len() - index,
    {
        let part = parts[index];
        proof {
            assert(parts@.map_values(|s: &str| s@)[index as int] == part@);
        }
        if part.is_empty() {
            result.push(base.to_owned());
        } else {
            result.push(join_path(base, part));
        }
        index += 1;
    }
    proof {
        assert(result@.map_values(|s: String| s@) =~= candidate_roots_of(base@));
    }
    result
}

/// A subfolder that shows a Steam client settles the classification.
pub open spec fn settles() -> spec_fn(FolderFacts) -> bool {
    |f: FolderFacts| classified(f) == SteamFolder::Usable || classified(f) == SteamFolder::NeverSignedIn
}

/// Classification of a user supplied path from the facts of the path itself
/// and of its subfolders: `subfolders[i]` is the folder reached through the
/// subpath `i + 1`.
pub open spec fn classified_custom(base: FolderFacts, subfolders: Seq<FolderFacts>) -> SteamFolder {
    let own = classified(base);
    if own == SteamFolder::Usable || own == SteamFolder::NotADirectory {
        own
    } else {
        match crate::text::first_where(subfolders, settles()) {
            Some(i) => classified(subfolders[i]),
            None => own,
        }
    }
}

pub fn classify_custom_path(base: &FolderFacts, subfolders: &Vec<FolderFacts>) -> (result: SteamFolder)
    ensures
        result == classified_custom(*base, subfolders@),
{
    let ghost p = settles();
    let own = classify_steam_folder(base);
    if own == SteamFolder::Usable || own == SteamFolder::NotADirectory {
        return own;
    }
    let mut index: usize = 0;
    while index < subfolders.len()
        invariant
            p == settles(),
            own == classified(*base),
            own != SteamFolder::Usable && own != SteamFolder::NotADirectory,
            index <= subfolders@.len(),
            forall|j: int| 0 <= j < index ==> !p(#[trigger] subfolders@[j]),
        decreases subfolders@.len() - index,
    {
        let found = classify_steam_folder(&subfolders[index]);
        if found == SteamFolder::Usable || found == SteamFolder::NeverSignedIn {
            proof {
                crate::text::lemma_first_where_found(subfolders@, p, index as int);
            }
            return found;
        }
        index += 1;
    }
    proof {
        crate::text::lemma_first_where_none(subfolders@, p);
    }
    own
}

/// Kind of a Steam root given by hand, from the words of its path.
pub open spec fn kind_of_root(root: Seq<char>) -> InstallKind {
    let text = ascii_lower_seq(root);
    if has_infix(text, ".var/app/com.valvesoftware.steam"@) {
        InstallKind::Flatpak
    } else if has_infix(text, "/snap/"@) || has_infix(text, "snap/steam"@) {
        InstallKind::Snap
    } else {
        InstallKind::Native
    }
}

pub fn custom_kind(root: &str) -> (result: InstallKind)
    ensures
        result == kind_of_root(root@),
{
    let text = ascii_lowercase(root);
    if contains_text(text.as_str(), ".var/app/com.valvesoftware.steam") {
        InstallKind::Flatpak
    } else if contains_text(text.as_str(), "/snap/") || contains_text(text.as_str(), "snap/steam") {
        InstallKind::Snap
    } else {
        InstallKind::Native
    }
}

/// Commands that may start the client of a kind, preferred first.
pub open spec fn kind_commands(kind: InstallKind) -> Seq<Seq<Seq<char>>> {
    match kind {
        InstallKind::Flatpak => seq![seq!["flatpak"@, "run"@, "com.valvesoftware.Steam"@]],
        InstallKind::Snap => seq![seq!["snap"@, "run"@, "steam"@], seq!["steam"@]],
        _ => seq![seq!["steam"@], seq!["steam-native"@]],
    }
}

pub open spec fn command_texts(commands: Seq<Vec<String>>) -> Seq<Seq<Seq<char>>> {
    commands.map_values(|c: Vec<String>| c@.map_values(|s: String| s@))
}

fn words(parts: Vec<&str>) -> (result: Vec<String>)
    ensures
        result@.map_values(|s: String| s@) == parts@.map_values(|s: &str| s@),
{
    let mut result: Vec<String> = Vec::new();
    let mut index: usize = 0;
    while index < parts.len()
        invariant
            index <= parts@.len(),
            result@.len() == index,
            forall|k: int| 0 <= k < index ==> (#[trigger] result@[k])@ == parts@[k]@,
        decreases parts@.len() - index,
    {
        result.push(parts[index].to_owned());
        index += 1;
    }
    proof {
        assert(result@.map_values(|s: String| s@) =~= parts@.map_values(|s: &str| s@));
    }
    result
}

pub fn command_candidates(kind: InstallKind) -> (result: Vec<Vec<String>>)
    ensures
        command_texts(result@) == kind_commands(kind),
{
    let mut result: Vec<Vec<String>> = Vec::new();
    match kind {
        InstallKind::Flatpak => {
            let w = words(vec!["flatpak", "run", "com.valvesoftware.Steam"]);
            proof {
                assert(w@.map_values(|s: String| s@) =~= seq!["flatpak"@, "run"@, "com.valvesoftware.Steam"@]);
            }
            result.push(w);
        },
        InstallKind::Snap => {
            let w = words(vec!["snap", "run", "steam"]);
            let v = words(vec!["steam"]);
            proof {
                assert(w@.map_values(|s: String| s@) =~= seq!["snap"@, "run"@, "steam"@]);
                assert(v@.map_values(|s: String| s@) =~= seq!["steam"@]);
            }
            result.push(w);
            result.push(v);
        },
        _ => {
            let w = words(vec!["steam"]);
            let v = words(vec!["steam-native"]);
            proof {
                assert(w@.map_values(|s: String| s@) =~= seq!["steam"@]);
                assert(v@.map_values(|s: String| s@) =~= seq!["steam-native"@]);
            }
            result.push(w);
            result.push(v);
        },
    }
    proof {
        assert(command_texts(result@) =~= kind_commands(kind));
    }
    result
}

/// The first command whose program is available, otherwise the first one;
/// `available[i]` tells whether the program of `commands[i]` was found.
pub open spec fn chosen_command(commands: Seq<Seq<Seq<char>>>, available: Seq<bool>) -> Seq<Seq<char>> {
    match crate::text::first_where(
        Seq::new(commands.len(), |i: int| commands[i].len() > 0 && i < available.len() && available[i]),
        |b: bool| b,
    ) {
        Some(i) => commands[i],
        None => if commands.len() > 0 {
            commands[0]
        } else {
            seq![]
        },
    }
}

pub fn choose_launch_command(commands: &Vec<Vec<String>>, available: &Vec<bool>) -> (result: Vec<String>)
    ensures
        result@.map_values(|s: String| s@) == chosen_command(command_texts(commands@), available@),
{
    let ghost flags = Seq::new(
        command_texts(commands@).len(),
        |i: int| command_texts(commands@)[i].len() > 0 && i < available@.len() && available@[i],
    );
    let mut index: usize = 0;
    while index < commands.len()
        invariant
            index <= commands@.len(),
            flags.len() == commands@.len(),
            flags == Seq::new(
                command_texts(commands@).len(),
                |i: int| command_texts(commands@)[i].len() > 0 && i < available@.len() && available@[i],
            ),
            forall|j: int| 0 <= j < index ==> !#[trigger] flags[j],
        decreases commands@.len() - index,
    {
        let usable = commands[index].len() > 0 && index < available.len() && available[index];
        proof {
            assert(command_texts(commands@)[index as int].len() == commands@[index as int]@.len());
            assert(flags[index as int] == usable);
        }
        if usable {
            proof {
                crate::text::lemma_first_where_found(flags, |b: bool| b, index as int);
            }
            return commands[index].clone();
        }
        index += 1;
    }
    proof {
        crate::text::lemma_first_where_none(flags, |b: bool| b);
    }
    if commands.len() > 0 {
        commands[0].clone()
    } else {
        Vec::new()
    }
}


/// `Path::parent`, as text: the path without its last component, nothing for
/// a root or an empty path.
pub uninterp spec fn parent_path(path: Seq<char>) -> Option<Seq<char>>;

/// `Path::parent`, the result converted to text; it is named, not stated.
#[verifier::external_body]
fn path_parent(path: &str) -> (result: Option<String>)
    ensures
        match parent_path(path@) {
            Some(p) => result is Some && result.unwrap()@ == p,
            None => result is None,
        },
{
    match std::path::Path::new(path).parent() {
        Some(parent) => Some(parent.to_string_lossy().into_owned()),
        None => None,
    }
}

/// `Path::starts_with`: the components of `root` begin those of `path`.
pub uninterp spec fn path_starts_with(path: Seq<char>, root: Seq<char>) -> bool;

/// `Path::starts_with` on two texts; the result is named, not stated.
#[verifier::external_body]
pub(crate) fn starts_with_path(path: &str, root: &str) -> (result: bool)
    ensures
        result == path_starts_with(path@, root@),
{
    std::path::Path::new(path).starts_with(root)
}

/// `PathBuf == PathBuf`: two paths with the same components.
pub uninterp spec fn paths_equal(a: Seq<char>, b: Seq<char>) -> bool;

/// Two texts name the same installation root: they are the same text, or
/// the same path once read as paths (`/tmp/steam/` and `/tmp//steam` are
/// `/tmp/steam`).
pub open spec fn same_root(a: Seq<char>, b: Seq<char>) -> bool {
    a == b || paths_equal(a, b)
}

/// `Path::eq` on two texts; the result is named, not stated, beyond what
/// `Path` being `Eq` gives: a text names the same path as itself.
#[verifier::external_body]
pub(crate) fn same_path(a: &str, b: &str) -> (result: bool)
    ensures
        result == paths_equal(a@, b@),
        a@ == b@ ==> result,
{
    std::path::Path::new(a) == std::path::Path::new(b)
}

/// Where a candidate client would live, before the file system is asked.
#[derive(Debug, Clone)]
pub struct Layout {
    pub kind: InstallKind,
    pub root: String,
    /// `registry.vdf` candidates, preferred first.
    pub registry_candidates: Vec<String>,
    /// Commands that may start this client, preferred first.
    pub commands: Vec<Vec<String>>,
    pub prefix: Option<String>,
}

pub struct LayoutView {
    pub kind: InstallKind,
    pub root: Seq<char>,
    pub registry: Seq<Seq<char>>,
    pub commands: Seq<Seq<Seq<char>>>,
    pub prefix: Option<Seq<char>>,
}

pub open spec fn text_list(v: Seq<String>) -> Seq<Seq<char>> {
    v.map_values(|s: String| s@)
}

impl View for Layout {
    type V = LayoutView;

    open spec fn view(&self) -> LayoutView {
        LayoutView {
            kind: self.kind,
            root: self.root@,
            registry: text_list(self.registry_candidates@),
            commands: command_texts(self.commands@),
            prefix: match self.prefix {
                Some(p) => Some(p@),
                None => None,
            },
        }
    }
}

pub open spec fn layout_views(v: Seq<Layout>) -> Seq<LayoutView> {
    v.map_values(|l: Layout| l@)
}

/// Native roots: the usual places below the home folder, with a non-default
/// `XDG_DATA_HOME` tried first.
pub open spec fn native_roots(home: Seq<char>, xdg: Option<Seq<char>>) -> Seq<Seq<char>> {
    let usual = seq![
        joined(home, ".local/share/Steam"@),
        joined(home, ".steam/steam"@),
        joined(home, ".steam/root"@),
        joined(home, ".steam/debian-installation"@),
    ];
    match xdg {
        Some(x) => {
            let steam = joined(x, "Steam"@);
            if exists|i: int| 0 <= i < usual.len() && paths_equal(#[trigger] usual[i], steam) {
                usual
            } else {
                seq![steam] + usual
            }
        },
        None => usual,
    }
}

pub open spec fn flatpak_home(home: Seq<char>) -> Seq<char> {
    joined(home, ".var/app/com.valvesoftware.Steam"@)
}

pub open spec fn snap_home(home: Seq<char>) -> Seq<char> {
    joined(home, "snap/steam"@)
}

/// Every place a client may live below `home`, native first, then Flatpak,
/// then Snap.
pub open spec fn linux_layouts(home: Seq<char>, xdg: Option<Seq<char>>) -> Seq<LayoutView> {
    let natives = native_roots(home, xdg);
    let fh = flatpak_home(home);
    let sh = snap_home(home);
    let flatpaks = seq![joined(fh, ".local/share/Steam"@), joined(fh, ".steam/steam"@), joined(fh, "steam"@)];
    let snaps = seq![
        joined(sh, "common/.local/share/Steam"@),
        joined(sh, "current/.local/share/Steam"@),
        joined(sh, "common/.steam/steam"@),
    ];
    natives.map_values(
        |r: Seq<char>|
            LayoutView {
                kind: InstallKind::Native,
                root: r,
                registry: seq![joined(home, ".steam/registry.vdf"@)],
                commands: kind_commands(InstallKind::Native),
                prefix: Some(joined(home, ".steam"@)),
            },
    ) + flatpaks.map_values(
        |r: Seq<char>|
            LayoutView {
                kind: InstallKind::Flatpak,
                root: r,
                registry: seq![joined(fh, ".steam/registry.vdf"@)],
                commands: kind_commands(InstallKind::Flatpak),
                prefix: Some(joined(fh, ".steam"@)),
            },
    ) + snaps.map_values(
        |r: Seq<char>|
            LayoutView {
                kind: InstallKind::Snap,
                root: r,
                registry: seq![joined(sh, "common/.steam/registry.vdf"@), joined(sh, "current/.steam/registry.vdf"@)],
                commands: kind_commands(InstallKind::Snap),
                prefix: parent_path(r),
            },
    )
}

/// The layout of one root of a client kind.
pub open spec fn layout_of(
    kind: InstallKind,
    root: Seq<char>,
    registry: Seq<Seq<char>>,
    prefix: Option<Seq<char>>,
    prefix_is_parent: bool,
) -> LayoutView {
    LayoutView {
        kind,
        root,
        registry,
        commands: kind_commands(kind),
        prefix: if prefix_is_parent {
            parent_path(root)
        } else {
            prefix
        },
    }
}

pub open spec fn opt_text(o: Option<String>) -> Option<Seq<char>> {
    match o {
        Some(p) => Some(p@),
        None => None,
    }
}

fn copy_texts(v: &Vec<String>) -> (result: Vec<String>)
    ensures
        text_list(result@) == text_list(v@),
{
    let mut result: Vec<String> = Vec::new();
    let mut index: usize = 0;
    while index < v.len()
        invariant
            index <= v@.len(),
            result@.len() == index,
            forall|k: int| 0 <= k < index ==> (#[trigger] result@[k])@ == v@[k]@,
        decreases v@.len() - index,
    {
        result.push(v[index].clone());
        index += 1;
    }
    proof {
        assert(text_list(result@) =~= text_list(v@));
    }
    result
}

fn copy_option(o: &Option<String>) -> (result: Option<String>)
    ensures
        opt_text(result) == opt_text(*o),
{
    match o {
        Some(p) => Some(p.clone()),
        None => None,
    }
}

fn push_layouts(
    out: &mut Vec<Layout>,
    kind: InstallKind,
    roots: &Vec<String>,
    registry: &Vec<String>,
    prefix: Option<String>,
    prefix_is_parent: bool,
)
    ensures
        layout_views(final(out)@) == layout_views(old(out)@) + text_list(roots@).map_values(
            |r: Seq<char>| layout_of(kind, r, text_list(registry@), opt_text(prefix), prefix_is_parent),
        ),
{
    let ghost start = layout_views(out@);
    let mut index: usize = 0;
    while index < roots.len()
        invariant
            index <= roots@.len(),
            layout_views(out@).len() == start.len() + index,
            forall|k: int| 0 <= k < start.len() ==> #[trigger] layout_views(out@)[k] == start[k],
            forall|j: int|
                start.len() <= j < start.len() + index ==> #[trigger] layout_views(out@)[j] == layout_of(
                    kind,
                    roots@[j - start.len()]@,
                    text_list(registry@),
                    opt_text(prefix),
                    prefix_is_parent,
                ),
        decreases roots@.len() - index,
    {
        let root = roots[index].clone();
        let layout_prefix = if prefix_is_parent {
            path_parent(root.as_str())
        } else {
            copy_option(&prefix)
        };
        let layout = Layout {
            kind,
            root,
            registry_candidates: copy_texts(registry),
            commands: command_candidates(kind),
            prefix: layout_prefix,
        };
        let ghost before = layout_views(out@);
        out.push(layout);
        proof {
            assert(layout_views(out@) =~= before.push(layout@));
            assert(layout@ == layout_of(kind, roots@[index as int]@, text_list(registry@), opt_text(prefix), prefix_is_parent));
        }
        index += 1;
    }
    proof {
        let tail = text_list(roots@).map_values(
            |r: Seq<char>| layout_of(kind, r, text_list(registry@), opt_text(prefix), prefix_is_parent),
        );
        assert forall|k: int| 0 <= k < tail.len() implies #[trigger] tail[k] == layout_of(
            kind,
            roots@[k]@,
            text_list(registry@),
            opt_text(prefix),
            prefix_is_parent,
        ) by {
            assert(text_list(roots@)[k] == roots@[k]@);
        }
        assert(layout_views(out@) =~= start + tail);
    }
}

fn joined_all(base: &str, rests: Vec<&str>) -> (result: Vec<String>)
    ensures
        text_list(result@) == rests@.map_values(|r: &str| joined(base@, r@)),
{
    let mut result: Vec<String> = Vec::new();
    let mut index: usize = 0;
    while index < rests.len()
        invariant
            index <= rests@.len(),
            result@.len() == index,
            forall|k: int| 0 <= k < index ==> (#[trigger] result@[k])@ == joined(base@, rests@[k]@),
        decreases rests@.len() - index,
    {
        result.push(join_path(base, rests[index]));
        index += 1;
    }
    proof {
        assert(text_list(result@) =~= rests@.map_values(|r: &str| joined(base@, r@)));
    }
    result
}

/// Every place a Steam client may live below `home`; `xdg_data_home` is the
/// value of `XDG_DATA_HOME`, when set.
pub fn linux_candidates(home: &str, xdg_data_home: Option<&str>) -> (result: Vec<Layout>)
    ensures
        layout_views(result@) == linux_layouts(home@, match xdg_data_home {
            Some(x) => Some(x@),
            None => None,
        }),
{
    let ghost xdg = match xdg_data_home {
        Some(x) => Some(x@),
        None => None,
    };
    let usual = joined_all(home, vec![".local/share/Steam", ".steam/steam", ".steam/root", ".steam/debian-installation"]);
    let ghost usual_view = seq![
        joined(home@, ".local/share/Steam"@),
        joined(home@, ".steam/steam"@),
        joined(home@, ".steam/root"@),
        joined(home@, ".steam/debian-installation"@),
    ];
    proof {
        assert(text_list(usual@) =~= usual_view);
    }
    let mut natives: Vec<String> = Vec::new();
    match xdg_data_home {
        Some(x) => {
            let steam = join_path(x, "Steam");
            let mut known = false;
            let mut k: usize = 0;
            while k < usual.len()
                invariant
                    text_list(usual@) == usual_view,
                    k <= usual@.len(),
                    known == exists|i: int| 0 <= i < k && paths_equal(#[trigger] usual_view[i], steam@),
                decreases usual@.len() - k,
            {
                proof {
                    assert(text_list(usual@)[k as int] == usual@[k as int]@);
                }
                if same_path(usual[k].as_str(), steam.as_str()) {
                    known = true;
                }
                k += 1;
            }
            if !known {
                natives.push(steam);
            }
            proof {
                if known {
                    assert(text_list(natives@) =~= Seq::<Seq<char>>::empty());
                } else {
                    assert(text_list(natives@) =~= seq![joined(x@, "Steam"@)]);
                }
            }
        },
        None => {
            proof {
                assert(text_list(natives@) =~= Seq::<Seq<char>>::empty());
            }
        },
    }
    proof {
        assert(native_roots(home@, xdg) =~= text_list(natives@) + usual_view);
    }
    let ghost lead = text_list(natives@);
    let mut index: usize = 0;
    while index < usual.len()
        invariant
            text_list(usual@) == usual_view,
            index <= usual@.len(),
            text_list(natives@).len() == lead.len() + index,
            forall|k: int| 0 <= k < lead.len() ==> #[trigger] text_list(natives@)[k] == lead[k],
            forall|j: int| lead.len() <= j < lead.len() + index ==> #[trigger] text_list(natives@)[j] == usual_view[j - lead.len()],
        decreases usual@.len() - index,
    {
        proof {
            assert(text_list(usual@)[index as int] == usual@[index as int]@);
        }
        let ghost before = text_list(natives@);
        natives.push(usual[index].clone());
        proof {
            assert(text_list(natives@) =~= before.push(usual_view[index as int]));
        }
        index += 1;
    }
    proof {
        assert(text_list(natives@) =~= lead + usual_view);
    }
    let mut out: Vec<Layout> = Vec::new();
    let dot_steam = join_path(home, ".steam");
    let native_registry = joined_all(home, vec![".steam/registry.vdf"]);
    proof {
        assert(text_list(native_registry@) =~= seq![joined(home@, ".steam/registry.vdf"@)]);
    }
    push_layouts(&mut out, InstallKind::Native, &natives, &native_registry, Some(dot_steam), false);
    let ghost after_native = layout_views(out@);
    let fh = join_path(home, ".var/app/com.valvesoftware.Steam");
    let flatpak_roots = joined_all(fh.as_str(), vec![".local/share/Steam", ".steam/steam", "steam"]);
    let flatpak_registry = joined_all(fh.as_str(), vec![".steam/registry.vdf"]);
    proof {
        assert(fh@ == flatpak_home(home@));
        assert(text_list(flatpak_roots@) =~= seq![joined(fh@, ".local/share/Steam"@), joined(fh@, ".steam/steam"@), joined(fh@, "steam"@)]);
        assert(text_list(flatpak_registry@) =~= seq![joined(fh@, ".steam/registry.vdf"@)]);
    }
    push_layouts(
        &mut out,
        InstallKind::Flatpak,
        &flatpak_roots,
        &flatpak_registry,
        Some(join_path(fh.as_str(), ".steam")),
        false,
    );
    let ghost after_flatpak = layout_views(out@);
    let sh = join_path(home, "snap/steam");
    let snap_roots = joined_all(sh.as_str(), vec!["common/.local/share/Steam", "current/.local/share/Steam", "common/.steam/steam"]);
    let snap_registry = joined_all(sh.as_str(), vec!["common/.steam/registry.vdf", "current/.steam/registry.vdf"]);
    proof {
        assert(sh@ == snap_home(home@));
        assert(text_list(snap_roots@) =~= seq![
            joined(sh@, "common/.local/share/Steam"@),
            joined(sh@, "current/.local/share/Steam"@),
            joined(sh@, "common/.steam/steam"@),
        ]);
        assert(text_list(snap_registry@) =~= seq![joined(sh@, "common/.steam/registry.vdf"@), joined(sh@, "current/.steam/registry.vdf"@)]);
    }
    push_layouts(&mut out, InstallKind::Snap, &snap_roots, &snap_registry, None, true);
    proof {
        let spec = linux_layouts(home@, xdg);
        let n1 = after_native.len() as int;
        let n2 = after_flatpak.len() as int;
        assert forall|k: int| 0 <= k < spec.len() implies #[trigger] spec[k] == layout_views(out@)[k] by {
            if k < n1 {
                assert(text_list(natives@)[k] == native_roots(home@, xdg)[k]);
            } else if k < n2 {
                assert(text_list(flatpak_roots@)[k - n1] == seq![joined(fh@, ".local/share/Steam"@), joined(fh@, ".steam/steam"@), joined(fh@, "steam"@)][k - n1]);
            } else {
                assert(text_list(snap_roots@)[k - n2] == seq![
                    joined(sh@, "common/.local/share/Steam"@),
                    joined(sh@, "current/.local/share/Steam"@),
                    joined(sh@, "common/.steam/steam"@),
                ][k - n2]);
            }
        }
    }
    proof {
        assert(layout_views(out@) =~= linux_layouts(home@, xdg));
    }
    out
}


// ------------------------------------------------------ user supplied paths

/// The candidate root used for a user supplied path: the first of
/// `candidate_roots` that looks like a Steam root, when the path is a folder.
pub open spec fn custom_root_index(base_is_dir: bool, facts: Seq<FolderFacts>) -> Option<int> {
    if !base_is_dir {
        None
    } else {
        crate::text::first_where(facts, marked())
    }
}

pub open spec fn marked() -> spec_fn(FolderFacts) -> bool {
    |f: FolderFacts| is_steam_root(f)
}

pub fn pick_custom_root(base_is_dir: bool, facts: &Vec<FolderFacts>) -> (result: Option<usize>)
    ensures
        match custom_root_index(base_is_dir, facts@) {
            Some(i) => result matches Some(j) && j as int == i,
            None => result is None,
        },
{
    if !base_is_dir {
        return None;
    }
    let mut index: usize = 0;
    while index < facts.len()
        invariant
            base_is_dir,
            index <= facts@.len(),
            forall|j: int| 0 <= j < index ==> !marked()(#[trigger] facts@[j]),
        decreases facts@.len() - index,
    {
        if looks_like_steam_root(&facts[index]) {
            proof {
                crate::text::lemma_first_where_found(facts@, marked(), index as int);
            }
            return Some(index);
        }
        index += 1;
    }
    proof {
        crate::text::lemma_first_where_none(facts@, marked());
    }
    None
}

/// Layout of a client found by hand at `root`, below the user supplied `base`.
pub open spec fn custom_layout_of(base: Seq<char>, root: Seq<char>) -> LayoutView {
    LayoutView {
        kind: kind_of_root(root),
        root,
        registry: seq![joined(base, "registry.vdf"@), joined(root, "registry.vdf"@)],
        commands: kind_commands(kind_of_root(root)),
        prefix: parent_path(base),
    }
}

pub fn custom_layout(base: &str, root: &str) -> (result: Layout)
    ensures
        result@ == custom_layout_of(base@, root@),
{
    let kind = custom_kind(root);
    let mut registry: Vec<String> = Vec::new();
    registry.push(join_path(base, "registry.vdf"));
    registry.push(join_path(root, "registry.vdf"));
    let result = Layout {
        kind,
        root: root.to_owned(),
        registry_candidates: registry,
        commands: command_candidates(kind),
        prefix: path_parent(base),
    };
    proof {
        assert(text_list(result.registry_candidates@) =~= seq![joined(base@, "registry.vdf"@), joined(root@, "registry.vdf"@)]);
    }
    result
}

/// Where `registry.vdf` is looked for once the root is known: the layout's
/// candidates, then the root, then the root's parent.
pub open spec fn registry_options_of(candidates: Seq<Seq<char>>, root: Seq<char>) -> Seq<Seq<char>> {
    let own = candidates.push(joined(root, "registry.vdf"@));
    match parent_path(root) {
        Some(p) => own.push(joined(p, "registry.vdf"@)),
        None => own,
    }
}

pub fn registry_options(candidates: &Vec<String>, root: &str) -> (result: Vec<String>)
    ensures
        text_list(result@) == registry_options_of(text_list(candidates@), root@),
{
    let mut result = copy_texts(candidates);
    let ghost start = text_list(result@);
    result.push(join_path(root, "registry.vdf"));
    proof {
        assert(text_list(result@) =~= start.push(joined(root@, "registry.vdf"@)));
    }
    match path_parent(root) {
        Some(parent) => {
            let ghost mid = text_list(result@);
            result.push(join_path(parent.as_str(), "registry.vdf"));
            proof {
                assert(text_list(result@) =~= mid.push(joined(parent@, "registry.vdf"@)));
            }
        },
        None => {},
    }
    result
}

/// The first option that is a file, otherwise the first option.
pub open spec fn picked_registry(options: Seq<Seq<char>>, present: Seq<bool>) -> Seq<char> {
    match crate::text::first_where(Seq::new(options.len(), |i: int| i < present.len() && present[i]), |b: bool| b) {
        Some(i) => options[i],
        None => options[0],
    }
}

pub fn pick_registry(options: &Vec<String>, present: &Vec<bool>) -> (result: String)
    requires
        options@.len() > 0,
    ensures
        result@ == picked_registry(text_list(options@), present@),
{
    let ghost flags = Seq::new(text_list(options@).len(), |i: int| i < present@.len() && present@[i]);
    let mut index: usize = 0;
    while index < options.len()
        invariant
            index <= options@.len(),
            flags == Seq::new(text_list(options@).len(), |i: int| i < present@.len() && present@[i]),
            forall|j: int| 0 <= j < index ==> !#[trigger] flags[j],
        decreases options@.len() - index,
    {
        if index < present.len() && present[index] {
            proof {
                assert(flags[index as int]);
                crate::text::lemma_first_where_found(flags, |b: bool| b, index as int);
                assert(text_list(options@)[index as int] == options@[index as int]@);
            }
            return options[index].clone();
        }
        index += 1;
    }
    proof {
        crate::text::lemma_first_where_none(flags, |b: bool| b);
        assert(text_list(options@)[0] == options@[0]@);
    }
    options[0].clone()
}

// ------------------------------------------------------------------ ranking

/// What the file system shows of a candidate installation.
#[derive(Debug, Clone, Copy, PartialEq, Eq)]
pub struct InstallationFacts {
    pub root_dir: bool,
    pub config_dir: bool,
    pub loginusers_file: bool,
    pub registry_file: bool,
}

pub open spec fn installed(f: InstallationFacts) -> bool {
    f.root_dir || f.config_dir || f.loginusers_file || f.registry_file
}

/// Something of the installation exists on disk.
pub fn looks_installed(facts: &InstallationFacts) -> (result: bool)
    ensures
        result == installed(*facts),
{
    facts.root_dir || facts.config_dir || facts.loginusers_file || facts.registry_file
}

/// Completeness of an installation: login history, then registry, then
/// config folder.
pub fn installation_score(facts: &InstallationFacts) -> (result: (u8, u8, u8))
    ensures
        result.0 == (if facts.loginusers_file { 1u8 } else { 0u8 }),
        result.1 == (if facts.registry_file { 1u8 } else { 0u8 }),
        result.2 == (if facts.config_dir { 1u8 } else { 0u8 }),
{
    (
        if facts.loginusers_file { 1 } else { 0 },
        if facts.registry_file { 1 } else { 0 },
        if facts.config_dir { 1 } else { 0 },
    )
}

/// The score as one number, ordered as the triple is.
pub open spec fn score_value(f: InstallationFacts) -> int {
    (if f.loginusers_file { 4int } else { 0int }) + (if f.registry_file { 2int } else { 0int }) + (if f.config_dir {
        1int
    } else {
        0int
    })
}

/// A detected installation with the facts it is ranked by: `root_key` and
/// `registry_key` are its resolved paths.
#[derive(Debug)]
pub struct Candidate {
    pub installation: SteamInstallation,
    pub facts: InstallationFacts,
    pub root_key: String,
    pub registry_key: String,
}

pub open spec fn same_install(a: Candidate, b: Candidate) -> bool {
    a.installation.kind == b.installation.kind && a.root_key@ == b.root_key@ && a.registry_key@ == b.registry_key@
}

/// The candidates that exist, each installation kept at its first
/// occurrence.
pub open spec fn kept(cs: Seq<Candidate>) -> Seq<Candidate>
    decreases cs.len(),
{
    if cs.len() == 0 {
        seq![]
    } else {
        let d = kept(cs.drop_last());
        let c = cs.last();
        if installed(c.facts) && !(exists|i: int| 0 <= i < d.len() && same_install(#[trigger] d[i], c)) {
            d.push(c)
        } else {
            d
        }
    }
}

pub open spec fn is_perm(p: Seq<int>, n: nat) -> bool {
    &&& p.len() == n
    &&& forall|k: int| 0 <= k < n ==> 0 <= #[trigger] p[k] < n
    &&& forall|k: int, l: int| 0 <= k < n && 0 <= l < n && k != l ==> #[trigger] p[k] != #[trigger] p[l]
}

/// `rk` is `ok` reordered by `p`, highest first, equal keys in their
/// input order.
pub open spec fn desc_stable(rk: Seq<int>, ok: Seq<int>, p: Seq<int>) -> bool {
    &&& rk.len() == ok.len()
    &&& is_perm(p, ok.len())
    &&& forall|k: int| 0 <= k < rk.len() ==> #[trigger] rk[k] == ok[p[k]]
    &&& forall|k: int, l: int| 0 <= k < l < rk.len() ==> #[trigger] rk[k] >= #[trigger] rk[l]
    &&& forall|k: int, l: int| 0 <= k < l < rk.len() && #[trigger] rk[k] == #[trigger] rk[l] ==> p[k] < p[l]
}

proof fn lemma_desc_insert(rk: Seq<int>, ok: Seq<int>, p: Seq<int>, q: int, x: int)
    requires
        desc_stable(rk, ok, p),
        0 <= q <= rk.len(),
        forall|k: int| 0 <= k < q ==> #[trigger] rk[k] >= x,
        q < rk.len() ==> rk[q] < x,
    ensures
        desc_stable(rk.insert(q, x), ok.push(x), p.insert(q, ok.len() as int)),
{
    let n = ok.len() as int;
    let r2 = rk.insert(q, x);
    let p2 = p.insert(q, n);
    let o2 = ok.push(x);
    rk.insert_ensures(q, x);
    p.insert_ensures(q, n);
    assert forall|k: int| 0 <= k < r2.len() implies #[trigger] r2[k] == o2[p2[k]] by {
        if k < q {
            assert(r2[k] == rk[k] && p2[k] == p[k]);
        } else if k > q {
            assert(r2[k] == rk[k - 1] && p2[k] == p[k - 1]);
        }
    }
    assert forall|k: int| 0 <= k < n + 1 implies 0 <= #[trigger] p2[k] < n + 1 by {
        if k < q {
            assert(p2[k] == p[k]);
        } else if k > q {
            assert(p2[k] == p[k - 1]);
        }
    }
    assert forall|k: int, l: int| 0 <= k < n + 1 && 0 <= l < n + 1 && k != l implies #[trigger] p2[k] != #[trigger] p2[l] by {
        let k0 = if k < q { k } else { k - 1 };
        let l0 = if l < q { l } else { l - 1 };
        if k != q && l != q {
            assert(p2[k] == p[k0] && p2[l] == p[l0]);
        } else if k == q {
            assert(p2[l] == p[l0]);
        } else {
            assert(p2[k] == p[k0]);
        }
    }
    assert forall|k: int, l: int| 0 <= k < l < r2.len() implies #[trigger] r2[k] >= #[trigger] r2[l] by {
        if l < q {
            assert(r2[k] == rk[k] && r2[l] == rk[l]);
        } else if k > q {
            assert(r2[k] == rk[k - 1] && r2[l] == rk[l - 1]);
        } else if l == q {
            assert(r2[k] == rk[k]);
        } else if k == q {
            assert(r2[l] == rk[l - 1]);
            if l - 1 > q {
                assert(rk[q] >= rk[l - 1]);
            }
        } else {
            assert(r2[k] == rk[k] && r2[l] == rk[l - 1]);
        }
    }
    assert forall|k: int, l: int| 0 <= k < l < r2.len() && #[trigger] r2[k] == #[trigger] r2[l] implies p2[k] < p2[l] by {
        if l < q {
            assert(r2[k] == rk[k] && r2[l] == rk[l] && p2[k] == p[k] && p2[l] == p[l]);
        } else if k > q {
            assert(r2[k] == rk[k - 1] && r2[l] == rk[l - 1] && p2[k] == p[k - 1] && p2[l] == p[l - 1]);
        } else if l == q {
            assert(p2[k] == p[k]);
        } else if k == q {
            assert(r2[l] == rk[l - 1]);
            if l - 1 > q {
                assert(rk[q] >= rk[l - 1]);
            }
        } else {
            assert(r2[k] == rk[k] && r2[l] == rk[l - 1] && p2[k] == p[k] && p2[l] == p[l - 1]);
        }
    }
}

/// The keys `ks` in the order `p` gives.
pub open spec fn permuted(p: Seq<int>, ks: Seq<int>) -> Seq<int> {
    p.map_values(|i: int| ks[i])
}

pub open spec fn scores(cs: Seq<Candidate>) -> Seq<int> {
    cs.map_values(|c: Candidate| score_value(c.facts))
}

/// `result` lists the kept candidates' installations, best score first,
/// candidates of equal score in the order they were found.
pub open spec fn ranked(result: Seq<SteamInstallation>, cs: Seq<Candidate>) -> bool {
    let k = kept(cs);
    exists|p: Seq<int>|
        {
            &&& #[trigger] desc_stable(permuted(p, scores(k)), scores(k), p)
            &&& result.len() == k.len()
            &&& forall|j: int| 0 <= j < result.len() ==> #[trigger] result[j] == k[p[j]].installation
        }
}

/// `a` is more complete than `b`: it compares greater on the triple (login
/// history, registry, config folder), taken in that order.
pub open spec fn outranks(a: InstallationFacts, b: InstallationFacts) -> bool {
    ||| a.loginusers_file && !b.loginusers_file
    ||| a.loginusers_file == b.loginusers_file && a.registry_file && !b.registry_file
    ||| a.loginusers_file == b.loginusers_file && a.registry_file == b.registry_file && a.config_dir && !b.config_dir
}

/// Law: the score orders installations as their triples compare: a login
/// history outweighs any registry and config folder, a registry outweighs a
/// config folder, and equal scores mean equal triples.
pub proof fn law_score_orders_as_triple(a: InstallationFacts, b: InstallationFacts)
    ensures
        score_value(a) > score_value(b) <==> outranks(a, b),
        score_value(a) == score_value(b) <==> (a.loginusers_file == b.loginusers_file && a.registry_file
            == b.registry_file && a.config_dir == b.config_dir),
{
}

/// Law: in a ranking no installation comes after one it outranks: one with
/// a login history precedes every one without, then registry, then config
/// folder decide.
pub proof fn law_ranking_follows_triple(result: Seq<SteamInstallation>, cs: Seq<Candidate>)
    requires
        ranked(result, cs),
    ensures
        exists|p: Seq<int>|
            {
                &&& #[trigger] is_perm(p, kept(cs).len())
                &&& result.len() == kept(cs).len()
                &&& forall|j: int| 0 <= j < result.len() ==> #[trigger] result[j] == kept(cs)[p[j]].installation
                &&& forall|j: int, l: int|
                    0 <= j < l < result.len() ==> !outranks(
                        #[trigger] kept(cs)[p[l]].facts,
                        #[trigger] kept(cs)[p[j]].facts,
                    )
            },
{
    let k = kept(cs);
    let p = choose|p: Seq<int>|
        {
            &&& #[trigger] desc_stable(permuted(p, scores(k)), scores(k), p)
            &&& result.len() == k.len()
            &&& forall|j: int| 0 <= j < result.len() ==> #[trigger] result[j] == k[p[j]].installation
        };
    let rk = permuted(p, scores(k));
    assert forall|j: int, l: int| 0 <= j < l < result.len() implies !outranks(
        #[trigger] k[p[l]].facts,
        #[trigger] k[p[j]].facts,
    ) by {
        assert(rk[j] >= rk[l]);
        assert(rk[j] == scores(k)[p[j]] && rk[l] == scores(k)[p[l]]);
        assert(0 <= p[j] < k.len() && 0 <= p[l] < k.len());
        law_score_orders_as_triple(k[p[l]].facts, k[p[j]].facts);
    }
    assert(is_perm(p, k.len()));
}

fn same_candidate(a: &Candidate, b: &Candidate) -> (result: bool)
    ensures
        result == same_install(*a, *b),
{
    a.installation.kind == b.installation.kind && crate::text::text_eq(a.root_key.as_str(), b.root_key.as_str())
        && crate::text::text_eq(a.registry_key.as_str(), b.registry_key.as_str())
}

fn score_of(facts: &InstallationFacts) -> (result: u8)
    ensures
        result as int == score_value(*facts),
{
    (if facts.loginusers_file { 4u8 } else { 0u8 }) + (if facts.registry_file { 2u8 } else { 0u8 }) + (if facts.config_dir {
        1u8
    } else {
        0u8
    })
}

/// Keeps the first occurrence of each existing installation and sorts them
/// by completeness, best first.
pub fn rank_candidates(candidates: Vec<Candidate>) -> (result: Vec<SteamInstallation>)
    ensures
        ranked(result@, candidates@),
{
    let ghost cs = candidates@;
    let mut rest = candidates;
    let total = rest.len();
    let mut taken: usize = 0;
    let mut unique: Vec<Candidate> = Vec::new();
    proof {
        assert(cs.take(0) =~= Seq::<Candidate>::empty());
        assert(rest@ =~= cs.skip(0));
    }
    while rest.len() > 0
        invariant
            total == cs.len(),
            taken <= cs.len(),
            rest@ == cs.skip(taken as int),
            unique@ == kept(cs.take(taken as int)),
        decreases rest@.len(),
    {
        let c = rest.remove(0);
        proof {
            assert(c == cs[taken as int]);
            assert(cs.take(taken + 1).drop_last() =~= cs.take(taken as int));
            assert(cs.take(taken + 1).last() == c);
            assert(rest@ =~= cs.skip(taken + 1));
        }
        if looks_installed(&c.facts) {
            let mut duplicate = false;
            let mut k: usize = 0;
            while k < unique.len()
                invariant
                    k <= unique@.len(),
                    duplicate == exists|i: int| 0 <= i < k && same_install(#[trigger] unique@[i], c),
                decreases unique@.len() - k,
            {
                if same_candidate(&unique[k], &c) {
                    duplicate = true;
                }
                k += 1;
            }
            if !duplicate {
                unique.push(c);
            }
        }
        taken += 1;
    }
    proof {
        assert(cs.take(taken as int) =~= cs);
    }
    let ghost k_all = unique@;
    let ghost ks = scores(k_all);
    let mut sorted: Vec<Candidate> = Vec::new();
    let mut keys: Vec<u8> = Vec::new();
    let ghost mut perm: Seq<int> = seq![];
    let mut moved: usize = 0;
    let count = unique.len();
    proof {
        assert(ks.take(0) =~= Seq::<int>::empty());
        assert(unique@ =~= k_all.skip(0));
        assert(desc_stable(keys@.map_values(|v: u8| v as int), ks.take(0), perm));
    }
    while unique.len() > 0
        invariant
            count == k_all.len(),
            moved <= k_all.len(),
            ks == scores(k_all),
            unique@ == k_all.skip(moved as int),
            sorted@.len() == keys@.len(),
            sorted@.len() == moved,
            desc_stable(keys@.map_values(|v: u8| v as int), ks.take(moved as int), perm),
            forall|j: int| 0 <= j < sorted@.len() ==> #[trigger] sorted@[j] == k_all[perm[j]],
            forall|j: int| 0 <= j < sorted@.len() ==> #[trigger] keys@[j] as int == score_value(sorted@[j].facts),
        decreases unique@.len(),
    {
        let c = unique.remove(0);
        let x = score_of(&c.facts);
        proof {
            assert(c == k_all[moved as int]);
            assert(unique@ =~= k_all.skip(moved + 1));
            assert(ks[moved as int] == x as int);
        }
        let ghost rk = keys@.map_values(|v: u8| v as int);
        let mut q: usize = 0;
        while q < keys.len() && keys[q] >= x
            invariant
                q <= keys@.len(),
                rk == keys@.map_values(|v: u8| v as int),
                forall|j: int| 0 <= j < q ==> #[trigger] rk[j] >= x as int,
            decreases keys@.len() - q,
        {
            proof {
                assert(rk[q as int] == keys@[q as int] as int);
            }
            q += 1;
        }
        proof {
            if q < keys@.len() {
                assert(rk[q as int] == keys@[q as int] as int);
            }
            assert(ks.take(moved + 1) =~= ks.take(moved as int).push(x as int));
            lemma_desc_insert(rk, ks.take(moved as int), perm, q as int, x as int);
        }
        let ghost old_sorted = sorted@;
        let ghost old_keys = keys@;
        sorted.insert(q, c);
        keys.insert(q, x);
        proof {
            assert(keys@.map_values(|v: u8| v as int) =~= rk.insert(q as int, x as int));
            perm = perm.insert(q as int, moved as int);
            assert forall|j: int| 0 <= j < sorted@.len() implies #[trigger] sorted@[j] == k_all[perm[j]] by {
                if j < q {
                    assert(sorted@[j] == old_sorted[j]);
                } else if j > q {
                    assert(sorted@[j] == old_sorted[j - 1]);
                }
            }
            assert forall|j: int| 0 <= j < sorted@.len() implies #[trigger] keys@[j] as int == score_value(sorted@[j].facts) by {
                if j < q {
                    assert(sorted@[j] == old_sorted[j] && keys@[j] == old_keys[j]);
                } else if j > q {
                    assert(sorted@[j] == old_sorted[j - 1] && keys@[j] == old_keys[j - 1]);
                }
            }
        }
        moved += 1;
    }
    proof {
        assert(ks.take(moved as int) =~= ks);
    }
    let ghost final_sorted = sorted@;
    let mut result: Vec<SteamInstallation> = Vec::new();
    let mut out: usize = 0;
    let size = sorted.len();
    proof {
        assert(sorted@ =~= final_sorted.skip(0));
    }
    while sorted.len() > 0
        invariant
            size == final_sorted.len(),
            out <= final_sorted.len(),
            sorted@ == final_sorted.skip(out as int),
            result@.len() == out,
            forall|j: int| 0 <= j < out ==> #[trigger] result@[j] == final_sorted[j].installation,
        decreases sorted@.len(),
    {
        let c = sorted.remove(0);
        proof {
            assert(c == final_sorted[out as int]);
            assert(sorted@ =~= final_sorted.skip(out + 1));
        }
        result.push(c.installation);
        out += 1;
    }
    proof {
        let rk = keys@.map_values(|v: u8| v as int);
        assert(permuted(perm, scores(k_all)) =~= rk) by {
            assert forall|j: int| 0 <= j < rk.len() implies permuted(perm, scores(k_all))[j] == rk[j] by {
                assert(rk[j] == ks[perm[j]]);
            }
        }
        assert(desc_stable(permuted(perm, scores(k_all)), scores(k_all), perm));
    }
    result
}


/// Law: a folder judged usable on its own is judged usable when given by
/// hand, and a missing one stays missing, whatever lies below.
pub proof fn law_custom_classification_agrees(base: FolderFacts, subfolders: Seq<FolderFacts>)
    ensures
        classified(base) == SteamFolder::Usable ==> classified_custom(base, subfolders) == SteamFolder::Usable,
        classified(base) == SteamFolder::NotADirectory ==> classified_custom(base, subfolders) == SteamFolder::NotADirectory,
{
}

/// The first folder that settles the classification is the first Steam root.
proof fn lemma_settles_is_marked(fs: Seq<FolderFacts>)
    ensures
        crate::text::first_where(fs, settles()) == crate::text::first_where(fs, marked()),
{
    assert forall|i: int| 0 <= i < fs.len() implies settles()(#[trigger] fs[i]) == marked()(fs[i]) by {}
    match crate::text::first_where(fs, marked()) {
        Some(i) => {
            crate::text::lemma_first_where_found(fs, settles(), i);
        },
        None => {
            assert forall|j: int| 0 <= j < fs.len() implies !settles()(#[trigger] fs[j]) by {
                if settles()(fs[j]) {
                    lemma_first_marked(fs, j);
                }
            }
            crate::text::lemma_first_where_none(fs, settles());
        },
    }
}

proof fn lemma_first_marked(fs: Seq<FolderFacts>, j: int)
    requires
        0 <= j < fs.len(),
        marked()(fs[j]),
    ensures
        crate::text::first_where(fs, marked()) is Some,
    decreases j,
{
    if exists|k: int| 0 <= k < j && marked()(fs[k]) {
        let k = choose|k: int| 0 <= k < j && marked()(fs[k]);
        lemma_first_marked(fs, k);
    } else {
        crate::text::lemma_first_where_found(fs, marked(), j);
    }
}

/// Law: a root is found below a path given by hand exactly when that path
/// is classified as usable or as holding a client never signed in; the
/// candidates are the path itself, then its subfolders.
pub proof fn law_custom_root_found_when_classified(base: FolderFacts, subfolders: Seq<FolderFacts>)
    ensures
        custom_root_index(base.is_dir, seq![base] + subfolders) is Some <==> (classified_custom(base, subfolders)
            == SteamFolder::Usable || classified_custom(base, subfolders) == SteamFolder::NeverSignedIn),
{
    let all = seq![base] + subfolders;
    if base.is_dir {
        if has_marker(base) {
            crate::text::lemma_first_where_found(all, marked(), 0);
            match crate::text::first_where(subfolders, settles()) {
                Some(i) => {
                    crate::text::lemma_first_where_found(subfolders, settles(), i);
                },
                None => {},
            }
            assert(crate::text::first_where(subfolders, settles()) matches Some(i) ==> settles()(subfolders[i]));
        } else {
            lemma_settles_is_marked(subfolders);
            match crate::text::first_where(subfolders, marked()) {
                Some(i) => {
                    assert forall|j: int| 0 <= j < i + 1 implies !marked()(#[trigger] all[j]) by {
                        if j > 0 {
                            assert(all[j] == subfolders[j - 1]);
                        }
                    }
                    assert(all[i + 1] == subfolders[i]);
                    crate::text::lemma_first_where_found(all, marked(), i + 1);
                    assert(settles()(subfolders[i]));
                },
                None => {
                    assert forall|j: int| 0 <= j < all.len() implies !marked()(#[trigger] all[j]) by {
                        if j > 0 {
                            assert(all[j] == subfolders[j - 1]);
                            if marked()(subfolders[j - 1]) {
                                lemma_first_marked(subfolders, j - 1);
                            }
                        }
                    }
                    crate::text::lemma_first_where_none(all, marked());
                },
            }
        }
    }
}

} // verus!
