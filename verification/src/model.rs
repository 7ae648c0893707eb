//! Shared data structures describing a local Steam installation.
//!
//! Paths are kept as text; `join_path` joins them the way Unix paths join.

use vstd::prelude::*;
use vstd::string::StringExecFns;
use crate::text::{
    ascii_lower_seq, ascii_lowercase, chars_of, parsed_integer, parse_str_integer, string_from_chars, text_eq, trim,
    trimmed,
};

verus! {

/// How Steam was installed. This drives path layout and how Steam is launched.
#[derive(Debug, Clone, Copy, PartialEq, Eq, PartialOrd, Ord, Hash, Structural)]
pub enum InstallKind {
    /// Linux distribution package or upstream tarball (`~/.steam`, `~/.local/share/Steam`).
    Native,
    /// Flatpak build of the Steam client.
    Flatpak,
    /// Snap build of the Steam client.
    Snap,
    /// Windows installation (registry + `steam.exe`).
    Windows,
}

pub open spec fn kind_name(kind: InstallKind) -> Seq<char> {
    match kind {
        InstallKind::Native => "native"@,
        InstallKind::Flatpak => "flatpak"@,
        InstallKind::Snap => "snap"@,
        InstallKind::Windows => "windows"@,
    }
}

impl InstallKind {
    pub fn as_str(self) -> (result: &'static str)
        ensures
            result@ == kind_name(self),
    {
        match self {
            InstallKind::Native => "native",
            InstallKind::Flatpak => "flatpak",
            InstallKind::Snap => "snap",
            InstallKind::Windows => "windows",
        }
    }
}

/// `Path::join` on Unix: an absolute `rest` replaces `base`, otherwise a
/// separator is put between the two unless `base` is empty or already ends
/// with one.
pub open spec fn joined(base: Seq<char>, rest: Seq<char>) -> Seq<char> {
    if rest.len() > 0 && rest[0] == '/' {
        rest
    } else if base.len() == 0 {
        rest
    } else if base.last() == '/' {
        base + rest
    } else {
        base + "/"@ + rest
    }
}

pub fn join_path(base: &str, rest: &str) -> (result: String)
    ensures
        result@ == joined(base@, rest@),
{
    proof {
        reveal_strlit("/");
    }
    let base_chars = chars_of(base);
    let rest_chars = chars_of(rest);
    if rest_chars.len() > 0 && rest_chars[0] == '/' {
        return rest.to_owned();
    }
    if base_chars.len() == 0 {
        return rest.to_owned();
    }
    let mut out = base.to_owned();
    if base_chars[base_chars.len() - 1] != '/' {
        out.append("/");
    }
    out.append(rest);
    out
}

/// A Steam data root with everything the app needs to read or write.
#[derive(Debug, Clone, PartialEq, Eq)]
pub struct SteamInstallation {
    pub kind: InstallKind,
    pub root: String,
    pub config_dir: String,
    pub loginusers_path: String,
    pub registry_path: String,
    pub userdata_dir: String,
    pub launch_command: Vec<String>,
    pub prefix: Option<String>,
}

impl SteamInstallation {
    /// Human readable label used by the installation picker: `kind: root`.
    pub fn label(&self) -> (result: String)
        ensures
            result@ == kind_name(self.kind) + ": "@ + self.root@,
    {
        proof {
            reveal_strlit(": ");
        }
        let mut out = self.kind.as_str().to_owned();
        out.append(": ");
        out.append(self.root.as_str());
        out
    }

    /// Path of the local playtime database for this installation.
    pub fn playtime_state_path(&self) -> (result: String)
        ensures
            result@ == joined(self.config_dir@, "steam-account-switcher-playtime.json"@),
    {
        join_path(self.config_dir.as_str(), "steam-account-switcher-playtime.json")
    }

    /// Path of the local rank metadata for this installation.
    pub fn metadata_path(&self) -> (result: String)
        ensures
            result@ == joined(self.config_dir@, "steam-account-switcher-metadata.json"@),
    {
        join_path(self.config_dir.as_str(), "steam-account-switcher-metadata.json")
    }

    /// Path of Steam's game process log used for playtime tracking.
    pub fn gameprocess_log_path(&self) -> (result: String)
        ensures
            result@ == joined(self.root@, "logs/gameprocess_log.txt"@),
    {
        join_path(self.root.as_str(), "logs/gameprocess_log.txt")
    }
}

/// One account remembered by the local Steam client.
#[derive(Debug, Clone, PartialEq, Eq)]
pub struct SteamAccount {
    pub steam_id: String,
    pub account_name: String,
    pub persona_name: String,
    pub avatar_path: Option<String>,
    pub most_recent: bool,
    pub remember_password: bool,
    pub allow_auto_login: bool,
    pub wants_offline_mode: bool,
    pub skip_offline_mode_warning: bool,
    pub timestamp: Option<i64>,
}

/// What an account holds, as mathematical values.
pub struct AccountView {
    pub steam_id: Seq<char>,
    pub account_name: Seq<char>,
    pub persona_name: Seq<char>,
    pub avatar_path: Option<Seq<char>>,
    pub most_recent: bool,
    pub remember_password: bool,
    pub allow_auto_login: bool,
    pub wants_offline_mode: bool,
    pub skip_offline_mode_warning: bool,
    pub timestamp: Option<i64>,
}

impl View for SteamAccount {
    type V = AccountView;

    open spec fn view(&self) -> AccountView {
        AccountView {
            steam_id: self.steam_id@,
            account_name: self.account_name@,
            persona_name: self.persona_name@,
            avatar_path: match self.avatar_path {
                Some(p) => Some(p@),
                None => None,
            },
            most_recent: self.most_recent,
            remember_password: self.remember_password,
            allow_auto_login: self.allow_auto_login,
            wants_offline_mode: self.wants_offline_mode,
            skip_offline_mode_warning: self.skip_offline_mode_warning,
            timestamp: self.timestamp,
        }
    }
}

impl AccountView {
    /// Persona name when Steam has one, otherwise the login name, otherwise the id.
    pub open spec fn display_name_view(self) -> Seq<char> {
        if self.persona_name.len() > 0 {
            self.persona_name
        } else if self.account_name.len() > 0 {
            self.account_name
        } else {
            self.steam_id
        }
    }

    /// Upper case of the first character of the trimmed display name, `?`
    /// when nothing is left.
    pub open spec fn avatar_initial_view(self) -> Seq<char> {
        let label = trimmed(self.display_name_view());
        if label.len() > 0 {
            uppercase_of(label[0])
        } else {
            "?"@
        }
    }
}

/// `char::to_uppercase` collected into a string: the Unicode upper case of one
/// character, which may be several characters long.
pub uninterp spec fn uppercase_of(c: char) -> Seq<char>;

/// `char::to_uppercase`, collected; the result is named, not stated.
#[verifier::external_body]
pub(crate) fn char_uppercase(c: char) -> (result: String)
    ensures
        result@ == uppercase_of(c),
{
    c.to_uppercase().to_string()
}

impl SteamAccount {
    /// Persona name when Steam has one, otherwise the login name, otherwise the id.
    pub open spec fn display_name_spec(&self) -> Seq<char> {
        self@.display_name_view()
    }

    pub fn display_name(&self) -> (result: &str)
        ensures
            result@ == self.display_name_spec(),
    {
        if self.persona_name.as_str().unicode_len() > 0 {
            self.persona_name.as_str()
        } else if self.account_name.as_str().unicode_len() > 0 {
            self.account_name.as_str()
        } else {
            self.steam_id.as_str()
        }
    }

    /// Upper case of the first character of the trimmed display name, `?`
    /// when nothing is left.
    pub open spec fn avatar_initial_spec(&self) -> Seq<char> {
        self@.avatar_initial_view()
    }

    /// Single uppercase letter used by the generated avatar.
    pub fn avatar_initial(&self) -> (result: String)
        ensures
            result@ == self.avatar_initial_spec(),
    {
        let label = trim(self.display_name());
        let chars = chars_of(label.as_str());
        if chars.len() > 0 {
            char_uppercase(chars[0])
        } else {
            String::from_str("?")
        }
    }
}

/// `Timestamp` of `loginusers.vdf`: a positive integer once trimmed.
pub open spec fn timestamp_value(value: Seq<char>) -> Option<i64> {
    match parsed_integer(trimmed(value), true, i64::MIN as int, i64::MAX as int) {
        Some(v) => if v > 0 {
            Some(v as i64)
        } else {
            None
        },
        None => None,
    }
}

/// Steam keeps `Timestamp` as a unix epoch written in the client's local time.
pub fn parse_timestamp(value: &str) -> (result: Option<i64>)
    ensures
        result == timestamp_value(value@),
{
    let text = trim(value);
    match parse_str_integer(text.as_str(), true, i64::MIN as i128, i64::MAX as i128) {
        Some(v) => if v > 0 {
            Some(v as i64)
        } else {
            None
        },
        None => None,
    }
}

/// `"1"`, `"true"` or `"yes"`, ignoring surrounding white space and ASCII case.
pub open spec fn vdf_bool(value: Seq<char>) -> bool {
    let t = ascii_lower_seq(trimmed(value));
    t == "1"@ || t == "true"@ || t == "yes"@
}

/// Steam writes `"1"`/`"0"`; older clients used `true`/`false`.
pub fn parse_vdf_bool(value: &str) -> (result: bool)
    ensures
        result == vdf_bool(value@),
{
    let lowered = ascii_lowercase(trim(value).as_str());
    text_eq(lowered.as_str(), "1") || text_eq(lowered.as_str(), "true") || text_eq(lowered.as_str(), "yes")
}

/// `~/rest` with the home directory in front, when one is known.
pub open spec fn home_expanded(path: Seq<char>, home: Option<Seq<char>>) -> Seq<char> {
    if path.len() >= 2 && path[0] == '~' && path[1] == '/' && home is Some {
        joined(home.unwrap(), path.skip(2))
    } else {
        path
    }
}

/// Replaces a leading `~/` by the home directory `home`.
pub fn expand_home(path: &str, home: Option<&str>) -> (result: String)
    ensures
        result@ == home_expanded(path@, match home {
            Some(h) => Some(h@),
            None => None,
        }),
{
    let chars = chars_of(path);
    match home {
        Some(h) => {
            if chars.len() >= 2 && chars[0] == '~' && chars[1] == '/' {
                let mut rest: Vec<char> = Vec::new();
                let mut index: usize = 2;
                while index < chars.len()
                    invariant
                        2 <= index <= chars@.len(),
                        rest@ == chars@.subrange(2, index as int),
                    decreases chars@.len() - index,
                {
                    rest.push(chars[index]);
                    proof {
                        assert(rest@ =~= chars@.subrange(2, index + 1));
                    }
                    index += 1;
                }
                proof {
                    assert(chars@.subrange(2, chars@.len() as int) =~= chars@.skip(2));
                }
                let rest_text = string_from_chars(rest.as_slice());
                join_path(h, rest_text.as_str())
            } else {
                path.to_owned()
            }
        },
        None => path.to_owned(),
    }
}

} // verus!
