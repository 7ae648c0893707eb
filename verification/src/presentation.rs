//! Texts the interface shows for accounts and sessions.

use vstd::prelude::*;
use vstd::string::StringExecFns;
use crate::accounts::{views, SwitchOutcome};
use crate::model::{AccountView, SteamAccount, char_uppercase, uppercase_of};
use crate::text::{chars_of, decimal, signed_decimal, signed_decimal_string, decimal_string, first_where, lemma_first_where_found, lemma_first_where_none, string_from_chars, text_eq, wide_decimal_string, eq_ignore_ascii_case, same_ignoring_ascii_case};

verus! {

/// `word` for one, `words` otherwise.
pub fn plural(count: usize, singular: &str) -> (result: String)
    ensures
        result@ == if count == 1 {
            singular@
        } else {
            singular@ + "s"@
        },
{
    if count == 1 {
        singular.to_owned()
    } else {
        let mut out = singular.to_owned();
        out.append("s");
        out
    }
}

/// Upper case of an ASCII letter, other characters unchanged.
pub open spec fn ascii_upper(c: char) -> char {
    if 'a' <= c && c <= 'z' {
        ((c as u32) - 32) as char
    } else {
        c
    }
}

/// An underscore read as a space.
pub open spec fn spaced() -> spec_fn(char) -> char {
    |c: char| if c == '_' {
        ' '
    } else {
        c
    }
}

/// Why a session ended, in words: the known reasons by name, any other one
/// with underscores read as spaces and an ASCII first letter capitalised.
pub open spec fn end_reason_text(reason: Seq<char>) -> Seq<char> {
    if reason == "steam_running_list"@ {
        "Steam stopped game"@
    } else if reason == "root_process_exit_log"@ {
        "Root process exited"@
    } else if reason == "process_exit"@ {
        "Process exited"@
    } else if reason == "process_missing_after_restart"@ {
        "Process missing after restart"@
    } else if reason == "replaced_by_new_launch"@ {
        "New launch detected"@
    } else if reason == ""@ || reason == "unknown"@ {
        "Unknown"@
    } else {
        let label = reason.map_values(spaced());
        if label.len() > 0 && (label[0] as u32) < 128 {
            label.update(0, ascii_upper(label[0]))
        } else {
            label
        }
    }
}

pub fn end_reason_label(reason: &str) -> (result: String)
    ensures
        result@ == end_reason_text(reason@),
{
    if text_eq(reason, "steam_running_list") {
        return String::from_str("Steam stopped game");
    }
    if text_eq(reason, "root_process_exit_log") {
        return String::from_str("Root process exited");
    }
    if text_eq(reason, "process_exit") {
        return String::from_str("Process exited");
    }
    if text_eq(reason, "process_missing_after_restart") {
        return String::from_str("Process missing after restart");
    }
    if text_eq(reason, "replaced_by_new_launch") {
        return String::from_str("New launch detected");
    }
    if text_eq(reason, "") || text_eq(reason, "unknown") {
        return String::from_str("Unknown");
    }
    let chars = chars_of(reason);
    let ghost label = reason@.map_values(spaced());
    let mut out: Vec<char> = Vec::new();
    let mut index: usize = 0;
    while index < chars.len()
        invariant
            chars@ == reason@,
            label == reason@.map_values(spaced()),
            index <= chars@.len(),
            out@.len() == index,
            forall|k: int| 0 <= k < index ==> #[trigger] out@[k] == label[k],
        decreases chars@.len() - index,
    {
        let c = chars[index];
        out.push(if c == '_' { ' ' } else { c });
        index += 1;
    }
    if out.len() > 0 && (out[0] as u32) < 128 {
        let first = out[0];
        let upper = if 'a' <= first && first <= 'z' { ((first as u8) - 32) as char } else { first };
        out.set(0, upper);
    }
    proof {
        if label.len() > 0 && (label[0] as u32) < 128 {
            assert(out@ =~= label.update(0, ascii_upper(label[0])));
        } else {
            assert(out@ =~= label);
        }
    }
    string_from_chars(out.as_slice())
}

/// The accounts the interface lists, with whether their names are masked.
pub struct Catalog {
    pub accounts: Vec<SteamAccount>,
    pub masked: bool,
}

pub open spec fn by_id() -> spec_fn(Seq<char>) -> spec_fn(AccountView) -> bool {
    |id: Seq<char>| |a: AccountView| a.steam_id == id
}

/// First letter in upper case, `?` for an empty text.
pub open spec fn initial_of(label: Seq<char>) -> Seq<char> {
    if label.len() > 0 {
        uppercase_of(label[0])
    } else {
        "?"@
    }
}

impl Catalog {
    /// Position of the account with this id.
    pub open spec fn index_of(&self, steam_id: Seq<char>) -> Option<int> {
        first_where(views(self.accounts@), by_id()(steam_id))
    }

    pub fn account(&self, steam_id: &str) -> (result: Option<&SteamAccount>)
        ensures
            match self.index_of(steam_id@) {
                Some(i) => result is Some && result.unwrap()@ == views(self.accounts@)[i],
                None => result is None,
            },
    {
        let ghost vs = views(self.accounts@);
        let mut index: usize = 0;
        while index < self.accounts.len()
            invariant
                vs == views(self.accounts@),
                index <= self.accounts@.len(),
                forall|j: int| 0 <= j < index ==> !by_id()(steam_id@)(#[trigger] vs[j]),
            decreases self.accounts@.len() - index,
        {
            proof {
                assert(vs[index as int] == self.accounts@[index as int]@);
            }
            if text_eq(self.accounts[index].steam_id.as_str(), steam_id) {
                proof {
                    lemma_first_where_found(vs, by_id()(steam_id@), index as int);
                }
                return Some(&self.accounts[index]);
            }
            index += 1;
        }
        proof {
            lemma_first_where_none(vs, by_id()(steam_id@));
        }
        None
    }

    /// Name shown for an account: its display name when it is listed,
    /// otherwise the persona name, the login name or the id given.
    pub fn display_name(&self, steam_id: &str, fallback: &str, persona: &str) -> (result: String)
        ensures
            result@ == match self.index_of(steam_id@) {
                Some(i) => views(self.accounts@)[i].display_name_view(),
                None => if persona@.len() > 0 {
                    persona@
                } else if fallback@.len() > 0 {
                    fallback@
                } else {
                    steam_id@
                },
            },
    {
        match self.account(steam_id) {
            Some(account) => account.display_name().to_owned(),
            None => {
                if !persona.is_empty() {
                    persona.to_owned()
                } else if !fallback.is_empty() {
                    fallback.to_owned()
                } else {
                    steam_id.to_owned()
                }
            },
        }
    }

    /// Letter of the generated avatar: that of the listed account, otherwise
    /// the first letter of the persona or login name given.
    pub fn initial(&self, steam_id: &str, fallback: &str, persona: &str) -> (result: String)
        ensures
            result@ == match self.index_of(steam_id@) {
                Some(i) => views(self.accounts@)[i].avatar_initial_view(),
                None => initial_of(
                    if persona@.len() > 0 {
                        persona@
                    } else {
                        fallback@
                    },
                ),
            },
    {
        match self.account(steam_id) {
            Some(account) => account.avatar_initial(),
            None => {
                let label = if !persona.is_empty() { persona } else { fallback };
                let chars = chars_of(label);
                if chars.len() > 0 {
                    char_uppercase(chars[0])
                } else {
                    String::from_str("?")
                }
            },
        }
    }

    /// Login name of a listed account, empty for another id.
    pub fn account_name(&self, account_id: &str) -> (result: String)
        ensures
            result@ == match self.index_of(account_id@) {
                Some(i) => views(self.accounts@)[i].account_name,
                None => seq![],
            },
    {
        match self.account(account_id) {
            Some(account) => account.account_name.clone(),
            None => String::new(),
        }
    }
}

/// Label of an account in the tray menu. Masked, it shows only a persona
/// name that differs from the login name, or `Account <index>`; otherwise the
/// display name, followed by the login name in brackets when they differ.
pub open spec fn account_label_text(a: AccountView, index: nat, masked: bool) -> Seq<char> {
    if masked {
        if a.persona_name.len() > 0 && a.persona_name != a.account_name {
            a.persona_name
        } else {
            "Account "@ + decimal(index)
        }
    } else if a.account_name.len() > 0 && a.account_name != a.display_name_view() {
        a.display_name_view() + " ("@ + a.account_name + ")"@
    } else {
        a.display_name_view()
    }
}

pub fn account_label(account: &SteamAccount, index: usize, masked: bool) -> (result: String)
    ensures
        result@ == account_label_text(account@, index as nat, masked),
{
    if masked {
        if !account.persona_name.as_str().is_empty() && !text_eq(account.persona_name.as_str(), account.account_name.as_str()) {
            return account.persona_name.clone();
        }
        let mut out = String::from_str("Account ");
        proof {
            reveal_strlit("Account ");
        }
        out.append(wide_decimal_string(index as u128).as_str());
        return out;
    }
    let shown = account.display_name();
    if !account.account_name.as_str().is_empty() && !text_eq(account.account_name.as_str(), shown) {
        let mut out = shown.to_owned();
        out.append(" (");
        out.append(account.account_name.as_str());
        out.append(")");
        out
    } else {
        shown.to_owned()
    }
}

/// How a session ended, as its history row shows it: `Running` while it
/// runs, else the reason's label with the exit code Steam reported, if any.
pub open spec fn session_end_view(active: bool, reason: Seq<char>, exit_code: Option<i32>) -> Seq<char> {
    if active {
        "Running"@
    } else {
        match exit_code {
            Some(code) => end_reason_text(reason) + " (code "@ + signed_decimal(code as int) + ")"@,
            None => end_reason_text(reason),
        }
    }
}

pub fn session_end_text(active: bool, end_reason: &str, exit_code: Option<i32>) -> (result: String)
    ensures
        result@ == session_end_view(active, end_reason@, exit_code),
{
    if active {
        return String::from_str("Running");
    }
    let mut out = end_reason_label(end_reason);
    match exit_code {
        Some(code) => {
            out.append(" (code ");
            out.append(signed_decimal_string(code as i64).as_str());
            out.append(")");
        },
        None => {},
    }
    out
}

/// `Full` for a session counted from its launch, `Partial` otherwise.
pub fn coverage_label(tracking_mode: &str) -> (result: String)
    ensures
        result@ == if tracking_mode@ == "full"@ { "Full"@ } else { "Partial"@ },
{
    if text_eq(tracking_mode, "full") {
        String::from_str("Full")
    } else {
        String::from_str("Partial")
    }
}

/// The name a session row shows: the persona name, else the login name,
/// else the Steam id.
pub fn session_display_name<'a>(persona_name: &'a str, account_name: &'a str, account_id: &'a str) -> (result: &'a str)
    ensures
        result@ == if persona_name@.len() > 0 {
            persona_name@
        } else if account_name@.len() > 0 {
            account_name@
        } else {
            account_id@
        },
{
    if !persona_name.is_empty() {
        persona_name
    } else if !account_name.is_empty() {
        account_name
    } else {
        account_id
    }
}

/// The status line: the pending message, else how many accounts are listed.
pub fn status_text(count: usize, message: &str) -> (result: String)
    ensures
        result@ == if message@.len() == 0 {
            decimal(count as nat) + if count == 1 { " account"@ } else { " accounts"@ }
        } else {
            message@
        },
{
    if !message.is_empty() {
        return message.to_owned();
    }
    let mut out = decimal_string(count as u64);
    if count == 1 {
        out.append(" account");
    } else {
        out.append(" accounts");
    }
    out
}

/// The tooltip of an account's playtime, from its formatted total and its
/// number of sessions.
pub fn playtime_tooltip(total_text: &str, sessions: usize) -> (result: String)
    ensures
        result@ == if sessions == 0 {
            "No local session detected yet."@
        } else {
            total_text@ + " in "@ + decimal(sessions as nat) + " session(s). Open the card details for the per-game breakdown."@
        },
{
    if sessions == 0 {
        return String::from_str("No local session detected yet.");
    }
    let mut out = total_text.to_owned();
    out.append(" in ");
    out.append(decimal_string(sessions as u64).as_str());
    out.append(" session(s). Open the card details for the per-game breakdown.");
    out
}

/// The summary line of a playtime report: the formatted total, the number
/// of games and the number of sessions.
pub fn report_summary(total_text: &str, game_count: usize, session_count: u64) -> (result: String)
    ensures
        result@ == "Total: "@ + total_text@ + "  |  "@ + decimal(game_count as nat) + " "@ + (if game_count == 1 { "game"@ } else { "games"@ })
            + "  |  "@ + decimal(session_count as nat) + " "@ + (if session_count == 1 { "session"@ } else { "sessions"@ }),
{
    let mut out = String::from_str("Total: ");
    out.append(total_text);
    out.append("  |  ");
    out.append(decimal_string(game_count as u64).as_str());
    out.append(" ");
    if game_count == 1 {
        out.append("game");
    } else {
        out.append("games");
    }
    out.append("  |  ");
    out.append(decimal_string(session_count).as_str());
    out.append(" ");
    if session_count == 1 {
        out.append("session");
    } else {
        out.append("sessions");
    }
    out
}

pub open spec fn by_login() -> spec_fn(Seq<char>) -> spec_fn(AccountView) -> bool {
    |name: Seq<char>| |a: AccountView| same_ignoring_ascii_case(a.account_name, name)
}

/// The name a switch is reported under: the display name of the account
/// with this id, else of the account whose login name is `fallback`
/// (ignoring ASCII case), else `fallback` itself.
pub open spec fn reported_name(accounts: Seq<AccountView>, steam_id: Seq<char>, fallback: Seq<char>) -> Seq<char> {
    match first_where(accounts, by_id()(steam_id)) {
        Some(i) => accounts[i].display_name_view(),
        None => match first_where(accounts, by_login()(fallback)) {
            Some(j) => accounts[j].display_name_view(),
            None => fallback,
        },
    }
}

pub fn reported_account_name(accounts: &Vec<SteamAccount>, steam_id: &str, fallback: &str) -> (result: String)
    ensures
        result@ == reported_name(views(accounts@), steam_id@, fallback@),
{
    let ghost vs = views(accounts@);
    let mut index: usize = 0;
    while index < accounts.len()
        invariant
            vs == views(accounts@),
            index <= accounts@.len(),
            forall|j: int| 0 <= j < index ==> !by_id()(steam_id@)(#[trigger] vs[j]),
        decreases accounts@.len() - index,
    {
        proof {
            assert(vs[index as int] == accounts@[index as int]@);
        }
        if text_eq(accounts[index].steam_id.as_str(), steam_id) {
            proof {
                lemma_first_where_found(vs, by_id()(steam_id@), index as int);
            }
            return accounts[index].display_name().to_owned();
        }
        index += 1;
    }
    proof {
        lemma_first_where_none(vs, by_id()(steam_id@));
    }
    let mut k: usize = 0;
    while k < accounts.len()
        invariant
            vs == views(accounts@),
            first_where(vs, by_id()(steam_id@)) is None,
            k <= accounts@.len(),
            forall|j: int| 0 <= j < k ==> !by_login()(fallback@)(#[trigger] vs[j]),
        decreases accounts@.len() - k,
    {
        proof {
            assert(vs[k as int] == accounts@[k as int]@);
        }
        if eq_ignore_ascii_case(accounts[k].account_name.as_str(), fallback) {
            proof {
                lemma_first_where_found(vs, by_login()(fallback@), k as int);
            }
            return accounts[k].display_name().to_owned();
        }
        k += 1;
    }
    proof {
        lemma_first_where_none(vs, by_login()(fallback@));
    }
    fallback.to_owned()
}

/// The status a switch leaves: the account was already active, Steam was
/// only started, or the switch was made.
pub fn switch_message(outcome: &SwitchOutcome, display: &str) -> (result: String)
    ensures
        result@ == match outcome {
            SwitchOutcome::AlreadyActive { .. } => display@ + " is already the active Steam account."@,
            SwitchOutcome::Started { .. } => "Steam started on "@ + display@ + "."@,
            SwitchOutcome::Switched { .. } => "Switched to "@ + display@ + "."@,
        },
{
    match outcome {
        SwitchOutcome::AlreadyActive { .. } => {
            let mut out = display.to_owned();
            out.append(" is already the active Steam account.");
            out
        },
        SwitchOutcome::Started { .. } => {
            let mut out = String::from_str("Steam started on ");
            out.append(display);
            out.append(".");
            out
        },
        SwitchOutcome::Switched { .. } => {
            let mut out = String::from_str("Switched to ");
            out.append(display);
            out.append(".");
            out
        },
    }
}

/// The statistics line of a playtime report, from its formatted parts.
pub fn statistics_line(since: &str, session_count: usize, average: &str, longest: &str) -> (result: String)
    ensures
        result@ == "Since: "@ + since@ + "  |  Detailed sessions: "@ + decimal(session_count as nat) + "  |  Average: "@
            + average@ + "  |  Longest: "@ + longest@,
{
    let mut out = String::from_str("Since: ");
    out.append(since);
    out.append("  |  Detailed sessions: ");
    out.append(decimal_string(session_count as u64).as_str());
    out.append("  |  Average: ");
    out.append(average);
    out.append("  |  Longest: ");
    out.append(longest);
    out
}

/// When the detailed history starts, and the playtime counted before it
/// without dates, when there is any.
pub fn notice_line(started: &str, legacy: Option<&str>) -> (result: String)
    ensures
        result@ == match legacy {
            Some(l) => "Detailed history starts "@ + started@ + ". An earlier "@ + l@
                + " aggregate remains in the totals without invented dates."@,
            None => "Detailed history starts "@ + started@ + "."@,
        },
{
    let mut out = String::from_str("Detailed history starts ");
    out.append(started);
    match legacy {
        Some(l) => {
            out.append(". An earlier ");
            out.append(l);
            out.append(" aggregate remains in the totals without invented dates.");
        },
        None => {
            out.append(".");
        },
    }
    out
}

/// The lines of a session's tooltip. The account is `hidden` when names are
/// masked; a missing pid or process start time reads `Unavailable`.
pub open spec fn tooltip_lines(
    session_id: Seq<char>,
    account_name: Seq<char>,
    masked: bool,
    launched: Seq<char>,
    counted_from: Seq<char>,
    root_pid: Option<u32>,
    created: Option<Seq<char>>,
    tracking_mode: Seq<char>,
    end_reason: Seq<char>,
) -> Seq<char> {
    "Session ID: "@ + session_id
        + "\nAccount: "@ + (if masked { "hidden"@ } else { account_name })
        + "\nSteam launch detected: "@ + launched
        + "\nPlaytime counted from: "@ + counted_from
        + "\nRoot PID: "@ + (match root_pid { Some(p) => decimal(p as nat), None => "Unavailable"@ })
        + "\nProcess created: "@ + (match created { Some(c) => c, None => "Unavailable"@ })
        + "\nCoverage: "@ + (if tracking_mode == "full"@ { "Full"@ } else { "Partial"@ })
        + "\nEnd reason: "@ + end_reason_text(end_reason)
}

pub fn session_tooltip(
    session_id: &str,
    account_name: &str,
    masked: bool,
    launched: &str,
    counted_from: &str,
    root_pid: Option<u32>,
    created: Option<&str>,
    tracking_mode: &str,
    end_reason: &str,
) -> (result: String)
    ensures
        result@ == tooltip_lines(
            session_id@,
            account_name@,
            masked,
            launched@,
            counted_from@,
            root_pid,
            match created {
                Some(c) => Some(c@),
                None => None,
            },
            tracking_mode@,
            end_reason@,
        ),
{
    let mut out = String::from_str("Session ID: ");
    out.append(session_id);
    out.append("\nAccount: ");
    if masked {
        out.append("hidden");
    } else {
        out.append(account_name);
    }
    out.append("\nSteam launch detected: ");
    out.append(launched);
    out.append("\nPlaytime counted from: ");
    out.append(counted_from);
    out.append("\nRoot PID: ");
    match root_pid {
        Some(p) => out.append(decimal_string(p as u64).as_str()),
        None => out.append("Unavailable"),
    }
    out.append("\nProcess created: ");
    match created {
        Some(c) => out.append(c),
        None => out.append("Unavailable"),
    }
    out.append("\nCoverage: ");
    out.append(coverage_label(tracking_mode).as_str());
    out.append("\nEnd reason: ");
    out.append(end_reason_label(end_reason).as_str());
    out
}

/// The summary line of the report for this machine: the formatted total,
/// the number of games and the number of accounts that played.
pub fn machine_summary(total_text: &str, game_count: usize, account_count: usize) -> (result: String)
    ensures
        result@ == "Total: "@ + total_text@ + "  |  "@ + decimal(game_count as nat) + " "@ + (if game_count == 1 { "game"@ } else { "games"@ })
            + "  |  "@ + decimal(account_count as nat) + " "@ + (if account_count == 1 { "account"@ } else { "accounts"@ }),
{
    let mut out = String::from_str("Total: ");
    out.append(total_text);
    out.append("  |  ");
    out.append(decimal_string(game_count as u64).as_str());
    out.append(" ");
    if game_count == 1 {
        out.append("game");
    } else {
        out.append("games");
    }
    out.append("  |  ");
    out.append(decimal_string(account_count as u64).as_str());
    out.append(" ");
    if account_count == 1 {
        out.append("account");
    } else {
        out.append("accounts");
    }
    out
}

} // verus!
