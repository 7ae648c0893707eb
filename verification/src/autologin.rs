//! The account Steam logs into on its next start, as `registry.vdf` keeps it
//! under `Registry/HKCU/Software/Valve/Steam`.

use vstd::prelude::*;
use vstd::string::StringExecFns;
use crate::accounts::text_field;
use crate::error::SteamError;
use crate::text::{ascii_lower_seq, ascii_lowercase, contains_text, has_infix};
use crate::vdf::{
    VdfNode, VdfObject, inserted, key_matches, law_insert_other_lookup, law_insert_then_lookup,
    law_walk_rebuild, lookup, reach, rebuild, texts, walk,
};

verus! {

/// Where the Steam section sits in `registry.vdf`.
pub open spec fn registry_keys() -> Seq<Seq<char>> {
    seq!["Registry"@, "HKCU"@, "Software"@, "Valve"@, "Steam"@]
}

/// Auto-login account name stored in a registry document, empty when there
/// is none.
pub open spec fn stored_auto_login(root: Seq<(Seq<char>, VdfNode)>) -> Seq<char> {
    match walk(root, registry_keys()) {
        Some(steam) => text_field(steam, "AutoLoginUser"@),
        None => seq![],
    }
}

/// The Steam section once it points at `account_name`; an empty name clears
/// the remembered login.
pub open spec fn with_auto_login(steam: Seq<(Seq<char>, VdfNode)>, account_name: Seq<char>) -> Seq<(Seq<char>, VdfNode)> {
    let remember = if account_name.len() == 0 {
        "0"@
    } else {
        "1"@
    };
    inserted(
        inserted(inserted(steam, "AutoLoginUser"@, VdfNode::Text(account_name)), "RememberPassword"@, VdfNode::Text(remember)),
        "AlreadyLoggedIn"@,
        VdfNode::Text("0"@),
    )
}

/// Auto-login account name of a parsed `registry.vdf`, empty when Steam has
/// none remembered.
pub fn read_auto_login(root: &VdfObject) -> (result: String)
    ensures
        result@ == stored_auto_login(root@),
{
    let parts = vec!["Registry", "HKCU", "Software", "Valve", "Steam"];
    proof {
        assert(texts(parts@) =~= registry_keys());
    }
    match root.path(parts.as_slice()) {
        Some(steam) => match steam.get_str("AutoLoginUser") {
            Some(value) => value.to_owned(),
            None => String::new(),
        },
        None => String::new(),
    }
}

/// Points a parsed `registry.vdf` at `account_name`, creating the Steam
/// section when it is missing (a text standing in its way is replaced).
pub fn write_auto_login(root: &mut VdfObject, account_name: &str) -> (result: Result<(), SteamError>)
    ensures
        result is Ok,
        reach(old(root)@, registry_keys(), true) is Some,
        final(root)@ == rebuild(
            old(root)@,
            registry_keys(),
            with_auto_login(reach(old(root)@, registry_keys(), true).unwrap(), account_name@),
        ),
{
    proof {
        crate::vdf::law_reach_create(root@, registry_keys());
    }
    let parts = vec!["Registry", "HKCU", "Software", "Valve", "Steam"];
    proof {
        assert(texts(parts@) =~= registry_keys());
    }
    match root.path_mut(parts.as_slice(), true) {
        Some(steam) => {
            steam.set_string("AutoLoginUser", account_name);
            let remember = if account_name.is_empty() { "0" } else { "1" };
            steam.set_string("RememberPassword", remember);
            steam.set_string("AlreadyLoggedIn", "0");
            Ok(())
        },
        None => Err(SteamError::config(String::from_str("Unable to locate or create the Steam registry section."))),
    }
}

/// Law: what `write_auto_login` stored is what `read_auto_login` reads back,
/// the password is remembered exactly when a name was written, and Steam is
/// told it is not logged in yet; an empty document names no account.
pub proof fn law_auto_login_round_trip(root: Seq<(Seq<char>, VdfNode)>, account_name: Seq<char>)
    ensures
        ({
            let written = rebuild(root, registry_keys(), with_auto_login(reach(root, registry_keys(), true).unwrap(), account_name));
            &&& stored_auto_login(written) == account_name
            &&& stored_auto_login(seq![]) == Seq::<char>::empty()
            &&& walk(written, registry_keys()) matches Some(steam) && lookup(steam, "RememberPassword"@) == Some(
                VdfNode::Text(if account_name.len() == 0 { "0"@ } else { "1"@ }),
            ) && lookup(steam, "AlreadyLoggedIn"@) == Some(VdfNode::Text("0"@))
        }),
{
    crate::vdf::law_reach_create(root, registry_keys());
    let steam = reach(root, registry_keys(), true).unwrap();
    let written = with_auto_login(steam, account_name);
    law_walk_rebuild(root, registry_keys(), written);
    let remember = if account_name.len() == 0 {
        "0"@
    } else {
        "1"@
    };
    let first = inserted(steam, "AutoLoginUser"@, VdfNode::Text(account_name));
    let second = inserted(first, "RememberPassword"@, VdfNode::Text(remember));
    reveal_strlit("AutoLoginUser");
    reveal_strlit("RememberPassword");
    reveal_strlit("AlreadyLoggedIn");
    assert(ascii_lower_seq("RememberPassword"@).len() != ascii_lower_seq("AutoLoginUser"@).len());
    assert(ascii_lower_seq("AlreadyLoggedIn"@).len() != ascii_lower_seq("AutoLoginUser"@).len());
    law_insert_then_lookup(steam, "AutoLoginUser"@, VdfNode::Text(account_name));
    law_insert_other_lookup(first, "RememberPassword"@, VdfNode::Text(remember), "AutoLoginUser"@);
    law_insert_other_lookup(second, "AlreadyLoggedIn"@, VdfNode::Text("0"@), "AutoLoginUser"@);
    assert(ascii_lower_seq("AlreadyLoggedIn"@).len() != ascii_lower_seq("RememberPassword"@).len());
    law_insert_then_lookup(first, "RememberPassword"@, VdfNode::Text(remember));
    law_insert_other_lookup(second, "AlreadyLoggedIn"@, VdfNode::Text("0"@), "RememberPassword"@);
    law_insert_then_lookup(second, "AlreadyLoggedIn"@, VdfNode::Text("0"@));
}

/// A write refused by the file system: when the text speaks of a permission,
/// the likely cause (a write-protected `registry.vdf`) and its remedy are
/// named after it.
pub open spec fn explained_failure(path: Seq<char>, text: Seq<char>) -> Seq<char> {
    let lowered = ascii_lower_seq(text);
    if has_infix(lowered, "permission denied"@) || has_infix(lowered, "operation not permitted"@) {
        text + ". "@ + path + " may be write-protected: `chattr +i` on Linux (or a read-only Steam folder) stops Steam from resetting auto-login. Remove the protection with `sudo chattr -i "@
            + path + "` and retry."@
    } else {
        text
    }
}

/// Message for a failed write of `registry.vdf` at `path`, from the text of
/// the error.
pub fn explain_write_failure(path: &str, error_text: &str) -> (result: String)
    ensures
        result@ == explained_failure(path@, error_text@),
{
    let lowered = ascii_lowercase(error_text);
    if contains_text(lowered.as_str(), "permission denied") || contains_text(lowered.as_str(), "operation not permitted") {
        let mut out = error_text.to_owned();
        out.append(". ");
        out.append(path);
        out.append(
            " may be write-protected: `chattr +i` on Linux (or a read-only Steam folder) stops Steam from resetting auto-login. Remove the protection with `sudo chattr -i ",
        );
        out.append(path);
        out.append("` and retry.");
        out
    } else {
        error_text.to_owned()
    }
}

} // verus!
