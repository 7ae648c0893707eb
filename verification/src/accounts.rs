//! The accounts Steam remembers locally: reading them from `loginusers.vdf`,
//! and the edits made to Steam's login files when switching or removing one.

use vstd::prelude::*;
use crate::model::{AccountView, SteamAccount, join_path, joined, parse_timestamp, parse_vdf_bool, timestamp_value, vdf_bool};
use crate::pathdetect::{path_starts_with, paths_equal, same_path, starts_with_path};
use crate::text::{
    chars_of, lemma_text_less_irreflexive, lemma_text_less_total, lemma_text_less_transitive, lowercase,
    text_less, text_less_exec, to_lowercase,
};
use crate::text::{
    all_digits, digits_value, first_where, lemma_first_where_found, lemma_first_where_none, parse_str_integer,
    parsed_integer, same_ignoring_ascii_case, eq_ignore_ascii_case, signed_decimal, signed_decimal_string, text_eq,
    wide_decimal_string, decimal, decimal_string,
};
use crate::error::SteamError;
use crate::vdf::{
    debug_quoted, debug_text, key_matches, law_insert_other_lookup, law_insert_then_lookup,
    lemma_update_value_keeps_positions, rebuild, reach, removed, texts,
};
use crate::text::{ascii_lower_seq, first_non_white, end_non_white, trimmed};
use vstd::string::StringExecFns;
use crate::vdf::{
    VdfNode, VdfObject, inserted, key_position, keys_distinct, lemma_distinct_key_position, lemma_set_value_wf,
    lemma_tree_wf, lookup, node_wf, lemma_no_match, law_remove_then_lookup,
};

verus! {

// ------------------------------------------------------------ listing

/// Text stored under `key`, empty when missing or not a text.
pub open spec fn text_field(info: Seq<(Seq<char>, VdfNode)>, key: Seq<char>) -> Seq<char> {
    match lookup(info, key) {
        Some(VdfNode::Text(t)) => t,
        _ => seq![],
    }
}

/// Flag stored under `key`, `false` when missing or not a text.
pub open spec fn flag_field(info: Seq<(Seq<char>, VdfNode)>, key: Seq<char>) -> bool {
    match lookup(info, key) {
        Some(VdfNode::Text(t)) => vdf_bool(t),
        _ => false,
    }
}

pub open spec fn timestamp_field(info: Seq<(Seq<char>, VdfNode)>) -> Option<i64> {
    match lookup(info, "Timestamp"@) {
        Some(VdfNode::Text(t)) => timestamp_value(t),
        _ => None,
    }
}

/// The account described by one entry of the `users` object.
pub open spec fn entry_account(steam_id: Seq<char>, info: Seq<(Seq<char>, VdfNode)>) -> AccountView {
    AccountView {
        steam_id,
        account_name: text_field(info, "AccountName"@),
        persona_name: text_field(info, "PersonaName"@),
        avatar_path: None,
        most_recent: flag_field(info, "MostRecent"@),
        remember_password: flag_field(info, "RememberPassword"@),
        allow_auto_login: flag_field(info, "AllowAutoLogin"@),
        wants_offline_mode: flag_field(info, "WantsOfflineMode"@),
        skip_offline_mode_warning: flag_field(info, "SkipOfflineModeWarning"@),
        timestamp: timestamp_field(info),
    }
}

/// The accounts of the `users` entries that are objects, in file order.
pub open spec fn listed(users: Seq<(Seq<char>, VdfNode)>) -> Seq<AccountView>
    decreases users.len(),
{
    if users.len() == 0 {
        seq![]
    } else {
        let rest = listed(users.drop_last());
        match users.last().1 {
            VdfNode::Tree(info) => rest.push(entry_account(users.last().0, info)),
            VdfNode::Text(_) => rest,
        }
    }
}

/// The accounts of a `loginusers.vdf` document, in file order.
pub open spec fn loginusers_accounts(data: Seq<(Seq<char>, VdfNode)>) -> Seq<AccountView> {
    match lookup(data, "users"@) {
        Some(VdfNode::Tree(users)) => listed(users),
        _ => seq![],
    }
}

pub open spec fn views(accounts: Seq<SteamAccount>) -> Seq<AccountView> {
    accounts.map_values(|a: SteamAccount| a@)
}

/// `Timestamp`, or 0 when there is none.
pub open spec fn recency(a: AccountView) -> int {
    match a.timestamp {
        Some(t) => t as int,
        None => 0,
    }
}

/// `a` is listed before `b`: more recent first, then the `MostRecent` flag,
/// then the lower cased login name.
pub open spec fn listed_before(a: AccountView, b: AccountView) -> bool {
    ||| recency(a) > recency(b)
    ||| recency(a) == recency(b) && a.most_recent && !b.most_recent
    ||| recency(a) == recency(b) && a.most_recent == b.most_recent && text_less(
        lowercase(a.account_name),
        lowercase(b.account_name),
    )
}

/// Neither account goes before the other.
pub open spec fn same_place(a: AccountView, b: AccountView) -> bool {
    recency(a) == recency(b) && a.most_recent == b.most_recent && lowercase(a.account_name) == lowercase(
        b.account_name,
    )
}

pub open spec fn is_permutation(p: Seq<int>, n: nat) -> bool {
    &&& p.len() == n
    &&& forall|k: int| 0 <= k < n ==> 0 <= #[trigger] p[k] < n
    &&& forall|k: int, l: int| 0 <= k < n && 0 <= l < n && k != l ==> #[trigger] p[k] != #[trigger] p[l]
}

/// `r` is `orig` reordered by `p`, sorted by `listed_before`, with accounts
/// in the same place kept in their input order.
pub open spec fn stable_sorted(r: Seq<AccountView>, orig: Seq<AccountView>, p: Seq<int>) -> bool {
    &&& r.len() == orig.len()
    &&& is_permutation(p, orig.len())
    &&& forall|k: int| 0 <= k < r.len() ==> #[trigger] r[k] == orig[p[k]]
    &&& forall|k: int, l: int| 0 <= k < l < r.len() ==> !listed_before(#[trigger] r[l], #[trigger] r[k])
    &&& forall|k: int, l: int|
        0 <= k < l < r.len() && same_place(#[trigger] r[k], #[trigger] r[l]) ==> p[k] < p[l]
}

/// The stable sort of `orig` by `listed_before`.
pub open spec fn listing_order(r: Seq<AccountView>, orig: Seq<AccountView>) -> bool {
    exists|p: Seq<int>| stable_sorted(r, orig, p)
}

proof fn lemma_before_transitive(a: AccountView, b: AccountView, c: AccountView)
    requires
        listed_before(a, b),
        listed_before(b, c),
    ensures
        listed_before(a, c),
{
    if recency(a) == recency(b) && recency(b) == recency(c) && a.most_recent == b.most_recent
        && b.most_recent == c.most_recent {
        lemma_text_less_transitive(lowercase(a.account_name), lowercase(b.account_name), lowercase(c.account_name));
    }
}

proof fn lemma_before_asymmetric(a: AccountView, b: AccountView)
    ensures
        !(listed_before(a, b) && listed_before(b, a)),
        !listed_before(a, a),
{
    lemma_text_less_total(lowercase(a.account_name), lowercase(b.account_name));
    lemma_text_less_irreflexive(lowercase(a.account_name));
}

proof fn lemma_same_place_swaps(a: AccountView, b: AccountView, c: AccountView)
    requires
        same_place(a, b),
        listed_before(a, c),
    ensures
        listed_before(b, c),
{
}

/// Inserting `x` before the first account it goes before keeps the listing
/// a stable sort of the accounts seen so far.
proof fn lemma_insert_keeps_order(r: Seq<AccountView>, orig: Seq<AccountView>, p: Seq<int>, q: int, x: AccountView)
    requires
        stable_sorted(r, orig, p),
        0 <= q <= r.len(),
        forall|k: int| 0 <= k < q ==> !listed_before(x, #[trigger] r[k]),
        q < r.len() ==> listed_before(x, r[q]),
    ensures
        stable_sorted(r.insert(q, x), orig.push(x), p.insert(q, orig.len() as int)),
{
    let n = orig.len() as int;
    let r2 = r.insert(q, x);
    let o2 = orig.push(x);
    let p2 = p.insert(q, n);
    r.insert_ensures(q, x);
    p.insert_ensures(q, n);
    assert forall|k: int| 0 <= k < r2.len() implies #[trigger] r2[k] == o2[p2[k]] by {
        if k < q {
            assert(r2[k] == r[k] && p2[k] == p[k]);
        } else if k > q {
            assert(r2[k] == r[k - 1] && p2[k] == p[k - 1]);
        }
    }
    assert forall|k: int| 0 <= k < n + 1 implies 0 <= #[trigger] p2[k] < n + 1 by {
        if k < q {
            assert(p2[k] == p[k]);
        } else if k > q {
            assert(p2[k] == p[k - 1]);
        }
    }
    assert forall|k: int, l: int| 0 <= k < n + 1 && 0 <= l < n + 1 && k != l implies #[trigger] p2[k] != #[trigger] p2[l] by {
        let k0 = if k < q { k } else { k - 1 };
        let l0 = if l < q { l } else { l - 1 };
        if k != q && l != q {
            assert(p2[k] == p[k0] && p2[l] == p[l0]);
        } else if k == q {
            assert(p2[l] == p[l0]);
        } else {
            assert(p2[k] == p[k0]);
        }
    }
    assert forall|k: int, l: int| 0 <= k < l < r2.len() implies !listed_before(#[trigger] r2[l], #[trigger] r2[k]) by {
        if l < q {
            assert(r2[k] == r[k] && r2[l] == r[l]);
        } else if k > q {
            assert(r2[k] == r[k - 1] && r2[l] == r[l - 1]);
        } else if l == q {
            assert(r2[k] == r[k]);
        } else if k == q {
            assert(r2[l] == r[l - 1]);
            lemma_before_asymmetric(x, r[q]);
            if l - 1 > q && listed_before(r[l - 1], x) {
                lemma_before_transitive(r[l - 1], x, r[q]);
            }
        } else {
            assert(r2[k] == r[k] && r2[l] == r[l - 1]);
        }
    }
    assert forall|k: int, l: int| 0 <= k < l < r2.len() && same_place(#[trigger] r2[k], #[trigger] r2[l]) implies p2[k] < p2[l] by {
        if l < q {
            assert(r2[k] == r[k] && r2[l] == r[l] && p2[k] == p[k] && p2[l] == p[l]);
        } else if k > q {
            assert(r2[k] == r[k - 1] && r2[l] == r[l - 1] && p2[k] == p[k - 1] && p2[l] == p[l - 1]);
        } else if l == q {
            assert(p2[k] == p[k]);
        } else if k == q {
            assert(r2[l] == r[l - 1]);
            lemma_same_place_swaps(x, r[l - 1], r[q]);
            lemma_before_asymmetric(r[q], r[q]);
        } else {
            assert(r2[k] == r[k] && r2[l] == r[l - 1] && p2[k] == p[k] && p2[l] == p[l - 1]);
        }
    }
}

/// The parts of an account its place in the listing depends on.
struct SortKey {
    recency: i64,
    recent: bool,
    name: Vec<char>,
}

spec fn key_of(key: SortKey, a: AccountView) -> bool {
    &&& key.recency == recency(a)
    &&& key.recent == a.most_recent
    &&& key.name@ == lowercase(a.account_name)
}

fn key_before(a: &SortKey, b: &SortKey) -> (result: bool)
    ensures
        forall|x: AccountView, y: AccountView| key_of(*a, x) && key_of(*b, y) ==> result == listed_before(x, y),
{
    if a.recency != b.recency {
        a.recency > b.recency
    } else if a.recent != b.recent {
        a.recent
    } else {
        text_less_exec(a.name.as_slice(), b.name.as_slice())
    }
}

fn read_bool(object: &VdfObject, key: &str) -> (result: bool)
    ensures
        result == flag_field(object@, key@),
{
    match object.get_str(key) {
        Some(value) => parse_vdf_bool(value),
        None => false,
    }
}

fn read_text(object: &VdfObject, key: &str) -> (result: String)
    ensures
        result@ == text_field(object@, key@),
{
    match object.get_str(key) {
        Some(value) => value.to_owned(),
        None => String::new(),
    }
}

fn read_timestamp(object: &VdfObject) -> (result: Option<i64>)
    ensures
        result == timestamp_field(object@),
{
    match object.get_str("Timestamp") {
        Some(value) => parse_timestamp(value),
        None => None,
    }
}

/// Every account in a `loginusers.vdf` document, most recently used first;
/// no avatar is looked up here.
pub fn list_accounts(data: &VdfObject) -> (result: Vec<SteamAccount>)
    ensures
        listing_order(views(result@), loginusers_accounts(data@)),
{
    let users = match data.get_object("users") {
        Some(users) => users,
        None => {
            let empty: Vec<SteamAccount> = Vec::new();
            proof {
                assert(stable_sorted(views(empty@), loginusers_accounts(data@), seq![]));
            }
            return empty;
        },
    };
    let entries = users.iter();
    let ghost es = users@;
    let mut out: Vec<SteamAccount> = Vec::new();
    let mut keys: Vec<SortKey> = Vec::new();
    let ghost mut orig: Seq<AccountView> = seq![];
    let ghost mut perm: Seq<int> = seq![];
    let mut index: usize = 0;
    proof {
        assert(es.take(0) =~= Seq::<(Seq<char>, VdfNode)>::empty());
        assert(stable_sorted(views(out@), orig, perm));
    }
    while index < entries.len()
        invariant
            entries@.len() == es.len(),
            forall|i: int| 0 <= i < es.len() ==> (#[trigger] entries@[i]).0@ == es[i].0 && entries@[i].1@ == es[i].1,
            index <= es.len(),
            orig == listed(es.take(index as int)),
            keys@.len() == out@.len(),
            stable_sorted(views(out@), orig, perm),
            forall|k: int| 0 <= k < out@.len() ==> key_of(#[trigger] keys@[k], out@[k]@),
        decreases es.len() - index,
    {
        let steam_id = entries[index].0;
        let value = entries[index].1;
        proof {
            assert(es.take(index + 1).drop_last() =~= es.take(index as int));
            assert(es.take(index + 1).last() == es[index as int]);
        }
        match value.as_object() {
            Some(info) => {
                let account_name = read_text(info, "AccountName");
                let lowered = to_lowercase(account_name.as_str());
                let account = SteamAccount {
                    steam_id: steam_id.to_owned(),
                    persona_name: read_text(info, "PersonaName"),
                    avatar_path: None,
                    most_recent: read_bool(info, "MostRecent"),
                    remember_password: read_bool(info, "RememberPassword"),
                    allow_auto_login: read_bool(info, "AllowAutoLogin"),
                    wants_offline_mode: read_bool(info, "WantsOfflineMode"),
                    skip_offline_mode_warning: read_bool(info, "SkipOfflineModeWarning"),
                    timestamp: read_timestamp(info),
                    account_name,
                };
                let key = SortKey {
                    recency: match account.timestamp {
                        Some(t) => t,
                        None => 0,
                    },
                    recent: account.most_recent,
                    name: chars_of(lowered.as_str()),
                };
                let ghost x = account@;
                proof {
                    assert(x == entry_account(es[index as int].0, info@));
                    assert(key_of(key, x));
                }
                let mut q: usize = 0;
                while q < keys.len() && !key_before(&key, &keys[q])
                    invariant
                        q <= keys@.len(),
                        keys@.len() == out@.len(),
                        key_of(key, x),
                        forall|k: int| 0 <= k < out@.len() ==> key_of(#[trigger] keys@[k], out@[k]@),
                        forall|k: int| 0 <= k < q ==> !listed_before(x, #[trigger] views(out@)[k]),
                    decreases keys@.len() - q,
                {
                    proof {
                        assert(key_of(keys@[q as int], out@[q as int]@));
                        assert(views(out@)[q as int] == out@[q as int]@);
                    }
                    q += 1;
                }
                proof {
                    if q < keys@.len() {
                        assert(key_of(keys@[q as int], out@[q as int]@));
                        assert(views(out@)[q as int] == out@[q as int]@);
                    }
                    lemma_insert_keeps_order(views(out@), orig, perm, q as int, x);
                }
                let ghost old_out = out@;
                let ghost old_keys = keys@;
                out.insert(q, account);
                keys.insert(q, key);
                proof {
                    assert(views(out@) =~= views(old_out).insert(q as int, x));
                    perm = perm.insert(q as int, orig.len() as int);
                    orig = orig.push(x);
                    assert forall|k: int| 0 <= k < out@.len() implies key_of(#[trigger] keys@[k], out@[k]@) by {
                        if k < q {
                            assert(keys@[k] == old_keys[k] && out@[k] == old_out[k]);
                        } else if k > q {
                            assert(keys@[k] == old_keys[k - 1] && out@[k] == old_out[k - 1]);
                        }
                    }
                }
            },
            None => {},
        }
        index += 1;
    }
    proof {
        assert(es.take(index as int) =~= es);
    }
    out
}


// ---------------------------------------------------------- login flags

/// One user's object once its auto-login flags are written: the target gets
/// `1` and the fields of a remembered login, every other account `0`.
pub open spec fn flagged_info(info: Seq<(Seq<char>, VdfNode)>, is_target: bool, stamp: Seq<char>) -> Seq<(Seq<char>, VdfNode)> {
    let bit = if is_target {
        "1"@
    } else {
        "0"@
    };
    let base = inserted(inserted(info, "MostRecent"@, VdfNode::Text(bit)), "AllowAutoLogin"@, VdfNode::Text(bit));
    if is_target {
        inserted(
            inserted(
                inserted(inserted(base, "RememberPassword"@, VdfNode::Text("1"@)), "WantsOfflineMode"@, VdfNode::Text("0"@)),
                "SkipOfflineModeWarning"@,
                VdfNode::Text("0"@),
            ),
            "Timestamp"@,
            VdfNode::Text(stamp),
        )
    } else {
        base
    }
}

/// The `users` entries with every object flagged; `target` names the entry,
/// by its exact key, that Steam should log into.
pub open spec fn flagged_users(users: Seq<(Seq<char>, VdfNode)>, target: Option<Seq<char>>, stamp: Seq<char>) -> Seq<(Seq<char>, VdfNode)> {
    Seq::new(
        users.len(),
        |i: int|
            (
                users[i].0,
                match users[i].1 {
                    VdfNode::Tree(info) => VdfNode::Tree(flagged_info(info, target == Some(users[i].0), stamp)),
                    VdfNode::Text(t) => VdfNode::Text(t),
                },
            ),
    )
}

/// A `loginusers.vdf` document once the `users` object, when there is one,
/// has been flagged.
pub open spec fn flagged(data: Seq<(Seq<char>, VdfNode)>, target: Option<Seq<char>>, stamp: Seq<char>) -> Seq<(Seq<char>, VdfNode)> {
    match key_position(data, "users"@) {
        Some(p) => match data[p].1 {
            VdfNode::Tree(users) => data.update(p, (data[p].0, VdfNode::Tree(flagged_users(users, target, stamp)))),
            VdfNode::Text(_) => data,
        },
        None => data,
    }
}

fn flag_users(users: &mut VdfObject, target: Option<&str>, stamp: &str)
    requires
        old(users).wf(),
    ensures
        final(users).wf(),
        final(users)@ == flagged_users(old(users)@, match target {
            Some(t) => Some(t@),
            None => None,
        }, stamp@),
{
    let ghost es = users@;
    let ghost tgt = match target {
        Some(t) => Some(t@),
        None => None,
    };
    let mut ids: Vec<String> = Vec::new();
    {
        let keys = users.keys();
        let mut k: usize = 0;
        while k < keys.len()
            invariant
                keys@.len() == es.len(),
                forall|i: int| 0 <= i < es.len() ==> (#[trigger] keys@[i])@ == es[i].0,
                k <= keys@.len(),
                ids@.len() == k,
                forall|i: int| 0 <= i < k ==> (#[trigger] ids@[i])@ == es[i].0,
            decreases keys@.len() - k,
        {
            ids.push(keys[k].to_owned());
            k += 1;
        }
    }
    proof {
        lemma_tree_wf(es);
    }
    let mut index: usize = 0;
    while index < ids.len()
        invariant
            ids@.len() == es.len(),
            forall|i: int| 0 <= i < es.len() ==> (#[trigger] ids@[i])@ == es[i].0,
            index <= es.len(),
            users.wf(),
            keys_distinct(es),
            tgt == match target {
                Some(t) => Some(t@),
                None => None::<Seq<char>>,
            },
            users@.len() == es.len(),
            forall|j: int| 0 <= j < es.len() ==> (#[trigger] users@[j]).0 == es[j].0,
            forall|j: int| index <= j < es.len() ==> #[trigger] users@[j] == es[j],
            forall|j: int| 0 <= j < index ==> #[trigger] users@[j] == flagged_users(es, tgt, stamp@)[j],
        decreases es.len() - index,
    {
        let key = ids[index].as_str();
        let ghost before = users@;
        proof {
            assert(keys_distinct(before)) by {
                assert forall|a: int, b: int| 0 <= a < before.len() && 0 <= b < before.len() && a != b implies
                    !crate::vdf::key_matches(#[trigger] before[a].0, #[trigger] before[b].0) by {
                    assert(before[a].0 == es[a].0 && before[b].0 == es[b].0);
                }
            }
            lemma_distinct_key_position(before, index as int);
            assert(before[index as int].0 == key@);
            lemma_tree_wf(before);
        }
        let is_target = match target {
            Some(t) => text_eq(key, t),
            None => false,
        };
        match users.get_object_mut(key) {
            Some(info) => {
                let bit = if is_target { "1" } else { "0" };
                info.set_string("MostRecent", bit);
                info.set_string("AllowAutoLogin", bit);
                if is_target {
                    info.set_string("RememberPassword", "1");
                    info.set_string("WantsOfflineMode", "0");
                    info.set_string("SkipOfflineModeWarning", "0");
                    info.set_string("Timestamp", stamp);
                }
                proof {
                    assert(node_wf(before[index as int].1));
                }
            },
            None => {},
        }
        proof {
            let i = index as int;
            assert(is_target == (tgt == Some(es[i].0)));
            if before[i].1 is Tree {
                lemma_set_value_wf(before, i, users@[i].1);
            } else {
                assert(users@ == before);
            }
            assert(users@[i] == flagged_users(es, tgt, stamp@)[i]);
        }
        index += 1;
    }
    proof {
        assert(users@ =~= flagged_users(es, tgt, stamp@));
    }
}

/// Clears `MostRecent`/`AllowAutoLogin` of every account so Steam shows its
/// login window.
pub fn clear_loginusers_auto_login(data: &mut VdfObject)
    requires
        old(data).wf(),
    ensures
        final(data).wf(),
        final(data)@ == flagged(old(data)@, None, seq![]),
{
    let ghost before = data@;
    proof {
        lemma_tree_wf(before);
        reveal_strlit("");
        assert(""@ =~= Seq::<char>::empty());
    }
    match data.get_object_mut("users") {
        Some(users) => {
            proof {
                let p = key_position(before, "users"@).unwrap();
                assert(node_wf(before[p].1));
            }
            flag_users(users, None, "");
            proof {
                let p = key_position(before, "users"@).unwrap();
                lemma_set_value_wf(before, p, VdfNode::Tree(final(users)@));
            }
        },
        None => {},
    }
}

/// Flags the account stored under `steam_id` so Steam logs into it on its
/// next start; every other account loses the flags. `timestamp` is the time
/// of the switch.
pub fn prepare_loginusers_auto_login(data: &mut VdfObject, steam_id: &str, timestamp: i64)
    requires
        old(data).wf(),
    ensures
        final(data).wf(),
        final(data)@ == flagged(old(data)@, Some(steam_id@), signed_decimal(timestamp as int)),
{
    let ghost before = data@;
    let stamp = signed_decimal_string(timestamp);
    proof {
        lemma_tree_wf(before);
    }
    match data.get_object_mut("users") {
        Some(users) => {
            proof {
                let p = key_position(before, "users"@).unwrap();
                assert(node_wf(before[p].1));
            }
            flag_users(users, Some(steam_id), stamp.as_str());
            proof {
                let p = key_position(before, "users"@).unwrap();
                lemma_set_value_wf(before, p, VdfNode::Tree(final(users)@));
            }
        },
        None => {},
    }
}


// ------------------------------------------------------------- choosing

/// `identifier` names the account: its exact id, or its login or persona
/// name once both are lower cased.
pub open spec fn identifies(a: AccountView, identifier: Seq<char>) -> bool {
    ||| a.steam_id == identifier
    ||| lowercase(a.account_name) == lowercase(identifier)
    ||| lowercase(a.persona_name) == lowercase(identifier)
}

/// Position of the first account that `identifier` names.
pub open spec fn found_index(accounts: Seq<AccountView>, identifier: Seq<char>) -> Option<int> {
    first_where(accounts, |a: AccountView| identifies(a, identifier))
}

/// The first account that `identifier` names.
pub fn find_account<'a>(accounts: &'a Vec<SteamAccount>, identifier: &str) -> (result: Option<&'a SteamAccount>)
    ensures
        match found_index(views(accounts@), identifier@) {
            Some(i) => result is Some && result.unwrap()@ == views(accounts@)[i],
            None => result is None,
        },
{
    let ghost vs = views(accounts@);
    let lowered = to_lowercase(identifier);
    let mut index: usize = 0;
    while index < accounts.len()
        invariant
            vs == views(accounts@),
            lowered@ == lowercase(identifier@),
            index <= accounts@.len(),
            forall|j: int| 0 <= j < index ==> !identifies(#[trigger] vs[j], identifier@),
        decreases accounts@.len() - index,
    {
        let account = &accounts[index];
        let by_name = to_lowercase(account.account_name.as_str());
        let by_persona = to_lowercase(account.persona_name.as_str());
        let matched = text_eq(account.steam_id.as_str(), identifier) || text_eq(by_name.as_str(), lowered.as_str())
            || text_eq(by_persona.as_str(), lowered.as_str());
        proof {
            assert(vs[index as int] == account@);
        }
        if matched {
            proof {
                lemma_first_where_found(vs, |a: AccountView| identifies(a, identifier@), index as int);
            }
            return Some(account);
        }
        index += 1;
    }
    proof {
        lemma_first_where_none(vs, |a: AccountView| identifies(a, identifier@));
    }
    None
}

/// `i` holds the highest recency, and no later account holds as much.
pub open spec fn is_last_most_recent(accounts: Seq<AccountView>, i: int) -> bool {
    &&& 0 <= i < accounts.len()
    &&& forall|j: int| 0 <= j < accounts.len() ==> recency(#[trigger] accounts[j]) <= recency(accounts[i])
    &&& forall|j: int| i < j < accounts.len() ==> recency(#[trigger] accounts[j]) < recency(accounts[i])
}

/// The account Steam is logged into: the first one flagged `MostRecent`,
/// otherwise the last of those with the latest timestamp.
pub open spec fn current_index(accounts: Seq<AccountView>) -> Option<int> {
    match first_where(accounts, |a: AccountView| a.most_recent) {
        Some(i) => Some(i),
        None => if accounts.len() == 0 {
            None
        } else {
            Some(choose|i: int| is_last_most_recent(accounts, i))
        },
    }
}

/// The account Steam is really logged into: `loginusers.vdf` is written by
/// Steam itself.
pub fn current_account<'a>(accounts: &'a Vec<SteamAccount>) -> (result: Option<&'a SteamAccount>)
    ensures
        match current_index(views(accounts@)) {
            Some(i) => result is Some && result.unwrap()@ == views(accounts@)[i],
            None => result is None,
        },
{
    let ghost vs = views(accounts@);
    let mut index: usize = 0;
    while index < accounts.len()
        invariant
            vs == views(accounts@),
            index <= accounts@.len(),
            forall|j: int| 0 <= j < index ==> !(#[trigger] vs[j]).most_recent,
        decreases accounts@.len() - index,
    {
        proof {
            assert(vs[index as int] == accounts@[index as int]@);
        }
        if accounts[index].most_recent {
            proof {
                lemma_first_where_found(vs, |a: AccountView| a.most_recent, index as int);
            }
            return Some(&accounts[index]);
        }
        index += 1;
    }
    proof {
        lemma_first_where_none(vs, |a: AccountView| a.most_recent);
    }
    if accounts.len() == 0 {
        return None;
    }
    let mut best: usize = 0;
    let mut best_key: i64 = match accounts[0].timestamp {
        Some(t) => t,
        None => 0,
    };
    let mut k: usize = 1;
    proof {
        assert(vs[0] == accounts@[0]@);
    }
    while k < accounts.len()
        invariant
            vs == views(accounts@),
            1 <= k <= accounts@.len(),
            best < k,
            best_key == recency(vs[best as int]),
            forall|j: int| 0 <= j < k ==> recency(#[trigger] vs[j]) <= best_key,
            forall|j: int| best < j < k ==> recency(#[trigger] vs[j]) < best_key,
        decreases accounts@.len() - k,
    {
        let key = match accounts[k].timestamp {
            Some(t) => t,
            None => 0,
        };
        proof {
            assert(vs[k as int] == accounts@[k as int]@);
        }
        if key >= best_key {
            best = k;
            best_key = key;
        }
        k += 1;
    }
    proof {
        assert(is_last_most_recent(vs, best as int));
        let c = choose|i: int| is_last_most_recent(vs, i);
        if c < best {
            assert(recency(vs[best as int]) < recency(vs[c]));
        } else if c > best {
            assert(recency(vs[c]) < recency(vs[best as int]));
        }
        assert(vs[best as int] == accounts@[best as int]@);
    }
    Some(&accounts[best])
}

// ------------------------------------------------------------- removing

/// The `loginusers.vdf` document once the account stored under `steam_id`
/// is taken out of its `users` object.
pub open spec fn without_login_user(data: Seq<(Seq<char>, VdfNode)>, steam_id: Seq<char>) -> Seq<(Seq<char>, VdfNode)> {
    match key_position(data, "users"@) {
        Some(p) => match data[p].1 {
            VdfNode::Tree(users) => data.update(p, (data[p].0, VdfNode::Tree(removed(users, steam_id)))),
            VdfNode::Text(_) => data,
        },
        None => data,
    }
}

/// Every listed account comes from an entry of `users` with its id as key.
proof fn lemma_listed_keys(users: Seq<(Seq<char>, VdfNode)>)
    ensures
        forall|k: int|
            0 <= k < listed(users).len() ==> exists|j: int| 0 <= j < users.len() && users[j].0 == (#[trigger] listed(users)[k]).steam_id,
    decreases users.len(),
{
    if users.len() > 0 {
        let rest = users.drop_last();
        lemma_listed_keys(rest);
        assert forall|k: int| 0 <= k < listed(users).len() implies exists|j: int|
            0 <= j < users.len() && users[j].0 == (#[trigger] listed(users)[k]).steam_id by {
            if k < listed(rest).len() {
                let j = choose|j: int| 0 <= j < rest.len() && rest[j].0 == listed(rest)[k].steam_id;
                assert(users[j] == rest[j]);
            } else {
                assert(users[users.len() - 1].0 == listed(users)[k].steam_id);
            }
        }
    }
}

/// Law: once an account is removed, `loginusers.vdf` lists no account under
/// its id, whatever the case of its letters.
pub proof fn law_removed_account_is_not_listed(data: Seq<(Seq<char>, VdfNode)>, steam_id: Seq<char>)
    requires
        node_wf(VdfNode::Tree(data)),
    ensures
        forall|k: int|
            0 <= k < loginusers_accounts(without_login_user(data, steam_id)).len() ==> !key_matches(
                (#[trigger] loginusers_accounts(without_login_user(data, steam_id))[k]).steam_id,
                steam_id,
            ),
{
    let after = without_login_user(data, steam_id);
    lemma_tree_wf(data);
    match key_position(data, "users"@) {
        Some(p) => match data[p].1 {
            VdfNode::Tree(users) => {
                let kept = removed(users, steam_id);
                lemma_update_value_keeps_positions(data, p, VdfNode::Tree(kept), "users"@);
                assert(lookup(after, "users"@) == Some(VdfNode::Tree(kept)));
                assert(node_wf(data[p].1));
                law_remove_then_lookup(users, steam_id);
                lemma_no_match(kept, steam_id);
                lemma_listed_keys(kept);
                assert forall|k: int| 0 <= k < listed(kept).len() implies !key_matches(
                    (#[trigger] listed(kept)[k]).steam_id,
                    steam_id,
                ) by {
                    let j = choose|j: int| 0 <= j < kept.len() && kept[j].0 == listed(kept)[k].steam_id;
                    assert(!key_matches(kept[j].0, steam_id));
                }
            },
            VdfNode::Text(_) => {},
        },
        None => {},
    }
}

/// Removes the account stored under `steam_id` from the `users` object.
pub fn remove_login_user(data: &mut VdfObject, steam_id: &str)
    requires
        old(data).wf(),
    ensures
        final(data).wf(),
        final(data)@ == without_login_user(old(data)@, steam_id@),
{
    let ghost before = data@;
    proof {
        lemma_tree_wf(before);
    }
    match data.get_object_mut("users") {
        Some(users) => {
            proof {
                let p = key_position(before, "users"@).unwrap();
                assert(node_wf(before[p].1));
            }
            users.remove(steam_id);
            proof {
                let p = key_position(before, "users"@).unwrap();
                lemma_set_value_wf(before, p, VdfNode::Tree(final(users)@));
            }
        },
        None => {},
    }
}

/// Where `config.vdf` keeps the accounts Steam knows.
pub open spec fn account_keys() -> Seq<Seq<char>> {
    seq!["InstallConfigStore"@, "Software"@, "Valve"@, "Steam"@, "Accounts"@]
}

/// Removes `account_name` from the accounts section of `config.vdf`; `true`
/// when there was one to remove, the only case where the file is written.
pub fn remove_config_account(data: &mut VdfObject, account_name: &str) -> (result: bool)
    requires
        old(data).wf(),
    ensures
        match reach(old(data)@, account_keys(), false) {
            Some(accounts) => {
                &&& result == key_position(accounts, account_name@) is Some
                &&& final(data)@ == rebuild(old(data)@, account_keys(), removed(accounts, account_name@))
            },
            None => !result && final(data)@ == old(data)@,
        },
{
    let parts = vec!["InstallConfigStore", "Software", "Valve", "Steam", "Accounts"];
    proof {
        assert(texts(parts@) =~= account_keys());
    }
    match data.path_mut(parts.as_slice(), false) {
        Some(accounts) => accounts.remove(account_name).is_some(),
        None => false,
    }
}

/// Steam's userdata folders are named by the low 32 bits of a SteamID64:
/// the id less the first individual id, when that is a number above zero
/// that fits 32 bits.
pub open spec fn userdata_id(steam_id: Seq<char>) -> Option<u32> {
    match parsed_integer(steam_id, false, 0, u64::MAX as int) {
        Some(v) => if all_digits(steam_id) && 76_561_197_960_265_728 < v && v - 76_561_197_960_265_728
            <= u32::MAX as int {
            Some((v - 76_561_197_960_265_728) as u32)
        } else {
            None
        },
        None => None,
    }
}

/// The userdata folder number of a public individual SteamID64, or the
/// refusal to touch any folder for another text.
pub fn userdata_account_id(steam_id: &str) -> (result: Result<u32, SteamError>)
    ensures
        match userdata_id(steam_id@) {
            Some(id) => result == Ok::<u32, SteamError>(id),
            None => result matches Err(SteamError::Config(m))
                && m@ == "Refusing to delete userdata for invalid steamid: "@ + steam_id@,
        },
{
    let chars = crate::text::chars_of(steam_id);
    let mut all: bool = true;
    let mut index: usize = 0;
    while index < chars.len()
        invariant
            chars@ == steam_id@,
            index <= chars@.len(),
            all == (forall|k: int| 0 <= k < index ==> crate::text::is_digit(#[trigger] chars@[k])),
        decreases chars@.len() - index,
    {
        let c = chars[index];
        if !('0' <= c && c <= '9') {
            all = false;
        }
        index += 1;
    }
    let parsed = parse_str_integer(steam_id, false, 0, u64::MAX as i128);
    let base: i128 = 76_561_197_960_265_728;
    match parsed {
        Some(v) => {
            if all && base < v && v - base <= u32::MAX as i128 {
                return Ok((v - base) as u32);
            }
        },
        None => {},
    }
    let mut message = String::from_str("Refusing to delete userdata for invalid steamid: ");
    proof {
        reveal_strlit("Refusing to delete userdata for invalid steamid: ");
    }
    message.append(steam_id);
    Err(SteamError::config(message))
}


/// The folder of userdata number `account_id` inside `userdata_root`.
pub fn userdata_folder(userdata_root: &str, account_id: u32) -> (result: String)
    ensures
        result@ == joined(userdata_root@, decimal(account_id as nat)),
{
    join_path(userdata_root, decimal_string(account_id as u64).as_str())
}

/// A folder may only be deleted when it lies strictly inside the userdata
/// folder: `target` and `userdata_root` arrive resolved, so a symbolic link
/// that leads elsewhere is refused.
pub fn check_userdata_target(userdata_root: &str, target: &str) -> (result: Result<(), SteamError>)
    ensures
        path_starts_with(target@, userdata_root@) && !paths_equal(target@, userdata_root@) ==> result is Ok,
        !(path_starts_with(target@, userdata_root@) && !paths_equal(target@, userdata_root@)) ==> (result matches Err(
            SteamError::Config(m),
        ) && m@ == "Refusing to delete path outside userdata: "@ + target@),
{
    if starts_with_path(target, userdata_root) && !same_path(target, userdata_root) {
        return Ok(());
    }
    let mut message = String::from_str("Refusing to delete path outside userdata: ");
    proof {
        reveal_strlit("Refusing to delete path outside userdata: ");
    }
    message.append(target);
    Err(SteamError::config(message))
}


// ------------------------------------------------------------- switching

/// What a switch request actually did.
#[derive(Debug, Clone, PartialEq, Eq)]
pub enum SwitchOutcome {
    /// Steam was restarted with the requested account selected.
    Switched { account_name: String },
    /// The requested account was already the live session; nothing changed.
    AlreadyActive { account_name: String },
    /// The right account was already selected and Steam was closed, so the
    /// client was simply started.
    Started { account_name: String },
}

pub open spec fn outcome_name(outcome: SwitchOutcome) -> Seq<char> {
    match outcome {
        SwitchOutcome::Switched { account_name } => account_name@,
        SwitchOutcome::AlreadyActive { account_name } => account_name@,
        SwitchOutcome::Started { account_name } => account_name@,
    }
}

impl SwitchOutcome {
    pub fn account_name(&self) -> (result: &str)
        ensures
            result@ == outcome_name(*self),
    {
        match self {
            SwitchOutcome::Switched { account_name } => account_name.as_str(),
            SwitchOutcome::AlreadyActive { account_name } => account_name.as_str(),
            SwitchOutcome::Started { account_name } => account_name.as_str(),
        }
    }

    pub fn already_active(&self) -> (result: bool)
        ensures
            result == (*self is AlreadyActive),
    {
        match self {
            SwitchOutcome::AlreadyActive { .. } => true,
            _ => false,
        }
    }

    pub fn started(&self) -> (result: bool)
        ensures
            result == (*self is Started),
    {
        match self {
            SwitchOutcome::Started { .. } => true,
            _ => false,
        }
    }
}

/// The steps of a switch, decided before anything is touched. They are run
/// in this order: stop Steam, write the auto-login account and read it back,
/// flag the account in `loginusers.vdf`, start Steam.
#[derive(Debug)]
pub struct SwitchPlan {
    pub outcome: SwitchOutcome,
    pub stop_first: bool,
    pub write_auto_login: bool,
    pub flag_steam_id: Option<String>,
    pub launch: bool,
}

/// Name a switch logs into: the login name of the account found, otherwise
/// the identifier as it was given.
pub open spec fn switch_name(found: Option<AccountView>, identifier: Seq<char>) -> Seq<char> {
    match found {
        Some(a) => a.account_name,
        None => identifier,
    }
}

/// Steam already runs, or is set to run, the requested account.
pub open spec fn is_current(current: Option<AccountView>, name: Seq<char>) -> bool {
    match current {
        Some(c) => same_ignoring_ascii_case(c.account_name, name),
        None => false,
    }
}

pub open spec fn opt_view(a: Option<&SteamAccount>) -> Option<AccountView> {
    match a {
        Some(x) => Some(x@),
        None => None,
    }
}

/// The login name a switch to `identifier` uses: the login name of the
/// account found, otherwise the identifier as it was given.
pub fn switch_target(found: Option<&SteamAccount>, identifier: &str) -> (result: String)
    ensures
        result@ == switch_name(opt_view(found), identifier@),
{
    match found {
        Some(account) => account.account_name.clone(),
        None => identifier.to_owned(),
    }
}

/// Plans a switch to `identifier`. `found` is the account it names,
/// `current` the account Steam is logged into and `running` whether the
/// client runs; the last two only matter when `restart` is asked.
///
/// Steam is single instance, so a switch goes through a restart; a switch
/// to the live account changes nothing, and when Steam is closed with the
/// right account selected it is only started.
pub fn plan_switch(
    found: Option<&SteamAccount>,
    identifier: &str,
    restart: bool,
    running: bool,
    current: Option<&SteamAccount>,
) -> (result: Result<SwitchPlan, SteamError>)
    ensures
        ({
            let name = switch_name(opt_view(found), identifier@);
            if name.len() == 0 {
                result matches Err(SteamError::Config(m)) && m@ == "Cannot switch to an empty account name."@
            } else if restart && is_current(opt_view(current), name) {
                &&& result is Ok
                &&& outcome_name(result->Ok_0.outcome) == name
                &&& (if running {
                    result->Ok_0.outcome is AlreadyActive && !result->Ok_0.launch
                } else {
                    result->Ok_0.outcome is Started && result->Ok_0.launch
                })
                &&& !result->Ok_0.stop_first
                &&& !result->Ok_0.write_auto_login
                &&& result->Ok_0.flag_steam_id is None
            } else {
                &&& result is Ok
                &&& result->Ok_0.outcome is Switched
                &&& outcome_name(result->Ok_0.outcome) == name
                &&& result->Ok_0.stop_first == restart
                &&& result->Ok_0.write_auto_login
                &&& result->Ok_0.launch == restart
                &&& match found {
                    Some(a) => result->Ok_0.flag_steam_id matches Some(id) && id@ == a.steam_id@,
                    None => result->Ok_0.flag_steam_id is None,
                }
            }
        }),
{
    let account_name = match found {
        Some(account) => account.account_name.clone(),
        None => identifier.to_owned(),
    };
    if account_name.as_str().is_empty() {
        return Err(SteamError::config(String::from_str("Cannot switch to an empty account name.")));
    }
    if restart {
        let is_target = match current {
            Some(c) => eq_ignore_ascii_case(c.account_name.as_str(), account_name.as_str()),
            None => false,
        };
        if is_target {
            if running {
                return Ok(
                    SwitchPlan {
                        outcome: SwitchOutcome::AlreadyActive { account_name },
                        stop_first: false,
                        write_auto_login: false,
                        flag_steam_id: None,
                        launch: false,
                    },
                );
            }
            return Ok(
                SwitchPlan {
                    outcome: SwitchOutcome::Started { account_name },
                    stop_first: false,
                    write_auto_login: false,
                    flag_steam_id: None,
                    launch: true,
                },
            );
        }
    }
    let flag_steam_id = match found {
        Some(account) => Some(account.steam_id.clone()),
        None => None,
    };
    Ok(
        SwitchPlan {
            outcome: SwitchOutcome::Switched { account_name },
            stop_first: restart,
            write_auto_login: true,
            flag_steam_id,
            launch: restart,
        },
    )
}

/// The auto-login account read back after writing `account_name`: a write
/// that silently did not stick is reported instead of surfacing later as
/// "Steam logged into the wrong account".
pub fn check_auto_login(stored: &str, account_name: &str) -> (result: Result<(), SteamError>)
    ensures
        stored@ == account_name@ ==> result is Ok,
        stored@ != account_name@ ==> (result matches Err(SteamError::Config(m)) && m@
            == "Steam kept the previous auto-login account ("@ + debug_text(stored@) + " instead of "@ + debug_text(
            account_name@,
        ) + "). The registry file may be read-only or the Steam client is rewriting it."@),
{
    if text_eq(stored, account_name) {
        return Ok(());
    }
    let mut message = String::from_str("Steam kept the previous auto-login account (");
    message.append(debug_quoted(stored).as_str());
    message.append(" instead of ");
    message.append(debug_quoted(account_name).as_str());
    message.append("). The registry file may be read-only or the Steam client is rewriting it.");
    Err(SteamError::config(message))
}


// ------------------------------------------------------------------ laws

proof fn lemma_vdf_bits()
    ensures
        vdf_bool("1"@),
        !vdf_bool("0"@),
{
    reveal_strlit("1");
    reveal_strlit("0");
    reveal_strlit("true");
    reveal_strlit("yes");
    assert(first_non_white("1"@) == 0);
    assert(end_non_white("1"@) == 1);
    assert(trimmed("1"@) =~= "1"@);
    assert(ascii_lower_seq("1"@) =~= "1"@);
    assert(first_non_white("0"@) == 0);
    assert(end_non_white("0"@) == 1);
    assert(trimmed("0"@) =~= "0"@);
    assert(ascii_lower_seq("0"@) =~= "0"@);
    assert(ascii_lower_seq("0"@)[0] != "1"@[0]);
    assert(ascii_lower_seq("0"@).len() != "true"@.len());
    assert(ascii_lower_seq("0"@).len() != "yes"@.len());
}

/// The flags read back from a flagged user object.
proof fn lemma_flagged_flags(info: Seq<(Seq<char>, VdfNode)>, is_target: bool, stamp: Seq<char>)
    ensures
        flag_field(flagged_info(info, is_target, stamp), "MostRecent"@) == is_target,
        flag_field(flagged_info(info, is_target, stamp), "AllowAutoLogin"@) == is_target,
        is_target ==> flag_field(flagged_info(info, is_target, stamp), "RememberPassword"@),
        is_target ==> lookup(flagged_info(info, is_target, stamp), "WantsOfflineMode"@) == Some(VdfNode::Text("0"@)),
        is_target ==> lookup(flagged_info(info, is_target, stamp), "SkipOfflineModeWarning"@) == Some(
            VdfNode::Text("0"@),
        ),
        is_target ==> !flag_field(flagged_info(info, is_target, stamp), "WantsOfflineMode"@),
        is_target ==> !flag_field(flagged_info(info, is_target, stamp), "SkipOfflineModeWarning"@),
{
    lemma_vdf_bits();
    reveal_strlit("MostRecent");
    reveal_strlit("AllowAutoLogin");
    reveal_strlit("RememberPassword");
    reveal_strlit("WantsOfflineMode");
    reveal_strlit("SkipOfflineModeWarning");
    reveal_strlit("Timestamp");
    let bit = if is_target {
        "1"@
    } else {
        "0"@
    };
    let a = inserted(info, "MostRecent"@, VdfNode::Text(bit));
    let b = inserted(a, "AllowAutoLogin"@, VdfNode::Text(bit));
    let mr = "MostRecent"@;
    let al = "AllowAutoLogin"@;
    let rp = "RememberPassword"@;
    let wo = "WantsOfflineMode"@;
    let so = "SkipOfflineModeWarning"@;
    let ts = "Timestamp"@;
    assert(ascii_lower_seq(al).len() != ascii_lower_seq(mr).len());
    law_insert_then_lookup(info, mr, VdfNode::Text(bit));
    law_insert_other_lookup(a, al, VdfNode::Text(bit), mr);
    law_insert_then_lookup(a, al, VdfNode::Text(bit));
    if is_target {
        let c = inserted(b, rp, VdfNode::Text("1"@));
        let d = inserted(c, wo, VdfNode::Text("0"@));
        let e = inserted(d, so, VdfNode::Text("0"@));
        assert(ascii_lower_seq(rp).len() != ascii_lower_seq(mr).len());
        assert(ascii_lower_seq(rp).len() != ascii_lower_seq(al).len());
        assert(ascii_lower_seq(wo).len() != ascii_lower_seq(mr).len());
        assert(ascii_lower_seq(wo).len() != ascii_lower_seq(al).len());
        assert(ascii_lower_seq(wo)[0] != ascii_lower_seq(rp)[0]);
        assert(ascii_lower_seq(so).len() != ascii_lower_seq(mr).len());
        assert(ascii_lower_seq(so).len() != ascii_lower_seq(al).len());
        assert(ascii_lower_seq(so).len() != ascii_lower_seq(rp).len());
        assert(ascii_lower_seq(ts).len() != ascii_lower_seq(mr).len());
        assert(ascii_lower_seq(ts).len() != ascii_lower_seq(al).len());
        assert(ascii_lower_seq(ts).len() != ascii_lower_seq(rp).len());
        law_insert_other_lookup(b, rp, VdfNode::Text("1"@), mr);
        law_insert_other_lookup(b, rp, VdfNode::Text("1"@), al);
        law_insert_then_lookup(b, rp, VdfNode::Text("1"@));
        law_insert_other_lookup(c, wo, VdfNode::Text("0"@), mr);
        law_insert_other_lookup(c, wo, VdfNode::Text("0"@), al);
        law_insert_other_lookup(c, wo, VdfNode::Text("0"@), rp);
        law_insert_other_lookup(d, so, VdfNode::Text("0"@), mr);
        law_insert_other_lookup(d, so, VdfNode::Text("0"@), al);
        law_insert_other_lookup(d, so, VdfNode::Text("0"@), rp);
        law_insert_other_lookup(e, ts, VdfNode::Text(stamp), mr);
        law_insert_other_lookup(e, ts, VdfNode::Text(stamp), al);
        law_insert_other_lookup(e, ts, VdfNode::Text(stamp), rp);
        assert(ascii_lower_seq(so).len() != ascii_lower_seq(wo).len());
        assert(ascii_lower_seq(ts).len() != ascii_lower_seq(wo).len());
        assert(ascii_lower_seq(ts).len() != ascii_lower_seq(so).len());
        law_insert_then_lookup(c, wo, VdfNode::Text("0"@));
        law_insert_other_lookup(d, so, VdfNode::Text("0"@), wo);
        law_insert_other_lookup(e, ts, VdfNode::Text(stamp), wo);
        law_insert_then_lookup(d, so, VdfNode::Text("0"@));
        law_insert_other_lookup(e, ts, VdfNode::Text(stamp), so);
    }
}

/// The accounts listed from flagged users: each is flagged `MostRecent` and
/// allowed to log in automatically exactly when its id is the target, and
/// the target remembers its password.
proof fn lemma_listed_flagged(users: Seq<(Seq<char>, VdfNode)>, target: Option<Seq<char>>, stamp: Seq<char>)
    ensures
        forall|k: int|
            0 <= k < listed(flagged_users(users, target, stamp)).len() ==> {
                let a = #[trigger] listed(flagged_users(users, target, stamp))[k];
                &&& a.most_recent == (target == Some(a.steam_id))
                &&& a.allow_auto_login == (target == Some(a.steam_id))
                &&& target == Some(a.steam_id) ==> a.remember_password
                &&& target == Some(a.steam_id) ==> !a.wants_offline_mode && !a.skip_offline_mode_warning
            },
    decreases users.len(),
{
    let f = flagged_users(users, target, stamp);
    if users.len() > 0 {
        lemma_listed_flagged(users.drop_last(), target, stamp);
        assert(f.drop_last() =~= flagged_users(users.drop_last(), target, stamp));
        let last = users.last();
        match last.1 {
            VdfNode::Tree(info) => {
                lemma_flagged_flags(info, target == Some(last.0), stamp);
            },
            VdfNode::Text(_) => {},
        }
    }
}

/// Every field of `a` is what `entry` stores under that field's own key:
/// `entry` is the user object of `a`'s id.
pub open spec fn read_from_entry(a: AccountView, entry: (Seq<char>, VdfNode)) -> bool {
    &&& entry.0 == a.steam_id
    &&& entry.1 matches VdfNode::Tree(info) && {
        &&& a.account_name == text_field(info, "AccountName"@)
        &&& a.persona_name == text_field(info, "PersonaName"@)
        &&& a.most_recent == flag_field(info, "MostRecent"@)
        &&& a.remember_password == flag_field(info, "RememberPassword"@)
        &&& a.allow_auto_login == flag_field(info, "AllowAutoLogin"@)
        &&& a.wants_offline_mode == flag_field(info, "WantsOfflineMode"@)
        &&& a.skip_offline_mode_warning == flag_field(info, "SkipOfflineModeWarning"@)
        &&& a.timestamp == timestamp_field(info)
        &&& a.avatar_path is None
    }
}

/// Law: each account listed from a `loginusers.vdf` document comes from one
/// user object of the `users` object, keyed by the account's id, and each of
/// its flags is read from that object's own key: `remember_password` from
/// `RememberPassword`, whatever `AllowAutoLogin` holds, and so on.
pub proof fn law_listed_accounts_read_their_entries(data: Seq<(Seq<char>, VdfNode)>, users: Seq<(Seq<char>, VdfNode)>)
    requires
        lookup(data, "users"@) == Some(VdfNode::Tree(users)),
    ensures
        forall|k: int|
            0 <= k < loginusers_accounts(data).len() ==> exists|j: int|
                0 <= j < users.len() && read_from_entry(#[trigger] loginusers_accounts(data)[k], users[j]),
{
    lemma_listed_read_from(users);
}

proof fn lemma_listed_read_from(users: Seq<(Seq<char>, VdfNode)>)
    ensures
        forall|k: int|
            0 <= k < listed(users).len() ==> exists|j: int|
                0 <= j < users.len() && read_from_entry(#[trigger] listed(users)[k], users[j]),
    decreases users.len(),
{
    if users.len() > 0 {
        let front = users.drop_last();
        lemma_listed_read_from(front);
        let rest = listed(front);
        let n = users.len() - 1;
        assert forall|k: int| 0 <= k < listed(users).len() implies exists|j: int|
            0 <= j < users.len() && read_from_entry(#[trigger] listed(users)[k], users[j]) by {
            if k < rest.len() {
                assert(listed(users)[k] == rest[k]);
                let j = choose|j: int| 0 <= j < front.len() && read_from_entry(rest[k], front[j]);
                assert(users[j] == front[j]);
            } else {
                assert(users[n] == users.last());
                assert(read_from_entry(listed(users)[k], users[n]));
            }
        }
    }
}

/// Law: once the auto-login flags are cleared, no account is flagged as
/// the most recent one or allowed to log in automatically.
pub proof fn law_cleared_accounts_have_no_auto_login(data: Seq<(Seq<char>, VdfNode)>, stamp: Seq<char>)
    ensures
        forall|k: int|
            0 <= k < loginusers_accounts(flagged(data, None, stamp)).len() ==> {
                let a = #[trigger] loginusers_accounts(flagged(data, None, stamp))[k];
                !a.most_recent && !a.allow_auto_login
            },
{
    law_flagged_accounts(data, None, stamp);
}

/// Law: once an account is prepared for auto-login, it is the only one
/// flagged as the most recent and allowed to log in automatically, and it
/// remembers its password and starts online, with the offline warning
/// shown.
pub proof fn law_flagged_accounts(data: Seq<(Seq<char>, VdfNode)>, target: Option<Seq<char>>, stamp: Seq<char>)
    ensures
        forall|k: int|
            0 <= k < loginusers_accounts(flagged(data, target, stamp)).len() ==> {
                let a = #[trigger] loginusers_accounts(flagged(data, target, stamp))[k];
                &&& a.most_recent == (target == Some(a.steam_id))
                &&& a.allow_auto_login == (target == Some(a.steam_id))
                &&& target == Some(a.steam_id) ==> a.remember_password
                &&& target == Some(a.steam_id) ==> !a.wants_offline_mode && !a.skip_offline_mode_warning
            },
{
    match key_position(data, "users"@) {
        Some(p) => {
            assert(crate::vdf::is_first_match(data, "users"@, choose|i: int| crate::vdf::is_first_match(data, "users"@, i)));
            match data[p].1 {
                VdfNode::Tree(users) => {
                    lemma_update_value_keeps_positions(data, p, VdfNode::Tree(flagged_users(users, target, stamp)), "users"@);
                    lemma_listed_flagged(users, target, stamp);
                },
                VdfNode::Text(_) => {},
            }
        },
        None => {},
    }
}

} // verus!
