//! Non-secret metadata Steam does not store, such as the rank badge of each
//! account. The file itself is read and written by the application; this is
//! what it holds and how a choice is made.

use vstd::prelude::*;
use crate::model::{AccountView, SteamAccount};
use crate::ranks::{DEFAULT_TEMPLATE, UNRANKED, ladder_for, normalize, normalized, template};
use crate::text::{first_where, lemma_first_where_found, lemma_first_where_none, text_eq};

verus! {

/// What is stored for one account.
#[derive(Debug, Clone, Default)]
pub struct AccountMetadata {
    pub account_name: String,
    pub persona_name: String,
    /// Rank ladder chosen for this account ("marvel-rivals", "cs2", ...).
    pub template: String,
    pub rank: String,
}

/// The ladder and the value stored for one account.
#[derive(Debug, Clone, PartialEq, Eq)]
pub struct RankChoice {
    pub template: String,
    pub value: String,
}

/// Accounts are stored under their id, or their login name when the id is
/// unknown.
pub open spec fn account_key_of(a: AccountView) -> Seq<char> {
    if a.steam_id.len() == 0 {
        a.account_name
    } else {
        a.steam_id
    }
}

fn account_key(account: &SteamAccount) -> (result: String)
    ensures
        result@ == account_key_of(account@),
{
    if account.steam_id.as_str().is_empty() {
        account.account_name.clone()
    } else {
        account.steam_id.clone()
    }
}

/// A known ladder id stays, anything else falls back to the default ladder.
pub open spec fn chosen_template(id: Seq<char>) -> Seq<char> {
    if ladder_for(id) is Some {
        id
    } else {
        DEFAULT_TEMPLATE@
    }
}

/// The choice shown when no rank is stored: the default ladder, Unranked.
pub fn unranked_choice() -> (result: RankChoice)
    ensures
        result.template@ == DEFAULT_TEMPLATE@,
        result.value@ == UNRANKED@,
{
    RankChoice { template: DEFAULT_TEMPLATE.to_owned(), value: UNRANKED.to_owned() }
}

fn choose_template(id: &str) -> (result: String)
    ensures
        result@ == chosen_template(id@),
{
    match template(id) {
        Some(_) => id.to_owned(),
        None => DEFAULT_TEMPLATE.to_owned(),
    }
}

/// The ranks stored per account key, the first entry of a key being the one
/// that counts.
#[derive(Debug, Clone, Default)]
pub struct RankBook {
    pub accounts: Vec<(String, AccountMetadata)>,
}

pub open spec fn book_keys(accounts: Seq<(String, AccountMetadata)>) -> Seq<Seq<char>> {
    accounts.map_values(|e: (String, AccountMetadata)| e.0@)
}

/// Position of the entry stored under `key`.
pub open spec fn book_index(accounts: Seq<(String, AccountMetadata)>, key: Seq<char>) -> Option<int> {
    first_where(book_keys(accounts), |k: Seq<char>| k == key)
}

/// Ladder and value read back for an account whose entry holds `template`
/// and `rank`; accounts stored before templates existed have no template and
/// a Marvel Rivals rank.
pub open spec fn choice_from(template: Seq<char>, rank: Seq<char>) -> (Seq<char>, Seq<char>) {
    let t = chosen_template(template);
    (t, normalized(t, rank))
}

fn book_position(accounts: &Vec<(String, AccountMetadata)>, key: &str) -> (result: Option<usize>)
    ensures
        match book_index(accounts@, key@) {
            Some(i) => result matches Some(j) && j as int == i,
            None => result is None,
        },
{
    let ghost keys = book_keys(accounts@);
    let mut index: usize = 0;
    while index < accounts.len()
        invariant
            keys == book_keys(accounts@),
            index <= accounts@.len(),
            forall|j: int| 0 <= j < index ==> #[trigger] keys[j] != key@,
        decreases accounts@.len() - index,
    {
        proof {
            assert(keys[index as int] == accounts@[index as int].0@);
        }
        if text_eq(accounts[index].0.as_str(), key) {
            proof {
                lemma_first_where_found(keys, |k: Seq<char>| k == key@, index as int);
            }
            return Some(index);
        }
        index += 1;
    }
    proof {
        lemma_first_where_none(keys, |k: Seq<char>| k == key@);
    }
    None
}

impl RankBook {
    /// Ladder and value of an account: the default ladder and Unranked when
    /// nothing is stored, otherwise the stored value checked against the
    /// stored ladder.
    pub fn choice_for(&self, account: &SteamAccount) -> (result: RankChoice)
        ensures
            match book_index(self.accounts@, account_key_of(account@)) {
                Some(i) => (result.template@, result.value@) == choice_from(
                    self.accounts@[i].1.template@,
                    self.accounts@[i].1.rank@,
                ),
                None => result.template@ == DEFAULT_TEMPLATE@ && result.value@ == UNRANKED@,
            },
    {
        let key = account_key(account);
        match book_position(&self.accounts, key.as_str()) {
            Some(index) => {
                let metadata = &self.accounts[index].1;
                let template = choose_template(metadata.template.as_str());
                let value = normalize(template.as_str(), metadata.rank.as_str());
                RankChoice { template, value }
            },
            None => RankChoice { template: DEFAULT_TEMPLATE.to_owned(), value: UNRANKED.to_owned() },
        }
    }

    /// Stores a rank, checked against the chosen ladder, and returns what
    /// was stored. The entry also records the account's names.
    pub fn set_rank(&mut self, account: &SteamAccount, template: &str, value: &str) -> (result: RankChoice)
        ensures
            result.template@ == chosen_template(template@),
            result.value@ == normalized(chosen_template(template@), value@),
            ({
                let key = account_key_of(account@);
                match book_index(final(self).accounts@, key) {
                    Some(i) => {
                        &&& final(self).accounts@[i].1.template@ == result.template@
                        &&& final(self).accounts@[i].1.rank@ == result.value@
                        &&& final(self).accounts@[i].1.account_name@ == account.account_name@
                        &&& final(self).accounts@[i].1.persona_name@ == account.persona_name@
                    },
                    None => false,
                }
            }),
            forall|k: Seq<char>|
                k != account_key_of(account@) ==> #[trigger] book_index(final(self).accounts@, k) == book_index(
                    old(self).accounts@,
                    k,
                ),
            forall|i: int|
                0 <= i < old(self).accounts@.len() && Some(i) != book_index(old(self).accounts@, account_key_of(account@))
                    ==> #[trigger] final(self).accounts@[i] == old(self).accounts@[i],
    {
        let chosen = choose_template(template);
        let normal = normalize(chosen.as_str(), value);
        let key = account_key(account);
        let entry = AccountMetadata {
            account_name: account.account_name.clone(),
            persona_name: account.persona_name.clone(),
            template: chosen.clone(),
            rank: normal.clone(),
        };
        let ghost before = self.accounts@;
        let ghost keys0 = book_keys(before);
        match book_position(&self.accounts, key.as_str()) {
            Some(index) => {
                let existing_key = self.accounts[index].0.clone();
                self.accounts.set(index, (existing_key, entry));
                proof {
                    let i = index as int;
                    let keys1 = book_keys(self.accounts@);
                    assert(keys1 =~= keys0);
                    assert forall|k: Seq<char>| #[trigger] book_index(self.accounts@, k) == book_index(before, k) by {
                        assert(keys1 == keys0);
                    }
                }
            },
            None => {
                self.accounts.push((key, entry));
                proof {
                    let keys1 = book_keys(self.accounts@);
                    assert(keys1 =~= keys0.push(account_key_of(account@)));
                    assert forall|k: Seq<char>| #[trigger] book_index(self.accounts@, k) == (if k == account_key_of(account@) {
                        Some(before.len() as int)
                    } else {
                        book_index(before, k)
                    }) by {
                        lemma_first_match_after_push(keys0, account_key_of(account@), k);
                    }
                }
            },
        }
        RankChoice { template: chosen, value: normal }
    }
}

/// Looking a key up after a push: an earlier entry still wins, a new key
/// is found at the end.
proof fn lemma_first_match_after_push(keys: Seq<Seq<char>>, x: Seq<char>, k: Seq<char>)
    requires
        first_where(keys, |y: Seq<char>| y == x) is None,
    ensures
        first_where(keys.push(x), |y: Seq<char>| y == k) == (if k == x {
            Some(keys.len() as int)
        } else {
            first_where(keys, |y: Seq<char>| y == k)
        }),
{
    let p = |y: Seq<char>| y == k;
    let keys1 = keys.push(x);
    let n = keys.len() as int;
    if k == x {
        assert forall|m: int| 0 <= m < n implies !p(#[trigger] keys1[m]) by {
            assert(keys1[m] == keys[m]);
            if p(keys[m]) {
                lemma_first_where_found_some(keys, |y: Seq<char>| y == x, m);
            }
        }
        lemma_first_where_found(keys1, p, n);
    } else {
        match first_where(keys, p) {
            Some(j) => {
                let c = choose|c: int| 0 <= c < keys.len() && p(keys[c]) && forall|m: int| 0 <= m < c ==> !p(#[trigger] keys[m]);
                assert(c == j);
                assert(keys1[j] == keys[j]);
                assert forall|m: int| 0 <= m < j implies !p(#[trigger] keys1[m]) by {
                    assert(keys1[m] == keys[m]);
                }
                lemma_first_where_found(keys1, p, j);
            },
            None => {
                assert forall|m: int| 0 <= m < keys1.len() implies !p(#[trigger] keys1[m]) by {
                    if m < n {
                        assert(keys1[m] == keys[m]);
                        if p(keys[m]) {
                            lemma_first_where_found_some(keys, p, m);
                        }
                    }
                }
                lemma_first_where_none(keys1, p);
            },
        }
    }
}

/// A sequence with an element that meets `p` has a first such element.
proof fn lemma_first_where_found_some(s: Seq<Seq<char>>, p: spec_fn(Seq<char>) -> bool, m: int)
    requires
        0 <= m < s.len(),
        p(s[m]),
    ensures
        first_where(s, p) is Some,
    decreases m,
{
    if exists|j: int| 0 <= j < m && p(s[j]) {
        let j = choose|j: int| 0 <= j < m && p(s[j]);
        lemma_first_where_found_some(s, p, j);
    } else {
        lemma_first_where_found(s, p, m);
    }
}

/// Law: what `set_rank` stores is what `choice_for` reads back: the same
/// ladder and the same value.
pub proof fn law_stored_rank_reads_back(template: Seq<char>, value: Seq<char>)
    ensures
        ({
            let t = chosen_template(template);
            choice_from(t, normalized(t, value)) == (t, normalized(t, value))
        }),
{
    crate::ranks::lemma_default_ladder_known();
    crate::ranks::law_normalize_is_idempotent(chosen_template(template), value);
}

} // verus!
