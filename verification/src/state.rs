//! Which installations the picker offers, and which one stays selected when
//! the list is rebuilt. Paths arrive resolved by the caller, which looks at
//! the file system.

use vstd::prelude::*;
use crate::model::SteamInstallation;
use crate::pathdetect::{paths_equal, same_path};
use crate::text::{first_where, lemma_first_where_found, lemma_first_where_none, text_eq};

verus! {

/// An installation with its key: its root as the file system resolves it.
#[derive(Debug)]
pub struct Keyed {
    pub installation: SteamInstallation,
    pub key: String,
}

/// The detected installations whose key no hidden entry names.
pub open spec fn visible(detected: Seq<Keyed>, hidden: Seq<Seq<char>>) -> Seq<Keyed>
    decreases detected.len(),
{
    if detected.len() == 0 {
        seq![]
    } else {
        let rest = visible(detected.drop_last(), hidden);
        let d = detected.last();
        if exists|i: int| 0 <= i < hidden.len() && paths_equal(#[trigger] hidden[i], d.key@) {
            rest
        } else {
            rest.push(d)
        }
    }
}

/// `shown` followed by the custom installations whose key is not listed yet.
pub open spec fn merged(shown: Seq<Keyed>, custom: Seq<Keyed>) -> Seq<Keyed>
    decreases custom.len(),
{
    if custom.len() == 0 {
        shown
    } else {
        let m = merged(shown, custom.drop_last());
        let c = custom.last();
        if exists|i: int| 0 <= i < m.len() && (#[trigger] m[i]).key@ == c.key@ {
            m
        } else {
            m.push(c)
        }
    }
}

pub open spec fn keys_of(list: Seq<Keyed>) -> Seq<Seq<char>> {
    list.map_values(|k: Keyed| k.key@)
}

pub open spec fn is_key(p: Seq<char>) -> spec_fn(Seq<char>) -> bool {
    |k: Seq<char>| k == p
}

/// The installation selected before, when it is still listed, otherwise the
/// first one.
pub open spec fn selected_of(list: Seq<Keyed>, previous: Option<Seq<char>>) -> int {
    match previous {
        Some(p) => match first_where(keys_of(list), is_key(p)) {
            Some(i) => i,
            None => 0,
        },
        None => 0,
    }
}

/// The selectable installations: the detected ones minus the hidden, then
/// the ones added by hand that are not listed yet; and the position of the
/// one to select.
pub open spec fn offered(
    detected: Seq<Keyed>,
    hidden: Seq<Seq<char>>,
    custom: Seq<Keyed>,
    previous: Option<Seq<char>>,
) -> (Seq<SteamInstallation>, int) {
    let m = merged(visible(detected, hidden), custom);
    (m.map_values(|k: Keyed| k.installation), selected_of(m, previous))
}

fn key_position(list: &Vec<Keyed>, key: &str) -> (result: Option<usize>)
    ensures
        match first_where(keys_of(list@), is_key(key@)) {
            Some(i) => result matches Some(k) && k as int == i,
            None => result is None,
        },
{
    let ghost keys = keys_of(list@);
    let mut k: usize = 0;
    while k < list.len()
        invariant
            keys == keys_of(list@),
            k <= list@.len(),
            forall|j: int| 0 <= j < k ==> !is_key(key@)(#[trigger] keys[j]),
        decreases list@.len() - k,
    {
        proof {
            assert(keys[k as int] == list@[k as int].key@);
        }
        if text_eq(list[k].key.as_str(), key) {
            proof {
                lemma_first_where_found(keys, is_key(key@), k as int);
            }
            return Some(k);
        }
        k += 1;
    }
    proof {
        lemma_first_where_none(keys, is_key(key@));
    }
    None
}

/// Rebuilds the list of the picker: `detected` as found, `hidden` the hidden
/// entries, `custom` the installations added by hand, `previous` the key of
/// the installation selected before.
pub fn choose_installations(
    detected: Vec<Keyed>,
    hidden: &Vec<String>,
    custom: Vec<Keyed>,
    previous: Option<&str>,
) -> (result: (Vec<SteamInstallation>, usize))
    ensures
        ({
            let o = offered(
                detected@,
                hidden@.map_values(|h: String| h@),
                custom@,
                match previous {
                    Some(p) => Some(p@),
                    None => None,
                },
            );
            result.0@ == o.0 && result.1 as int == o.1
        }),
{
    let ghost ds = detected@;
    let ghost hs = hidden@.map_values(|h: String| h@);
    let ghost cs = custom@;
    let mut rest = detected;
    let total = rest.len();
    let mut taken: usize = 0;
    let mut shown: Vec<Keyed> = Vec::new();
    proof {
        assert(ds.take(0) =~= Seq::<Keyed>::empty());
        assert(rest@ =~= ds.skip(0));
    }
    while rest.len() > 0
        invariant
            total == ds.len(),
            hs == hidden@.map_values(|h: String| h@),
            taken <= ds.len(),
            rest@ == ds.skip(taken as int),
            shown@ == visible(ds.take(taken as int), hs),
        decreases rest@.len(),
    {
        let d = rest.remove(0);
        proof {
            assert(d == ds[taken as int]);
            assert(ds.take(taken + 1).drop_last() =~= ds.take(taken as int));
            assert(ds.take(taken + 1).last() == d);
            assert(rest@ =~= ds.skip(taken + 1));
        }
        let mut is_hidden = false;
        let mut k: usize = 0;
        while k < hidden.len()
            invariant
                hs == hidden@.map_values(|h: String| h@),
                k <= hidden@.len(),
                is_hidden == exists|i: int| 0 <= i < k && paths_equal(#[trigger] hs[i], d.key@),
            decreases hidden@.len() - k,
        {
            proof {
                assert(hs[k as int] == hidden@[k as int]@);
            }
            if same_path(hidden[k].as_str(), d.key.as_str()) {
                is_hidden = true;
            }
            k += 1;
        }
        if !is_hidden {
            shown.push(d);
        }
        taken += 1;
    }
    proof {
        assert(ds.take(taken as int) =~= ds);
    }
    let ghost vis = shown@;
    let mut extra = custom;
    let count = extra.len();
    let mut added: usize = 0;
    proof {
        assert(cs.take(0) =~= Seq::<Keyed>::empty());
        assert(extra@ =~= cs.skip(0));
    }
    while extra.len() > 0
        invariant
            count == cs.len(),
            added <= cs.len(),
            extra@ == cs.skip(added as int),
            shown@ == merged(vis, cs.take(added as int)),
        decreases extra@.len(),
    {
        let c = extra.remove(0);
        proof {
            assert(c == cs[added as int]);
            assert(cs.take(added + 1).drop_last() =~= cs.take(added as int));
            assert(cs.take(added + 1).last() == c);
            assert(extra@ =~= cs.skip(added + 1));
        }
        let mut listed = false;
        let mut k: usize = 0;
        while k < shown.len()
            invariant
                k <= shown@.len(),
                listed == exists|i: int| 0 <= i < k && (#[trigger] shown@[i]).key@ == c.key@,
            decreases shown@.len() - k,
        {
            if text_eq(shown[k].key.as_str(), c.key.as_str()) {
                listed = true;
            }
            k += 1;
        }
        if !listed {
            shown.push(c);
        }
        added += 1;
    }
    proof {
        assert(cs.take(added as int) =~= cs);
    }
    let ghost all = shown@;
    let selected: usize = match previous {
        Some(p) => match key_position(&shown, p) {
            Some(k) => k,
            None => 0,
        },
        None => 0,
    };
    let mut result: Vec<SteamInstallation> = Vec::new();
    let size = shown.len();
    let mut moved: usize = 0;
    proof {
        assert(shown@ =~= all.skip(0));
    }
    while shown.len() > 0
        invariant
            size == all.len(),
            moved <= all.len(),
            shown@ == all.skip(moved as int),
            result@.len() == moved,
            forall|j: int| 0 <= j < moved ==> #[trigger] result@[j] == all[j].installation,
        decreases shown@.len(),
    {
        let k = shown.remove(0);
        proof {
            assert(k == all[moved as int]);
            assert(shown@ =~= all.skip(moved + 1));
        }
        result.push(k.installation);
        moved += 1;
    }
    proof {
        assert(result@ =~= all.map_values(|k: Keyed| k.installation));
    }
    (result, selected)
}


/// Law: the selected position is that of an offered installation whenever
/// one is offered.
pub proof fn law_selection_is_offered(list: Seq<Keyed>, previous: Option<Seq<char>>)
    ensures
        0 <= selected_of(list, previous),
        list.len() > 0 ==> selected_of(list, previous) < list.len(),
{
    match previous {
        Some(p) => {
            let keys = keys_of(list);
            match first_where(keys, is_key(p)) {
                Some(i) => {
                    let c = choose|c: int| 0 <= c < keys.len() && is_key(p)(keys[c]) && forall|j: int| 0 <= j < c ==> !is_key(p)(#[trigger] keys[j]);
                    assert(c == i);
                },
                None => {},
            }
        },
        None => {},
    }
}

/// Law: no detected installation whose key a hidden entry names is offered
/// as detected.
pub proof fn law_hidden_are_not_visible(detected: Seq<Keyed>, hidden: Seq<Seq<char>>)
    ensures
        forall|k: int, i: int|
            0 <= k < visible(detected, hidden).len() && 0 <= i < hidden.len() ==> !paths_equal(
                #[trigger] hidden[i],
                #[trigger] visible(detected, hidden)[k].key@,
            ),
    decreases detected.len(),
{
    if detected.len() > 0 {
        law_hidden_are_not_visible(detected.drop_last(), hidden);
    }
}

/// Law: every installation added by hand is offered, by its key.
pub proof fn law_custom_are_offered(shown: Seq<Keyed>, custom: Seq<Keyed>)
    ensures
        forall|c: int|
            0 <= c < custom.len() ==> exists|k: int|
                0 <= k < merged(shown, custom).len() && (#[trigger] merged(shown, custom)[k]).key@ == (
                #[trigger] custom[c]).key@,
    decreases custom.len(),
{
    if custom.len() > 0 {
        let rest = custom.drop_last();
        law_custom_are_offered(shown, rest);
        let m = merged(shown, rest);
        let last = custom.last();
        assert forall|c: int| 0 <= c < custom.len() implies exists|k: int|
            0 <= k < merged(shown, custom).len() && (#[trigger] merged(shown, custom)[k]).key@ == (
            #[trigger] custom[c]).key@ by {
            let full = merged(shown, custom);
            if c < rest.len() {
                assert(custom[c] == rest[c]);
                let k = choose|k: int| 0 <= k < m.len() && (#[trigger] m[k]).key@ == (#[trigger] rest[c]).key@;
                assert(full[k] == m[k]);
            } else {
                if exists|i: int| 0 <= i < m.len() && (#[trigger] m[i]).key@ == last.key@ {
                    let i = choose|i: int| 0 <= i < m.len() && (#[trigger] m[i]).key@ == last.key@;
                    assert(full[i] == m[i]);
                } else {
                    assert(full[m.len() as int] == last);
                }
            }
        }
    }
}

} // verus!
