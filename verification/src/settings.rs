//! User preferences that are not tied to a single Steam installation.
//!
//! Installation roots are compared by their canonical key: callers hand in the
//! key of a path (its resolved form), and the lists only ever hold such keys.

use vstd::prelude::*;
use vstd::string::StringExecFns;
use crate::text::{
    chars_of, decimal, first_where, lemma_decimal_injective, lemma_decimal_nonempty, lemma_first_where_found,
    lemma_filter_keeps_all, lemma_first_where_none, lowercase, string_from_chars, text_eq, to_lowercase, trim, trimmed, wide_decimal_string,
};
use crate::pathdetect::{same_path, same_root};
use crate::model::SteamAccount;

verus! {

/// A user created group of accounts.
#[derive(Debug, Clone)]
pub struct Folder {
    pub id: String,
    pub name: String,
}

/// `steam_id` -> value pairs, the first pair of a key being the one that counts.
pub open spec fn pairs_view(pairs: Seq<(String, String)>) -> Seq<(Seq<char>, Seq<char>)> {
    pairs.map_values(|p: (String, String)| (p.0@, p.1@))
}

/// Value stored for `key`: the first pair with that key.
pub open spec fn pair_lookup(pairs: Seq<(Seq<char>, Seq<char>)>, key: Seq<char>) -> Option<Seq<char>> {
    match first_where(pairs, |p: (Seq<char>, Seq<char>)| p.0 == key) {
        Some(i) => Some(pairs[i].1),
        None => None,
    }
}

pub open spec fn texts_of(list: Seq<String>) -> Seq<Seq<char>> {
    list.map_values(|s: String| s@)
}

pub open spec fn folder_ids(folders: Seq<Folder>) -> Seq<Seq<char>> {
    folders.map_values(|f: Folder| f.id@)
}

#[derive(Debug, Clone)]
pub struct Settings {
    /// Show the "Installation" picker in the header.
    pub show_installation_selector: bool,
    /// Show the machine total in the footer.
    pub show_machine_playtime: bool,
    /// Keys of the automatically detected Steam installations to ignore.
    pub hidden_installations: Vec<String>,
    /// Keys of extra Steam roots added by hand.
    pub custom_installations: Vec<String>,
    /// User created folders shown above the account cards.
    pub folders: Vec<Folder>,
    /// `steam_id` -> folder id.
    pub account_folders: Vec<(String, String)>,
    /// `steam_id` -> accent colour of the card.
    pub account_colors: Vec<(String, String)>,
}

impl Default for Settings {
    fn default() -> (result: Self)
        ensures
            result.show_installation_selector,
            result.show_machine_playtime,
            result.hidden_installations@.len() == 0,
            result.custom_installations@.len() == 0,
            result.folders@.len() == 0,
            result.account_folders@.len() == 0,
            result.account_colors@.len() == 0,
    {
        Settings {
            show_installation_selector: true,
            show_machine_playtime: true,
            hidden_installations: Vec::new(),
            custom_installations: Vec::new(),
            folders: Vec::new(),
            account_folders: Vec::new(),
            account_colors: Vec::new(),
        }
    }
}

/// Some entry of `list` names the same root as `root`.
pub open spec fn names_root(list: Seq<Seq<char>>, root: Seq<char>) -> bool {
    exists|i: int| 0 <= i < list.len() && same_root(#[trigger] list[i], root)
}

/// Whether an entry of `list` names the same root as `key`.
fn list_contains(list: &Vec<String>, key: &str) -> (result: bool)
    ensures
        result == names_root(texts_of(list@), key@),
{
    let ghost l = texts_of(list@);
    let mut index: usize = 0;
    while index < list.len()
        invariant
            l == texts_of(list@),
            index <= list@.len(),
            forall|j: int| 0 <= j < index ==> !same_root(#[trigger] l[j], key@),
        decreases list@.len() - index,
    {
        proof {
            assert(l[index as int] == list@[index as int]@);
        }
        if same_path(list[index].as_str(), key) {
            return true;
        }
        index += 1;
    }
    false
}

/// The pairs whose value is not `value`, in order.
pub open spec fn without_value(pairs: Seq<(Seq<char>, Seq<char>)>, value: Seq<char>) -> Seq<(Seq<char>, Seq<char>)> {
    pairs.filter(|p: (Seq<char>, Seq<char>)| p.1 != value)
}

/// The list with `key` added at the end unless an entry names that root.
pub open spec fn with_entry(list: Seq<Seq<char>>, key: Seq<char>) -> Seq<Seq<char>> {
    if names_root(list, key) {
        list
    } else {
        list.push(key)
    }
}

/// Keeps the entries that name another root than `key`.
pub open spec fn apart_from(key: Seq<char>) -> spec_fn(Seq<char>) -> bool {
    |s: Seq<char>| !same_root(s, key)
}

/// The entries of `list` that name another root than `key`, in order.
pub open spec fn without(list: Seq<Seq<char>>, key: Seq<char>) -> Seq<Seq<char>> {
    list.filter(apart_from(key))
}

fn remove_all(list: &mut Vec<String>, key: &str)
    ensures
        texts_of(final(list)@) == without(texts_of(old(list)@), key@),
{
    let mut kept: Vec<String> = Vec::new();
    let ghost given = texts_of(list@);
    let mut index: usize = 0;
    proof {
        reveal(Seq::filter);
        assert(given.take(0) =~= Seq::<Seq<char>>::empty());
    }
    while index < list.len()
        invariant
            given == texts_of(list@),
            index <= list@.len(),
            texts_of(kept@) == without(given.take(index as int), key@),
        decreases list@.len() - index,
    {
        let ghost before = kept@;
        proof {
            reveal(Seq::filter);
            let next = given.take(index + 1);
            assert(next.drop_last() =~= given.take(index as int));
            assert(next.last() == list@[index as int]@);
        }
        if !same_path(list[index].as_str(), key) {
            kept.push(list[index].clone());
            proof {
                assert(texts_of(kept@) =~= texts_of(before).push(list@[index as int]@));
            }
        }
        index += 1;
    }
    proof {
        assert(given.take(index as int) =~= given);
    }
    *list = kept;
}

pub open spec fn is_ascii_alnum(c: char) -> bool {
    ('0' <= c && c <= '9') || ('a' <= c && c <= 'z') || ('A' <= c && c <= 'Z')
}

pub open spec fn is_hex(c: char) -> bool {
    ('0' <= c && c <= '9') || ('a' <= c && c <= 'f') || ('A' <= c && c <= 'F')
}

/// A character of a folder id: ASCII letters and digits stay, anything else
/// becomes a dash.
pub open spec fn slug_char(c: char) -> char {
    if is_ascii_alnum(c) {
        c
    } else {
        '-'
    }
}

/// The text with every run of dashes reduced to one dash.
pub open spec fn single_dashes(s: Seq<char>) -> Seq<char>
    decreases s.len(),
{
    if s.len() == 0 {
        seq![]
    } else {
        let d = single_dashes(s.drop_last());
        if s.last() == '-' && d.len() > 0 && d.last() == '-' {
            d
        } else {
            d.push(s.last())
        }
    }
}

/// The text without its leading dashes.
pub open spec fn drop_leading_dashes(s: Seq<char>) -> Seq<char>
    decreases s.len(),
{
    if s.len() > 0 && s[0] == '-' {
        drop_leading_dashes(s.drop_first())
    } else {
        s
    }
}

/// The text without its trailing dashes.
pub open spec fn drop_trailing_dashes(s: Seq<char>) -> Seq<char>
    decreases s.len(),
{
    if s.len() > 0 && s.last() == '-' {
        drop_trailing_dashes(s.drop_last())
    } else {
        s
    }
}

/// Folder id derived from a name: trimmed, lower cased, every character other
/// than an ASCII letter or digit turned into a dash, runs of dashes reduced,
/// dashes at both ends removed; "folder" when nothing is left.
pub open spec fn slug_of(name: Seq<char>) -> Seq<char> {
    let mapped = lowercase(trimmed(name)).map_values(|c: char| slug_char(c));
    let stripped = drop_trailing_dashes(drop_leading_dashes(single_dashes(mapped)));
    if stripped.len() == 0 {
        "folder"@
    } else {
        stripped
    }
}

/// Only plain hex colours are stored (`#rgb`, `#rrggbb`, `#rrggbbaa`), so a
/// value can never inject CSS.
pub open spec fn safe_color(v: Seq<char>) -> bool {
    &&& (v.len() == 4 || v.len() == 7 || v.len() == 9)
    &&& v[0] == '#'
    &&& forall|i: int| 1 <= i < v.len() ==> is_hex(#[trigger] v[i])
}

/// The `k`-th id tried for a new folder: the slug itself, then `slug-2`,
/// `slug-3`, ...
pub open spec fn candidate(base: Seq<char>, k: nat) -> Seq<char> {
    if k <= 1 {
        base
    } else {
        base + "-"@ + decimal(k)
    }
}

fn slug(name: &str) -> (result: String)
    ensures
        result@ == slug_of(name@),
{
    let trimmed_name = trim(name);
    let lowered = to_lowercase(trimmed_name.as_str());
    let chars = chars_of(lowered.as_str());
    let ghost mapped = lowercase(trimmed(name@)).map_values(|c: char| slug_char(c));
    let mut squeezed: Vec<char> = Vec::new();
    let mut index: usize = 0;
    proof {
        assert(mapped.take(0) =~= Seq::<char>::empty());
    }
    while index < chars.len()
        invariant
            chars@ == lowercase(trimmed(name@)),
            mapped == chars@.map_values(|c: char| slug_char(c)),
            index <= chars@.len(),
            squeezed@ == single_dashes(mapped.take(index as int)),
        decreases chars@.len() - index,
    {
        let c = chars[index];
        let mapped_char = if ('0' <= c && c <= '9') || ('a' <= c && c <= 'z') || ('A' <= c && c <= 'Z') {
            c
        } else {
            '-'
        };
        proof {
            let next = mapped.take(index + 1);
            assert(next.drop_last() =~= mapped.take(index as int));
            assert(next.last() == mapped_char);
        }
        let len = squeezed.len();
        if !(mapped_char == '-' && len > 0 && squeezed[len - 1] == '-') {
            squeezed.push(mapped_char);
        }
        index += 1;
    }
    proof {
        assert(mapped.take(index as int) =~= mapped);
    }
    let ghost single = squeezed@;
    let mut start: usize = 0;
    proof {
        assert(single.subrange(0, single.len() as int) =~= single);
    }
    while start < squeezed.len() && squeezed[start] == '-'
        invariant
            single == squeezed@,
            start <= squeezed@.len(),
            drop_leading_dashes(single) == drop_leading_dashes(single.subrange(start as int, single.len() as int)),
        decreases squeezed@.len() - start,
    {
        proof {
            let rest = single.subrange(start as int, single.len() as int);
            assert(rest.drop_first() =~= single.subrange(start + 1, single.len() as int));
        }
        start += 1;
    }
    let ghost lead = single.subrange(start as int, single.len() as int);
    proof {
        assert(drop_leading_dashes(lead) == lead);
        assert(lead.subrange(0, lead.len() as int) =~= lead);
    }
    let mut end: usize = squeezed.len();
    while end > start && squeezed[end - 1] == '-'
        invariant
            single == squeezed@,
            start <= end <= squeezed@.len(),
            lead == single.subrange(start as int, single.len() as int),
            drop_trailing_dashes(lead) == drop_trailing_dashes(single.subrange(start as int, end as int)),
        decreases end,
    {
        proof {
            let part = single.subrange(start as int, end as int);
            assert(part.drop_last() =~= single.subrange(start as int, end - 1));
        }
        end -= 1;
    }
    let mut out: Vec<char> = Vec::new();
    let mut position = start;
    while position < end
        invariant
            single == squeezed@,
            start <= position <= end <= squeezed@.len(),
            out@ == single.subrange(start as int, position as int),
        decreases end - position,
    {
        out.push(squeezed[position]);
        proof {
            assert(out@ =~= single.subrange(start as int, position + 1));
        }
        position += 1;
    }
    proof {
        let part = single.subrange(start as int, end as int);
        assert(drop_trailing_dashes(part) == part);
    }
    if out.len() == 0 {
        String::from_str("folder")
    } else {
        string_from_chars(out.as_slice())
    }
}

/// `#rgb`, `#rrggbb` or `#rrggbbaa` with hex digits only.
fn is_safe_color(value: &str) -> (result: bool)
    ensures
        result == safe_color(value@),
{
    let chars = chars_of(value);
    let len = chars.len();
    if !(len == 4 || len == 7 || len == 9) || chars[0] != '#' {
        return false;
    }
    let mut index: usize = 1;
    while index < len
        invariant
            chars@ == value@,
            len == chars@.len(),
            1 <= index <= len,
            forall|i: int| 1 <= i < index ==> is_hex(#[trigger] chars@[i]),
        decreases len - index,
    {
        let c = chars[index];
        if !(('0' <= c && c <= '9') || ('a' <= c && c <= 'f') || ('A' <= c && c <= 'F')) {
            return false;
        }
        index += 1;
    }
    true
}

/// No key occurs twice.
pub open spec fn unique_keys(ps: Seq<(Seq<char>, Seq<char>)>) -> bool {
    forall|i: int, j: int| 0 <= i < ps.len() && 0 <= j < ps.len() && i != j ==> #[trigger] ps[i].0 != #[trigger] ps[j].0
}

/// No text occurs twice.
pub open spec fn unique_texts(s: Seq<Seq<char>>) -> bool {
    forall|i: int, j: int| 0 <= i < s.len() && 0 <= j < s.len() && i != j ==> #[trigger] s[i] != #[trigger] s[j]
}

pub open spec fn folders_view(folders: Seq<Folder>) -> Seq<(Seq<char>, Seq<char>)> {
    folders.map_values(|f: Folder| (f.id@, f.name@))
}

proof fn lemma_lookup_at(ps: Seq<(Seq<char>, Seq<char>)>, i: int)
    requires
        unique_keys(ps),
        0 <= i < ps.len(),
    ensures
        pair_lookup(ps, ps[i].0) == Some(ps[i].1),
{
    let key = ps[i].0;
    assert forall|j: int| 0 <= j < i implies !(|p: (Seq<char>, Seq<char>)| p.0 == key)(#[trigger] ps[j]) by {
        assert(ps[j].0 != ps[i].0);
    }
    lemma_first_where_found(ps, |p: (Seq<char>, Seq<char>)| p.0 == key, i);
}

proof fn lemma_lookup_absent(ps: Seq<(Seq<char>, Seq<char>)>, key: Seq<char>)
    requires
        forall|j: int| 0 <= j < ps.len() ==> (#[trigger] ps[j]).0 != key,
    ensures
        pair_lookup(ps, key) is None,
{
    lemma_first_where_none(ps, |p: (Seq<char>, Seq<char>)| p.0 == key);
}

fn pair_position(pairs: &Vec<(String, String)>, key: &str) -> (result: Option<usize>)
    ensures
        match result {
            Some(i) => i < pairs@.len() && pairs_view(pairs@)[i as int].0 == key@ && forall|j: int|
                0 <= j < i ==> (#[trigger] pairs_view(pairs@)[j]).0 != key@,
            None => forall|j: int| 0 <= j < pairs@.len() ==> (#[trigger] pairs_view(pairs@)[j]).0 != key@,
        },
{
    let mut index: usize = 0;
    while index < pairs.len()
        invariant
            index <= pairs@.len(),
            forall|j: int| 0 <= j < index ==> (#[trigger] pairs_view(pairs@)[j]).0 != key@,
        decreases pairs@.len() - index,
    {
        proof {
            assert(pairs_view(pairs@)[index as int] == (pairs@[index as int].0@, pairs@[index as int].1@));
        }
        if text_eq(pairs[index].0.as_str(), key) {
            return Some(index);
        }
        index += 1;
    }
    None
}

fn pair_get<'a>(pairs: &'a Vec<(String, String)>, key: &str) -> (result: Option<&'a str>)
    ensures
        match pair_lookup(pairs_view(pairs@), key@) {
            Some(v) => result is Some && result.unwrap()@ == v,
            None => result is None,
        },
{
    let ghost view = pairs_view(pairs@);
    match pair_position(pairs, key) {
        Some(index) => {
            proof {
                lemma_first_where_found(view, |p: (Seq<char>, Seq<char>)| p.0 == key@, index as int);
                assert(view[index as int].1 == pairs@[index as int].1@);
            }
            Some(pairs[index].1.as_str())
        },
        None => {
            proof {
                lemma_lookup_absent(view, key@);
            }
            None
        },
    }
}

fn pair_set(pairs: &mut Vec<(String, String)>, key: &str, value: String)
    requires
        unique_keys(pairs_view(old(pairs)@)),
    ensures
        unique_keys(pairs_view(final(pairs)@)),
        forall|k: Seq<char>|
            #[trigger] pair_lookup(pairs_view(final(pairs)@), k) == if k == key@ {
                Some(value@)
            } else {
                pair_lookup(pairs_view(old(pairs)@), k)
            },
{
    let ghost before = pairs_view(pairs@);
    let ghost v = value@;
    let ghost mut at: int = 0;
    match pair_position(pairs, key) {
        Some(index) => {
            let entry = (key.to_owned(), value);
            pairs.set(index, entry);
            proof {
                at = index as int;
                assert(pairs_view(pairs@) =~= before.update(at, (key@, v)));
            }
        },
        None => {
            pairs.push((key.to_owned(), value));
            proof {
                at = before.len() as int;
                assert(pairs_view(pairs@) =~= before.push((key@, v)));
            }
        },
    }
    let ghost after = pairs_view(pairs@);
    proof {
        assert(0 <= at < after.len() && after[at] == (key@, v));
        assert(after.len() <= before.len() + 1);
        assert(forall|j: int| 0 <= j < after.len() && j != at ==> j < before.len() && #[trigger] after[j] == before[j]);
        assert(forall|j: int| 0 <= j < before.len() && (#[trigger] before[j]).0 == key@ ==> j == at);
        assert forall|i: int, j: int| 0 <= i < after.len() && 0 <= j < after.len() && i != j implies
            #[trigger] after[i].0 != #[trigger] after[j].0 by {
            if i != at && j != at {
                assert(after[i] == before[i] && after[j] == before[j]);
            } else if i == at {
                assert(after[j] == before[j]);
            } else {
                assert(after[i] == before[i]);
            }
        }
        assert forall|k: Seq<char>|
            #[trigger] pair_lookup(after, k) == if k == key@ { Some(v) } else { pair_lookup(before, k) } by {
            if k == key@ {
                lemma_lookup_at(after, at);
            } else if exists|i: int| 0 <= i < before.len() && before[i].0 == k {
                let i = choose|i: int| 0 <= i < before.len() && before[i].0 == k;
                assert(i != at && after[i] == before[i]);
                lemma_lookup_at(before, i);
                lemma_lookup_at(after, i);
            } else {
                lemma_lookup_absent(before, k);
                assert forall|j: int| 0 <= j < after.len() implies (#[trigger] after[j]).0 != k by {
                    if j != at {
                        assert(after[j] == before[j]);
                    }
                }
                lemma_lookup_absent(after, k);
            }
        }
    }
}

fn pair_remove(pairs: &mut Vec<(String, String)>, key: &str)
    requires
        unique_keys(pairs_view(old(pairs)@)),
    ensures
        unique_keys(pairs_view(final(pairs)@)),
        forall|k: Seq<char>|
            #[trigger] pair_lookup(pairs_view(final(pairs)@), k) == if k == key@ {
                None
            } else {
                pair_lookup(pairs_view(old(pairs)@), k)
            },
{
    let ghost before = pairs_view(pairs@);
    match pair_position(pairs, key) {
        Some(index) => {
            pairs.remove(index);
            let ghost at = index as int;
            let ghost after = pairs_view(pairs@);
            proof {
                assert(after =~= before.remove(at));
                assert(forall|j: int| 0 <= j < before.len() && (#[trigger] before[j]).0 == key@ ==> j == at);
                assert forall|i: int, j: int| 0 <= i < after.len() && 0 <= j < after.len() && i != j implies
                    #[trigger] after[i].0 != #[trigger] after[j].0 by {
                    let i2 = if i < at { i } else { i + 1 };
                    let j2 = if j < at { j } else { j + 1 };
                    assert(after[i] == before[i2] && after[j] == before[j2]);
                }
                assert forall|k: Seq<char>|
                    #[trigger] pair_lookup(after, k) == if k == key@ { None } else { pair_lookup(before, k) } by {
                    if k != key@ && exists|i: int| 0 <= i < before.len() && before[i].0 == k {
                        let i = choose|i: int| 0 <= i < before.len() && before[i].0 == k;
                        let i2 = if i < at { i } else { i - 1 };
                        assert(i != at && after[i2] == before[i]);
                        lemma_lookup_at(before, i);
                        lemma_lookup_at(after, i2);
                    } else {
                        if k != key@ {
                            lemma_lookup_absent(before, k);
                        }
                        assert forall|j: int| 0 <= j < after.len() implies (#[trigger] after[j]).0 != k by {
                            let j2 = if j < at { j } else { j + 1 };
                            assert(after[j] == before[j2]);
                        }
                        lemma_lookup_absent(after, k);
                    }
                }
            }
        },
        None => {
            proof {
                assert forall|k: Seq<char>|
                    #[trigger] pair_lookup(before, k) == if k == key@ { None } else { pair_lookup(before, k) } by {
                    if k == key@ {
                        lemma_lookup_absent(before, k);
                    }
                }
            }
        },
    }
}

impl Settings {
    pub open spec fn hidden(&self) -> Seq<Seq<char>> {
        texts_of(self.hidden_installations@)
    }

    pub open spec fn custom(&self) -> Seq<Seq<char>> {
        texts_of(self.custom_installations@)
    }

    pub fn is_hidden(&self, root: &str) -> (result: bool)
        ensures
            result == names_root(self.hidden(), root@),
    {
        list_contains(&self.hidden_installations, root)
    }

    pub fn is_custom(&self, root: &str) -> (result: bool)
        ensures
            result == names_root(self.custom(), root@),
    {
        list_contains(&self.custom_installations, root)
    }

    /// Hides an installation; hiding it twice changes nothing.
    pub fn hide_installation(&mut self, root: &str)
        ensures
            final(self).hidden() == with_entry(old(self).hidden(), root@),
            final(self).custom() == old(self).custom(),
            final(self).folders == old(self).folders,
            final(self).account_folders == old(self).account_folders,
            final(self).account_colors == old(self).account_colors,
            final(self).show_installation_selector == old(self).show_installation_selector,
            final(self).show_machine_playtime == old(self).show_machine_playtime,
    {
        if !self.is_hidden(root) {
            self.hidden_installations.push(root.to_owned());
            proof {
                assert(self.hidden() =~= old(self).hidden().push(root@));
            }
        }
    }

    /// Shows an installation again, whatever was hidden under its key.
    pub fn show(&mut self, root: &str)
        ensures
            final(self).hidden() == without(old(self).hidden(), root@),
            final(self).custom() == old(self).custom(),
            final(self).folders == old(self).folders,
            final(self).account_folders == old(self).account_folders,
            final(self).account_colors == old(self).account_colors,
            final(self).show_installation_selector == old(self).show_installation_selector,
            final(self).show_machine_playtime == old(self).show_machine_playtime,
    {
        remove_all(&mut self.hidden_installations, root);
    }

    /// Adds a custom installation, which is never hidden.
    pub fn add_custom(&mut self, root: &str)
        ensures
            final(self).custom() == with_entry(old(self).custom(), root@),
            final(self).hidden() == without(old(self).hidden(), root@),
            final(self).folders == old(self).folders,
            final(self).account_folders == old(self).account_folders,
            final(self).account_colors == old(self).account_colors,
            final(self).show_installation_selector == old(self).show_installation_selector,
            final(self).show_machine_playtime == old(self).show_machine_playtime,
    {
        if !self.is_custom(root) {
            self.custom_installations.push(root.to_owned());
            proof {
                assert(self.custom() =~= old(self).custom().push(root@));
            }
        }
        self.show(root);
    }

    /// Removes a custom installation and shows its key again.
    pub fn remove_custom(&mut self, root: &str)
        ensures
            final(self).custom() == without(old(self).custom(), root@),
            final(self).hidden() == without(old(self).hidden(), root@),
            final(self).folders == old(self).folders,
            final(self).account_folders == old(self).account_folders,
            final(self).account_colors == old(self).account_colors,
            final(self).show_installation_selector == old(self).show_installation_selector,
            final(self).show_machine_playtime == old(self).show_machine_playtime,
    {
        remove_all(&mut self.custom_installations, root);
        self.show(root);
    }
}


/// Two ids tried for a new folder are the same only when they are tried at
/// the same step.
proof fn lemma_candidate_injective(base: Seq<char>, a: nat, b: nat)
    requires
        1 <= a,
        1 <= b,
        candidate(base, a) == candidate(base, b),
    ensures
        a == b,
{
    reveal_strlit("-");
    if a >= 2 && b >= 2 {
        let n: int = base.len() as int + 1;
        let ca = candidate(base, a);
        assert(ca.subrange(n, ca.len() as int) =~= decimal(a));
        assert(candidate(base, b).subrange(n, candidate(base, b).len() as int) =~= decimal(b));
        lemma_decimal_injective(a, b);
    } else if a >= 2 {
        lemma_decimal_nonempty(a);
        assert(candidate(base, a).len() > base.len());
    } else if b >= 2 {
        lemma_decimal_nonempty(b);
        assert(candidate(base, b).len() > base.len());
    }
}

/// When the first `m` ids tried are all taken, there are at least `m` folders.
proof fn lemma_taken_candidates_bounded(base: Seq<char>, ids: Seq<Seq<char>>, m: nat)
    requires
        forall|j: nat| 1 <= j <= m ==> ids.contains(#[trigger] candidate(base, j)),
    ensures
        m <= ids.len(),
{
    let tried = Seq::new(m, |i: int| candidate(base, (i + 1) as nat));
    assert forall|i: int, j: int| 0 <= i < tried.len() && 0 <= j < tried.len() && i != j implies tried[i] != tried[j] by {
        if tried[i] == tried[j] {
            lemma_candidate_injective(base, (i + 1) as nat, (j + 1) as nat);
        }
    }
    assert forall|x: Seq<char>| tried.to_set().contains(x) implies ids.to_set().contains(x) by {
        let i = choose|i: int| 0 <= i < tried.len() && tried[i] == x;
        assert(ids.contains(candidate(base, (i + 1) as nat)));
    }
    tried.unique_seq_to_set();
    ids.lemma_cardinality_of_set();
    vstd::seq_lib::seq_to_set_is_finite(ids);
    vstd::set_lib::lemma_len_subset(tried.to_set(), ids.to_set());
}

/// Position of the first folder with `id`.
pub open spec fn folder_index(folders: Seq<Folder>, id: Seq<char>) -> Option<int> {
    first_where(folder_ids(folders), |x: Seq<char>| x == id)
}

fn folder_position(folders: &Vec<Folder>, id: &str) -> (result: Option<usize>)
    ensures
        result matches Some(i) ==> i as int == folder_index(folders@, id@).unwrap(),
        result is Some <==> folder_ids(folders@).contains(id@),
        folder_index(folders@, id@) is Some <==> result is Some,
{
    let ghost ids = folder_ids(folders@);
    let mut index: usize = 0;
    while index < folders.len()
        invariant
            ids == folder_ids(folders@),
            index <= folders@.len(),
            forall|j: int| 0 <= j < index ==> #[trigger] ids[j] != id@,
        decreases folders@.len() - index,
    {
        if text_eq(folders[index].id.as_str(), id) {
            proof {
                assert(ids[index as int] == id@);
                lemma_first_where_found(ids, |x: Seq<char>| x == id@, index as int);
            }
            return Some(index);
        }
        index += 1;
    }
    proof {
        lemma_first_where_none(ids, |x: Seq<char>| x == id@);
    }
    None
}

/// Removes the pairs whose value is `value`, keeping the order of the others.
fn remove_pairs_with_value(pairs: &mut Vec<(String, String)>, value: &str)
    requires
        unique_keys(pairs_view(old(pairs)@)),
    ensures
        unique_keys(pairs_view(final(pairs)@)),
        pairs_view(final(pairs)@) == without_value(pairs_view(old(pairs)@), value@),
{
    let ghost given = pairs_view(pairs@);
    let mut kept: Vec<(String, String)> = Vec::new();
    let mut index: usize = 0;
    proof {
        reveal(Seq::filter);
        assert(given.take(0) =~= Seq::<(Seq<char>, Seq<char>)>::empty());
    }
    while index < pairs.len()
        invariant
            given == pairs_view(pairs@),
            unique_keys(given),
            index <= pairs@.len(),
            pairs_view(kept@) == given.take(index as int).filter(|p: (Seq<char>, Seq<char>)| p.1 != value@),
            unique_keys(pairs_view(kept@)),
            forall|i: int| 0 <= i < kept@.len() ==> exists|j: int| 0 <= j < index && given[j].0 == #[trigger] pairs_view(kept@)[i].0,
        decreases pairs@.len() - index,
    {
        let ghost before = pairs_view(kept@);
        proof {
            reveal(Seq::filter);
            let next = given.take(index + 1);
            assert(next.drop_last() =~= given.take(index as int));
            assert(next.last() == given[index as int]);
        }
        if !text_eq(pairs[index].1.as_str(), value) {
            let entry = (pairs[index].0.clone(), pairs[index].1.clone());
            kept.push(entry);
            proof {
                let after = pairs_view(kept@);
                assert(after =~= before.push(given[index as int]));
                assert forall|i: int, j: int| 0 <= i < after.len() && 0 <= j < after.len() && i != j implies
                    #[trigger] after[i].0 != #[trigger] after[j].0 by {
                    if i < before.len() && j < before.len() {
                        assert(after[i] == before[i] && after[j] == before[j]);
                    } else if i < before.len() {
                        assert(after[i] == before[i]);
                        let w = choose|w: int| 0 <= w < index && given[w].0 == #[trigger] before[i].0;
                    } else {
                        assert(after[j] == before[j]);
                        let w = choose|w: int| 0 <= w < index && given[w].0 == #[trigger] before[j].0;
                    }
                }
                assert forall|i: int| 0 <= i < after.len() implies exists|j: int| 0 <= j < index + 1 && given[j].0 == #[trigger] after[i].0 by {
                    if i < before.len() {
                        assert(after[i] == before[i]);
                        let w = choose|w: int| 0 <= w < index && given[w].0 == #[trigger] before[i].0;
                        assert(given[w].0 == after[i].0);
                    } else {
                        assert(given[index as int].0 == after[i].0);
                    }
                }
            }
        }
        index += 1;
    }
    proof {
        assert(given.take(index as int) =~= given);
    }
    *pairs = kept;
}

/// Removes the folders with `id`, keeping the order of the others.
fn remove_folders(folders: &mut Vec<Folder>, id: &str)
    ensures
        folders_view(final(folders)@) == folders_view(old(folders)@).filter(|p: (Seq<char>, Seq<char>)| p.0 != id@),
{
    let ghost given = folders_view(folders@);
    let mut kept: Vec<Folder> = Vec::new();
    let mut index: usize = 0;
    proof {
        reveal(Seq::filter);
        assert(given.take(0) =~= Seq::<(Seq<char>, Seq<char>)>::empty());
    }
    while index < folders.len()
        invariant
            given == folders_view(folders@),
            index <= folders@.len(),
            folders_view(kept@) == given.take(index as int).filter(|p: (Seq<char>, Seq<char>)| p.0 != id@),
        decreases folders@.len() - index,
    {
        let ghost before = folders_view(kept@);
        proof {
            reveal(Seq::filter);
            let next = given.take(index + 1);
            assert(next.drop_last() =~= given.take(index as int));
            assert(next.last() == given[index as int]);
        }
        if !text_eq(folders[index].id.as_str(), id) {
            let entry = Folder { id: folders[index].id.clone(), name: folders[index].name.clone() };
            kept.push(entry);
            proof {
                assert(folders_view(kept@) =~= before.push(given[index as int]));
            }
        }
        index += 1;
    }
    proof {
        assert(given.take(index as int) =~= given);
    }
    *folders = kept;
}

impl Settings {
    /// The account maps hold each `steam_id` once.
    pub open spec fn wf(&self) -> bool {
        &&& unique_keys(pairs_view(self.account_folders@))
        &&& unique_keys(pairs_view(self.account_colors@))
    }

    pub open spec fn folder_ids(&self) -> Seq<Seq<char>> {
        folder_ids(self.folders@)
    }

    /// Creates a folder and returns its id: the slug of the name, or the first
    /// of `slug-2`, `slug-3`, ... that no folder has yet.
    pub fn create_folder(&mut self, name: &str) -> (id: String)
        ensures
            exists|k: nat|
                #![trigger candidate(slug_of(name@), k)]
                1 <= k && id@ == candidate(slug_of(name@), k) && forall|j: nat|
                    1 <= j < k ==> old(self).folder_ids().contains(#[trigger] candidate(slug_of(name@), j)),
            !old(self).folder_ids().contains(id@),
            unique_texts(old(self).folder_ids()) ==> unique_texts(final(self).folder_ids()),
            folders_view(final(self).folders@) == folders_view(old(self).folders@).push((id@, trimmed(name@))),
            final(self).hidden_installations == old(self).hidden_installations,
            final(self).custom_installations == old(self).custom_installations,
            final(self).account_folders == old(self).account_folders,
            final(self).account_colors == old(self).account_colors,
            final(self).show_installation_selector == old(self).show_installation_selector,
            final(self).show_machine_playtime == old(self).show_machine_playtime,
    {
        let ghost ids = self.folder_ids();
        let base = slug(name);
        let ghost b = base@;
        let mut id = base.clone();
        let mut counter: u128 = 2;
        let count = self.folders.len();
        proof {
            assert(id@ == candidate(b, 1));
        }
        while folder_position(&self.folders, id.as_str()).is_some()
            invariant
                ids == folder_ids(self.folders@),
                ids.len() == count,
                b == base@,
                2 <= counter <= ids.len() + 2,
                id@ == candidate(b, (counter - 1) as nat),
                forall|j: nat| 1 <= j < counter - 1 ==> ids.contains(#[trigger] candidate(b, j)),
            decreases ids.len() + 2 - counter,
        {
            proof {
                assert forall|j: nat| 1 <= j <= counter - 1 implies ids.contains(#[trigger] candidate(b, j)) by {
                    if j == counter - 1 {
                        assert(id@ == candidate(b, j));
                    }
                }
                lemma_taken_candidates_bounded(b, ids, (counter - 1) as nat);
            }
            let number = wide_decimal_string(counter);
            let mut next = base.clone();
            next.append("-");
            next.append(number.as_str());
            proof {
                assert(next@ =~= candidate(b, counter as nat));
            }
            id = next;
            counter += 1;
        }
        let folder = Folder { id: id.clone(), name: trim(name) };
        self.folders.push(folder);
        proof {
            assert(folders_view(self.folders@) =~= folders_view(old(self).folders@).push((id@, trimmed(name@))));
            assert(self.folder_ids() =~= ids.push(id@));
        }
        id
    }

    /// Renames the first folder with `id`; `false` when there is none.
    pub fn rename_folder(&mut self, id: &str, name: &str) -> (found: bool)
        ensures
            found == old(self).folder_ids().contains(id@),
            match folder_index(old(self).folders@, id@) {
                Some(i) => folders_view(final(self).folders@) == folders_view(old(self).folders@).update(i, (id@, trimmed(name@))),
                None => final(self).folders == old(self).folders,
            },
            final(self).hidden_installations == old(self).hidden_installations,
            final(self).custom_installations == old(self).custom_installations,
            final(self).account_folders == old(self).account_folders,
            final(self).account_colors == old(self).account_colors,
            final(self).show_installation_selector == old(self).show_installation_selector,
            final(self).show_machine_playtime == old(self).show_machine_playtime,
    {
        match folder_position(&self.folders, id) {
            Some(index) => {
                let folder = Folder { id: self.folders[index].id.clone(), name: trim(name) };
                self.folders.set(index, folder);
                proof {
                    let i = index as int;
                    let ids = folder_ids(old(self).folders@);
                    lemma_first_where_found(ids, |x: Seq<char>| x == id@, i);
                    assert(ids[i] == id@);
                    assert(folders_view(self.folders@) =~= folders_view(old(self).folders@).update(i, (id@, trimmed(name@))));
                }
                true
            },
            None => false,
        }
    }

    /// Deletes the folders with `id` and moves their accounts back to the
    /// root; `true` when a folder was removed.
    pub fn delete_folder(&mut self, id: &str) -> (removed: bool)
        requires
            old(self).wf(),
        ensures
            final(self).wf(),
            removed == old(self).folder_ids().contains(id@),
            folders_view(final(self).folders@) == folders_view(old(self).folders@).filter(|p: (Seq<char>, Seq<char>)| p.0 != id@),
            pairs_view(final(self).account_folders@) == without_value(pairs_view(old(self).account_folders@), id@),
            forall|k: Seq<char>| #[trigger] pair_lookup(pairs_view(final(self).account_folders@), k) != Some(id@),
            final(self).hidden_installations == old(self).hidden_installations,
            final(self).custom_installations == old(self).custom_installations,
            final(self).account_colors == old(self).account_colors,
            final(self).show_installation_selector == old(self).show_installation_selector,
            final(self).show_machine_playtime == old(self).show_machine_playtime,
    {
        let before = self.folders.len();
        let ghost old_view = folders_view(self.folders@);
        let present = folder_position(&self.folders, id).is_some();
        remove_folders(&mut self.folders, id);
        remove_pairs_with_value(&mut self.account_folders, id);
        proof {
            law_deleted_folder_holds_no_account(pairs_view(old(self).account_folders@), id@);
            let kept = folders_view(self.folders@);
            let keep = |p: (Seq<char>, Seq<char>)| p.0 != id@;
            assert(kept == old_view.filter(keep));
            assert(kept.len() == self.folders@.len());
            assert(old_view.len() == before);
            if present {
                let i = choose|i: int| 0 <= i < folder_ids(old(self).folders@).len() && folder_ids(old(self).folders@)[i] == id@;
                assert(old_view[i].0 == id@);
                lemma_filter_drops(old_view, keep, i);
            } else {
                assert forall|i: int| 0 <= i < old_view.len() implies keep(old_view[i]) by {
                    assert(old_view[i].0 == folder_ids(old(self).folders@)[i]);
                }
                lemma_filter_keeps_all(old_view, keep);
            }
        }
        self.folders.len() != before
    }
}

/// Filtering out an element that is there shortens the sequence.
proof fn lemma_filter_drops<A>(s: Seq<A>, keep: spec_fn(A) -> bool, i: int)
    requires
        0 <= i < s.len(),
        !keep(s[i]),
    ensures
        s.filter(keep).len() < s.len(),
    decreases s.len(),
{
    reveal(Seq::filter);
    s.drop_last().lemma_filter_len(keep);
    if i < s.len() - 1 {
        lemma_filter_drops(s.drop_last(), keep, i);
    }
}



impl Settings {
    /// Moves an account into a folder, or back to the root when `folder` is
    /// `None` or names a folder that does not exist.
    pub fn set_account_folder(&mut self, steam_id: &str, folder: Option<&str>)
        requires
            old(self).wf(),
        ensures
            final(self).wf(),
            forall|k: Seq<char>|
                #[trigger] pair_lookup(pairs_view(final(self).account_folders@), k) == if k == steam_id@ {
                    match folder {
                        Some(f) => if old(self).folder_ids().contains(f@) {
                            Some(f@)
                        } else {
                            None
                        },
                        None => None,
                    }
                } else {
                    pair_lookup(pairs_view(old(self).account_folders@), k)
                },
            final(self).folders == old(self).folders,
            final(self).hidden_installations == old(self).hidden_installations,
            final(self).custom_installations == old(self).custom_installations,
            final(self).account_colors == old(self).account_colors,
            final(self).show_installation_selector == old(self).show_installation_selector,
            final(self).show_machine_playtime == old(self).show_machine_playtime,
    {
        let valid = match folder {
            Some(id) => folder_position(&self.folders, id).is_some(),
            None => false,
        };
        match folder {
            Some(id) if valid => {
                pair_set(&mut self.account_folders, steam_id, id.to_owned());
            },
            _ => {
                pair_remove(&mut self.account_folders, steam_id);
            },
        }
    }

    /// Sets the accent colour of an account card, or clears it when `color`
    /// is `None` or not a plain hex colour.
    pub fn set_account_color(&mut self, steam_id: &str, color: Option<&str>)
        requires
            old(self).wf(),
        ensures
            final(self).wf(),
            forall|k: Seq<char>|
                #[trigger] pair_lookup(pairs_view(final(self).account_colors@), k) == if k == steam_id@ {
                    match color {
                        Some(c) => if safe_color(c@) {
                            Some(c@)
                        } else {
                            None
                        },
                        None => None,
                    }
                } else {
                    pair_lookup(pairs_view(old(self).account_colors@), k)
                },
            final(self).folders == old(self).folders,
            final(self).hidden_installations == old(self).hidden_installations,
            final(self).custom_installations == old(self).custom_installations,
            final(self).account_folders == old(self).account_folders,
            final(self).show_installation_selector == old(self).show_installation_selector,
            final(self).show_machine_playtime == old(self).show_machine_playtime,
    {
        match color {
            Some(value) if is_safe_color(value) => {
                pair_set(&mut self.account_colors, steam_id, value.to_owned());
            },
            _ => {
                pair_remove(&mut self.account_colors, steam_id);
            },
        }
    }

    /// Folder id of an account, `None` for the root.
    pub fn account_folder(&self, steam_id: &str) -> (result: Option<&str>)
        ensures
            result matches Some(v) ==> pair_lookup(pairs_view(self.account_folders@), steam_id@) == Some(v@),
            result is None ==> pair_lookup(pairs_view(self.account_folders@), steam_id@) is None,
    {
        pair_get(&self.account_folders, steam_id)
    }

    /// How many of `accounts` sit in the folder `folder_id`.
    pub fn accounts_in_folder(&self, accounts: &Vec<SteamAccount>, folder_id: &str) -> (result: usize)
        ensures
            result == folder_members(pairs_view(self.account_folders@), account_ids(accounts@), folder_id@),
    {
        let ghost ids = account_ids(accounts@);
        let ghost pairs = pairs_view(self.account_folders@);
        let mut count: usize = 0;
        let mut index: usize = 0;
        proof {
            assert(ids.take(0) =~= Seq::<Seq<char>>::empty());
        }
        while index < accounts.len()
            invariant
                ids == account_ids(accounts@),
                pairs == pairs_view(self.account_folders@),
                index <= accounts@.len(),
                count <= index,
                count == folder_members(pairs, ids.take(index as int), folder_id@),
            decreases accounts@.len() - index,
        {
            proof {
                assert(ids.take(index + 1).drop_last() =~= ids.take(index as int));
                assert(ids.take(index + 1).last() == accounts@[index as int].steam_id@);
            }
            let inside = match self.account_folder(accounts[index].steam_id.as_str()) {
                Some(folder) => text_eq(folder, folder_id),
                None => false,
            };
            if inside {
                count += 1;
            }
            index += 1;
        }
        proof {
            assert(ids.take(index as int) =~= ids);
        }
        count
    }

    /// Accent colour of an account card, if one was set.
    pub fn account_color(&self, steam_id: &str) -> (result: Option<&str>)
        ensures
            result matches Some(v) ==> pair_lookup(pairs_view(self.account_colors@), steam_id@) == Some(v@),
            result is None ==> pair_lookup(pairs_view(self.account_colors@), steam_id@) is None,
    {
        pair_get(&self.account_colors, steam_id)
    }
}


/// The Steam ids of `accounts`, in order.
pub open spec fn account_ids(accounts: Seq<SteamAccount>) -> Seq<Seq<char>> {
    accounts.map_values(|a: SteamAccount| a.steam_id@)
}

/// How many of `ids` the folder assignments `pairs` put in `folder`.
pub open spec fn folder_members(pairs: Seq<(Seq<char>, Seq<char>)>, ids: Seq<Seq<char>>, folder: Seq<char>) -> nat
    decreases ids.len(),
{
    if ids.len() == 0 {
        0
    } else {
        folder_members(pairs, ids.drop_last(), folder) + if pair_lookup(pairs, ids.last()) == Some(folder) {
            1nat
        } else {
            0nat
        }
    }
}

/// Hiding an installation twice is hiding it once, and it is then hidden.
pub proof fn law_hiding_is_idempotent(hidden: Seq<Seq<char>>, root: Seq<char>)
    ensures
        with_entry(with_entry(hidden, root), root) == with_entry(hidden, root),
        names_root(with_entry(hidden, root), root),
{
    if !names_root(hidden, root) {
        assert(same_root(hidden.push(root)[hidden.len() as int], root));
    }
}

/// Showing an installation leaves no entry naming its root.
pub proof fn law_shown_is_not_hidden(hidden: Seq<Seq<char>>, root: Seq<char>)
    ensures
        !names_root(without(hidden, root), root),
{
    let kept = hidden.filter(apart_from(root));
    assert forall|i: int| 0 <= i < kept.len() implies !same_root(#[trigger] kept[i], root) by {
        hidden.lemma_filter_pred(apart_from(root), i);
    }
}

/// An installation added by hand is never hidden afterwards, whatever was
/// hidden before, under any text naming the same root.
pub proof fn law_custom_is_never_hidden(settings: Settings, root: Seq<char>)
    ensures
        names_root(with_entry(settings.custom(), root), root),
        !names_root(without(settings.hidden(), root), root),
{
    law_hiding_is_idempotent(settings.custom(), root);
    law_shown_is_not_hidden(settings.hidden(), root);
}

/// Once a folder is deleted no account is left in it.
pub proof fn law_deleted_folder_holds_no_account(pairs: Seq<(Seq<char>, Seq<char>)>, id: Seq<char>)
    ensures
        forall|k: Seq<char>|
            #[trigger] pair_lookup(without_value(pairs, id), k) != Some(id),
{
    let keep = |p: (Seq<char>, Seq<char>)| p.1 != id;
    let kept = pairs.filter(keep);
    assert forall|k: Seq<char>| #[trigger] pair_lookup(kept, k) != Some(id) by {
        let f = first_where(kept, |p: (Seq<char>, Seq<char>)| p.0 == k);
        if f is Some {
            let i = f.unwrap();
            pairs.lemma_filter_pred(keep, i);
        }
    }
}


/// The settings with the file they are kept in; reading and writing the
/// file is left to the caller.
pub struct SettingsStore {
    path: String,
    data: Settings,
}

impl SettingsStore {
    pub closed spec fn file(&self) -> Seq<char> {
        self.path@
    }

    pub closed spec fn settings(&self) -> Settings {
        self.data
    }

    /// Settings read from (or meant for) the file at `path`.
    pub fn new(path: String, data: Settings) -> (result: Self)
        ensures
            result.file() == path@,
            result.settings() == data,
    {
        SettingsStore { path, data }
    }

    pub fn data(&self) -> (result: &Settings)
        ensures
            *result == self.settings(),
    {
        &self.data
    }

    pub fn data_mut(&mut self) -> (result: &mut Settings)
        ensures
            *result == old(self).settings(),
            final(self).settings() == *final(result),
            final(self).file() == old(self).file(),
    {
        &mut self.data
    }

    pub fn path(&self) -> (result: &str)
        ensures
            result@ == self.file(),
    {
        self.path.as_str()
    }
}

/// A character a folder id may hold: an ASCII letter or digit, or a dash.
pub open spec fn id_char(c: char) -> bool {
    is_ascii_alnum(c) || c == '-'
}

/// Only id characters, and no two dashes in a row.
pub open spec fn dash_clean(s: Seq<char>) -> bool {
    &&& forall|i: int| 0 <= i < s.len() ==> id_char(#[trigger] s[i])
    &&& forall|i: int| 0 <= i < s.len() - 1 ==> !(#[trigger] s[i] == '-' && s[i + 1] == '-')
}

/// A plain folder id: not empty, ASCII letters, digits and single dashes,
/// neither starting nor ending with a dash.
pub open spec fn plain_id(s: Seq<char>) -> bool {
    &&& s.len() > 0
    &&& dash_clean(s)
    &&& s[0] != '-'
    &&& s.last() != '-'
}

proof fn lemma_single_dashes(s: Seq<char>)
    requires
        forall|i: int| 0 <= i < s.len() ==> id_char(#[trigger] s[i]),
    ensures
        dash_clean(single_dashes(s)),
    decreases s.len(),
{
    if s.len() > 0 {
        let rest = s.drop_last();
        assert forall|i: int| 0 <= i < rest.len() implies id_char(#[trigger] rest[i]) by {
            assert(rest[i] == s[i]);
        }
        lemma_single_dashes(rest);
        let d = single_dashes(rest);
        if !(s.last() == '-' && d.len() > 0 && d.last() == '-') {
            let r = d.push(s.last());
            assert(id_char(s[s.len() - 1]));
            assert forall|i: int| 0 <= i < r.len() implies id_char(#[trigger] r[i]) by {
                if i < d.len() {
                    assert(r[i] == d[i]);
                }
            }
            assert forall|i: int| 0 <= i < r.len() - 1 implies !(#[trigger] r[i] == '-' && r[i + 1] == '-') by {
                assert(r[i] == d[i]);
                if i + 1 < d.len() {
                    assert(r[i + 1] == d[i + 1]);
                }
            }
        }
    }
}

proof fn lemma_drop_leading(s: Seq<char>)
    requires
        dash_clean(s),
    ensures
        dash_clean(drop_leading_dashes(s)),
        drop_leading_dashes(s).len() > 0 ==> drop_leading_dashes(s)[0] != '-',
    decreases s.len(),
{
    if s.len() > 0 && s[0] == '-' {
        let rest = s.drop_first();
        assert forall|i: int| 0 <= i < rest.len() implies id_char(#[trigger] rest[i]) by {
            assert(rest[i] == s[i + 1]);
        }
        assert forall|i: int| 0 <= i < rest.len() - 1 implies !(#[trigger] rest[i] == '-' && rest[i + 1] == '-') by {
            assert(rest[i] == s[i + 1] && rest[i + 1] == s[i + 2]);
        }
        lemma_drop_leading(rest);
    }
}

proof fn lemma_drop_trailing(s: Seq<char>)
    requires
        dash_clean(s),
        s.len() > 0 ==> s[0] != '-',
    ensures
        dash_clean(drop_trailing_dashes(s)),
        drop_trailing_dashes(s).len() > 0 ==> drop_trailing_dashes(s)[0] != '-' && drop_trailing_dashes(s).last() != '-',
    decreases s.len(),
{
    if s.len() > 0 && s.last() == '-' {
        let rest = s.drop_last();
        assert forall|i: int| 0 <= i < rest.len() implies id_char(#[trigger] rest[i]) by {
            assert(rest[i] == s[i]);
        }
        assert forall|i: int| 0 <= i < rest.len() - 1 implies !(#[trigger] rest[i] == '-' && rest[i + 1] == '-') by {
            assert(rest[i] == s[i] && rest[i + 1] == s[i + 1]);
        }
        if rest.len() > 0 {
            assert(rest[0] == s[0]);
        }
        lemma_drop_trailing(rest);
    }
}

/// Law: a folder id derived from any name is plain: not empty, made of ASCII
/// letters, digits and single dashes, with no dash at either end. (Which
/// letters the Unicode lower case leaves is not stated here.)
pub proof fn law_folder_ids_are_plain(name: Seq<char>)
    ensures
        plain_id(slug_of(name)),
{
    let mapped = lowercase(trimmed(name)).map_values(|c: char| slug_char(c));
    assert forall|i: int| 0 <= i < mapped.len() implies id_char(#[trigger] mapped[i]) by {}
    lemma_single_dashes(mapped);
    let single = single_dashes(mapped);
    lemma_drop_leading(single);
    let lead = drop_leading_dashes(single);
    lemma_drop_trailing(lead);
    let stripped = drop_trailing_dashes(lead);
    if stripped.len() == 0 {
        reveal_strlit("folder");
        let f = "folder"@;
        assert(f.len() == 6);
        assert forall|i: int| 0 <= i < f.len() implies id_char(#[trigger] f[i]) by {}
        assert forall|i: int| 0 <= i < f.len() - 1 implies !(#[trigger] f[i] == '-' && f[i + 1] == '-') by {}
    }
}

} // verus!
