//! Rank ladders, one per game. An account stores a template id and a value
//! ("Diamond 3", or "21340" for the CS2 Premier rating).

use vstd::prelude::*;
use vstd::string::StringExecFns;
use crate::text::{
    all_digits, ascii_lower, ascii_lower_seq, ascii_lowercase, chars_of, decimal, decimal_string, digit_char, digits_value,
    eq_ignore_ascii_case, lemma_digit_char,
    first_where, is_digit, is_white, is_white_char, lemma_first_where_found, lemma_first_where_none,
    same_ignoring_ascii_case, string_from_chars, text_eq,
};

verus! {

/// How the values of a template are entered and shown.
#[derive(Debug, Clone, Copy, PartialEq, Eq, Structural)]
pub enum RankKind {
    /// A list of named ranks ("Global Elite", "Platinum 3").
    Tiered,
    /// A number the player types in, as in CS2 Premier (0 to 50 000).
    Rating,
}

impl RankKind {
    pub open spec fn name(self) -> Seq<char> {
        match self {
            RankKind::Tiered => "tiered"@,
            RankKind::Rating => "rating"@,
        }
    }

    pub fn as_str(self) -> (result: &'static str)
        ensures
            result@ == self.name(),
    {
        match self {
            RankKind::Tiered => "tiered",
            RankKind::Rating => "rating",
        }
    }
}

/// One selectable rank of a tiered template.
#[derive(Debug, Clone, PartialEq, Eq)]
pub struct RankEntry {
    /// Stored value and shown label ("Diamond 3").
    pub value: String,
    /// Icon file stem inside the template folder ("diamond"), empty when the
    /// ladder has no artwork for that tier.
    pub family: String,
}

/// A rank ladder: Marvel Rivals, Overwatch, CS2 competitive or CS2 Premier.
#[derive(Debug, PartialEq, Eq)]
pub struct RankTemplate {
    pub id: &'static str,
    pub label: &'static str,
    pub kind: RankKind,
    pub ranks: Vec<RankEntry>,
    /// Highest rating accepted by a `Rating` template.
    pub max_rating: Option<u32>,
}

/// Model of a ladder.
pub struct Ladder {
    pub id: Seq<char>,
    pub label: Seq<char>,
    pub kind: RankKind,
    pub ranks: Seq<(Seq<char>, Seq<char>)>,
    pub max_rating: Option<u32>,
}

pub open spec fn entry_view(e: RankEntry) -> (Seq<char>, Seq<char>) {
    (e.value@, e.family@)
}

pub open spec fn entries_view(es: Seq<RankEntry>) -> Seq<(Seq<char>, Seq<char>)> {
    es.map_values(|e: RankEntry| entry_view(e))
}

impl RankTemplate {
    pub open spec fn model(&self) -> Ladder {
        Ladder {
            id: self.id@,
            label: self.label@,
            kind: self.kind,
            ranks: entries_view(self.ranks@),
            max_rating: self.max_rating,
        }
    }
}

/// The ladder used when an account has never been given a template, which is
/// also the one the previous versions of this application stored.
pub const DEFAULT_TEMPLATE: &'static str = "marvel-rivals";

/// CS2 Premier ratings run from 0 to 50 000.
pub const MAX_PREMIER_RATING: u32 = 50_000;

/// Unranked is available everywhere and is what an unknown value falls back to.
pub const UNRANKED: &'static str = "Unranked";

pub open spec fn unranked_entry() -> (Seq<char>, Seq<char>) {
    (UNRANKED@, ""@)
}

pub open spec fn marvel_families() -> Seq<Seq<char>> {
    seq!["Bronze"@, "Silver"@, "Gold"@, "Platinum"@, "Diamond"@, "Grandmaster"@, "Celestial"@]
}

pub open spec fn overwatch_families() -> Seq<Seq<char>> {
    seq!["Bronze"@, "Silver"@, "Gold"@, "Platinum"@, "Emerald"@, "Diamond"@, "Grandmaster"@]
}

/// Tier `family` with division `division`, as "Diamond 3" with icon "diamond".
pub open spec fn division_entry(family: Seq<char>, division: nat) -> (Seq<char>, Seq<char>) {
    (family + " "@ + decimal(division), ascii_lower_seq(family))
}

/// Marvel Rivals: seven tiers with three divisions each (3, 2, 1), then
/// Eternity and the Top 500 (One Above All).
pub open spec fn marvel_ladder() -> Seq<(Seq<char>, Seq<char>)> {
    seq![unranked_entry()]
        + Seq::new(21, |i: int| division_entry(marvel_families()[i / 3], (3 - i % 3) as nat))
        + seq![("Eternity"@, "eternity"@), ("Top 500"@, "one-above-all"@)]
}

/// Overwatch: seven tiers with five divisions (5 down to 1), then Top 500.
pub open spec fn overwatch_ladder() -> Seq<(Seq<char>, Seq<char>)> {
    seq![unranked_entry()]
        + Seq::new(35, |i: int| division_entry(overwatch_families()[i / 5], (5 - i % 5) as nat))
        + seq![("Top 500"@, "top-500"@)]
}

pub open spec fn cs2_names() -> Seq<(Seq<char>, Seq<char>)> {
    seq![
        ("Silver I"@, "silver-1"@),
        ("Silver II"@, "silver-2"@),
        ("Silver III"@, "silver-3"@),
        ("Silver IV"@, "silver-4"@),
        ("Silver Elite"@, "silver-elite"@),
        ("Silver Elite Master"@, "silver-elite-master"@),
        ("Gold Nova I"@, "gold-nova-1"@),
        ("Gold Nova II"@, "gold-nova-2"@),
        ("Gold Nova III"@, "gold-nova-3"@),
        ("Gold Nova Master"@, "gold-nova-master"@),
        ("Master Guardian I"@, "master-guardian-1"@),
        ("Master Guardian II"@, "master-guardian-2"@),
        ("Master Guardian Elite"@, "master-guardian-elite"@),
        ("Distinguished Master Guardian"@, "distinguished-master-guardian"@),
        ("Legendary Eagle"@, "legendary-eagle"@),
        ("Legendary Eagle Master"@, "legendary-eagle-master"@),
        ("Supreme Master First Class"@, "supreme-master-first-class"@),
        ("Global Elite"@, "global-elite"@),
    ]
}

/// Counter-Strike 2 competitive: the eighteen classic ranks.
pub open spec fn cs2_ladder() -> Seq<(Seq<char>, Seq<char>)> {
    seq![unranked_entry()] + cs2_names()
}

/// Every ladder, in menu order.
pub open spec fn ladders() -> Seq<Ladder> {
    seq![
        Ladder { id: DEFAULT_TEMPLATE@, label: "Marvel Rivals"@, kind: RankKind::Tiered, ranks: marvel_ladder(), max_rating: None },
        Ladder { id: "overwatch"@, label: "Overwatch"@, kind: RankKind::Tiered, ranks: overwatch_ladder(), max_rating: None },
        Ladder { id: "cs2"@, label: "Counter-Strike 2"@, kind: RankKind::Tiered, ranks: cs2_ladder(), max_rating: None },
        Ladder {
            id: "cs2-premier"@,
            label: "Counter-Strike 2 (Premier)"@,
            kind: RankKind::Rating,
            ranks: seq![],
            max_rating: Some(MAX_PREMIER_RATING),
        },
    ]
}


fn unranked() -> (result: RankEntry)
    ensures
        entry_view(result) == unranked_entry(),
{
    entry(UNRANKED, "")
}

fn entry(value: &str, family: &str) -> (result: RankEntry)
    ensures
        entry_view(result) == (value@, family@),
{
    RankEntry { value: value.to_owned(), family: family.to_owned() }
}

fn division_ranks(families: &[&str], divisions: u64, ranks: &mut Vec<RankEntry>)
    requires
        1 <= divisions <= 9,
    ensures
        entries_view(final(ranks)@) == entries_view(old(ranks)@) + Seq::new(
            (families@.len() * divisions) as nat,
            |i: int| division_entry(families@[i / divisions as int]@, (divisions - i % divisions as int) as nat),
        ),
{
    let ghost start = entries_view(ranks@);
    let ghost d = divisions as int;
    let mut index: usize = 0;
    proof {
        assert(entries_view(ranks@) =~= start + Seq::new(0, |i: int| division_entry(families@[i / d]@, (d - i % d) as nat)));
    }
    while index < families.len()
        invariant
            1 <= divisions <= 9,
            d == divisions as int,
            index <= families@.len(),
            entries_view(ranks@) == start + Seq::new(
                (index * divisions) as nat,
                |i: int| division_entry(families@[i / d]@, (d - i % d) as nat),
            ),
        decreases families@.len() - index,
    {
        let family = families[index];
        let icon = ascii_lowercase(family);
        let mut division = divisions;
        while division >= 1
            invariant
                1 <= divisions <= 9,
                d == divisions as int,
                index < families@.len(),
                family@ == families@[index as int]@,
                icon@ == ascii_lower_seq(family@),
                division <= divisions,
                entries_view(ranks@) == start + Seq::new(
                    (index * divisions + (divisions - division)) as nat,
                    |i: int| division_entry(families@[i / d]@, (d - i % d) as nat),
                ),
            decreases division,
        {
            let mut value = family.to_owned();
            value.append(" ");
            value.append(decimal_string(division).as_str());
            let ghost before = entries_view(ranks@);
            ranks.push(RankEntry { value, family: icon.clone() });
            proof {
                reveal_strlit(" ");
                let n = index * divisions + (divisions - division);
                assert(n / d == index as int) by (nonlinear_arith)
                    requires
                        n == index * divisions + (divisions - division),
                        1 <= division <= divisions,
                        d == divisions;
                assert(n % d == divisions - division) by (nonlinear_arith)
                    requires
                        n == index * divisions + (divisions - division),
                        1 <= division <= divisions,
                        d == divisions;
                assert(entries_view(ranks@) =~= before.push(division_entry(family@, division as nat)));
                assert(entries_view(ranks@) =~= start + Seq::new(
                    (n + 1) as nat,
                    |i: int| division_entry(families@[i / d]@, (d - i % d) as nat),
                ));
            }
            division -= 1;
        }
        proof {
            assert((index + 1) * divisions == index * divisions + divisions) by (nonlinear_arith);
        }
        index += 1;
    }
}

/// The ladder has this id.
pub open spec fn has_id(id: Seq<char>) -> spec_fn(Ladder) -> bool {
    |l: Ladder| l.id == id
}

/// The ladder with this id.
pub open spec fn ladder_for(id: Seq<char>) -> Option<Ladder> {
    match first_where(ladders(), has_id(id)) {
        Some(i) => Some(ladders()[i]),
        None => None,
    }
}

/// The first text of the pair matches `x`, ignoring ASCII case.
pub open spec fn named_ci(x: Seq<char>) -> spec_fn((Seq<char>, Seq<char>)) -> bool {
    |e: (Seq<char>, Seq<char>)| same_ignoring_ascii_case(e.0, x)
}

/// Old spellings kept for compatibility with the previous rank list.
pub open spec fn aliases() -> Seq<(Seq<char>, Seq<char>)> {
    seq![
        ("Platine 3"@, "Platinum 3"@),
        ("Platine 2"@, "Platinum 2"@),
        ("Platine 1"@, "Platinum 1"@),
        ("Grand Master 3"@, "Grandmaster 3"@),
        ("Grand Master 2"@, "Grandmaster 2"@),
        ("Grand Master 1"@, "Grandmaster 1"@),
        ("One Above All"@, "Top 500"@),
    ]
}

/// A value with an old spelling replaced by the current one.
pub open spec fn resolved(x: Seq<char>) -> Seq<char> {
    match first_where(aliases(), named_ci(x)) {
        Some(i) => aliases()[i].1,
        None => x,
    }
}

/// `split_whitespace` joined by single spaces: the text without leading or
/// trailing white space, each run of white space between two words replaced
/// by one space.
pub open spec fn collapsed(s: Seq<char>) -> Seq<char>
    decreases s.len(),
{
    if s.len() == 0 {
        seq![]
    } else {
        let c = s.last();
        let p = s.drop_last();
        let cp = collapsed(p);
        if is_white(c) {
            cp
        } else if p.len() > 0 && is_white(p.last()) && cp.len() > 0 {
            cp.push(' ').push(c)
        } else {
            cp.push(c)
        }
    }
}

pub open spec fn digit_filter() -> spec_fn(char) -> bool {
    |c: char| is_digit(c)
}

/// A Premier rating read from the digits of a text as one number, clamped
/// to the accepted range; nothing without digits.
pub open spec fn rating_of(s: Seq<char>) -> Option<u32> {
    let d = s.filter(digit_filter());
    if d.len() == 0 {
        None
    } else if digits_value(d) > MAX_PREMIER_RATING {
        Some(MAX_PREMIER_RATING)
    } else {
        Some(digits_value(d) as u32)
    }
}

/// The rank stored for `value` in ladder `id`, Unranked when unknown.
pub open spec fn normalized(id: Seq<char>, value: Seq<char>) -> Seq<char> {
    let r = resolved(collapsed(value));
    match ladder_for(id) {
        None => UNRANKED@,
        Some(l) => match l.kind {
            RankKind::Tiered => match first_where(l.ranks, named_ci(r)) {
                Some(i) => l.ranks[i].0,
                None => UNRANKED@,
            },
            RankKind::Rating => match rating_of(r) {
                Some(n) => decimal(n as nat),
                None => UNRANKED@,
            },
        },
    }
}

/// Icon of a stored value, empty when the tier has no artwork.
pub open spec fn family_of(id: Seq<char>, value: Seq<char>) -> Seq<char> {
    match ladder_for(id) {
        None => ""@,
        Some(l) => match first_where(l.ranks, named_ci(value)) {
            Some(i) => l.ranks[i].1,
            None => ""@,
        },
    }
}

fn marvel_ranks() -> (result: Vec<RankEntry>)
    ensures
        entries_view(result@) == marvel_ladder(),
{
    let mut ranks = vec![unranked()];
    let families: [&str; 7] = ["Bronze", "Silver", "Gold", "Platinum", "Diamond", "Grandmaster", "Celestial"];
    proof {
        assert(entries_view(ranks@) =~= seq![unranked_entry()]);
    }
    division_ranks(&families, 3, &mut ranks);
    ranks.push(entry("Eternity", "eternity"));
    ranks.push(entry("Top 500", "one-above-all"));
    proof {
        assert(families@.map_values(|f: &str| f@) =~= marvel_families());
        let made = Seq::new(21, |i: int| division_entry(families@[i / 3]@, (3 - i % 3) as nat));
        let wanted = Seq::new(21, |i: int| division_entry(marvel_families()[i / 3], (3 - i % 3) as nat));
        assert forall|i: int| 0 <= i < 21 implies made[i] == wanted[i] by {
            assert(families@.map_values(|f: &str| f@)[i / 3] == families@[i / 3]@);
        }
        assert(made =~= wanted);
        assert(entries_view(ranks@) =~= marvel_ladder());
    }
    ranks
}

fn overwatch_ranks() -> (result: Vec<RankEntry>)
    ensures
        entries_view(result@) == overwatch_ladder(),
{
    let mut ranks = vec![unranked()];
    let families: [&str; 7] = ["Bronze", "Silver", "Gold", "Platinum", "Emerald", "Diamond", "Grandmaster"];
    proof {
        assert(entries_view(ranks@) =~= seq![unranked_entry()]);
    }
    division_ranks(&families, 5, &mut ranks);
    ranks.push(entry("Top 500", "top-500"));
    proof {
        assert(families@.map_values(|f: &str| f@) =~= overwatch_families());
        let made = Seq::new(35, |i: int| division_entry(families@[i / 5]@, (5 - i % 5) as nat));
        let wanted = Seq::new(35, |i: int| division_entry(overwatch_families()[i / 5], (5 - i % 5) as nat));
        assert forall|i: int| 0 <= i < 35 implies made[i] == wanted[i] by {
            assert(families@.map_values(|f: &str| f@)[i / 5] == families@[i / 5]@);
        }
        assert(made =~= wanted);
        assert(entries_view(ranks@) =~= overwatch_ladder());
    }
    ranks
}

fn cs2_ranks() -> (result: Vec<RankEntry>)
    ensures
        entries_view(result@) == cs2_ladder(),
{
    let mut ranks = vec![unranked()];
    ranks.push(entry("Silver I", "silver-1"));
    ranks.push(entry("Silver II", "silver-2"));
    ranks.push(entry("Silver III", "silver-3"));
    ranks.push(entry("Silver IV", "silver-4"));
    ranks.push(entry("Silver Elite", "silver-elite"));
    ranks.push(entry("Silver Elite Master", "silver-elite-master"));
    ranks.push(entry("Gold Nova I", "gold-nova-1"));
    ranks.push(entry("Gold Nova II", "gold-nova-2"));
    ranks.push(entry("Gold Nova III", "gold-nova-3"));
    ranks.push(entry("Gold Nova Master", "gold-nova-master"));
    ranks.push(entry("Master Guardian I", "master-guardian-1"));
    ranks.push(entry("Master Guardian II", "master-guardian-2"));
    ranks.push(entry("Master Guardian Elite", "master-guardian-elite"));
    ranks.push(entry("Distinguished Master Guardian", "distinguished-master-guardian"));
    ranks.push(entry("Legendary Eagle", "legendary-eagle"));
    ranks.push(entry("Legendary Eagle Master", "legendary-eagle-master"));
    ranks.push(entry("Supreme Master First Class", "supreme-master-first-class"));
    ranks.push(entry("Global Elite", "global-elite"));
    proof {
        assert(entries_view(ranks@) =~= cs2_ladder());
    }
    ranks
}

/// Every ladder the interface offers, in menu order.
pub fn templates() -> (result: Vec<RankTemplate>)
    ensures
        result@.len() == ladders().len(),
        forall|i: int| 0 <= i < result@.len() ==> #[trigger] result@[i].model() == ladders()[i],
{
    let result = vec![
        RankTemplate {
            id: DEFAULT_TEMPLATE,
            label: "Marvel Rivals",
            kind: RankKind::Tiered,
            ranks: marvel_ranks(),
            max_rating: None,
        },
        RankTemplate {
            id: "overwatch",
            label: "Overwatch",
            kind: RankKind::Tiered,
            ranks: overwatch_ranks(),
            max_rating: None,
        },
        RankTemplate {
            id: "cs2",
            label: "Counter-Strike 2",
            kind: RankKind::Tiered,
            ranks: cs2_ranks(),
            max_rating: None,
        },
        RankTemplate {
            id: "cs2-premier",
            label: "Counter-Strike 2 (Premier)",
            kind: RankKind::Rating,
            ranks: Vec::new(),
            max_rating: Some(MAX_PREMIER_RATING),
        },
    ];
    proof {
        assert(entries_view(result@[3].ranks@) =~= Seq::<(Seq<char>, Seq<char>)>::empty());
        assert forall|i: int| 0 <= i < result@.len() implies #[trigger] result@[i].model() == ladders()[i] by {
        }
    }
    result
}

/// The ladder with this id.
pub fn template(id: &str) -> (result: Option<RankTemplate>)
    ensures
        match ladder_for(id@) {
            Some(l) => result is Some && result.unwrap().model() == l,
            None => result is None,
        },
{
    let mut all = templates();
    let mut index: usize = 0;
    while index < all.len()
        invariant
            all@.len() == ladders().len(),
            forall|i: int| 0 <= i < all@.len() ==> #[trigger] all@[i].model() == ladders()[i],
            index <= all@.len(),
            forall|j: int| 0 <= j < index ==> !has_id(id@)(#[trigger] ladders()[j]),
        decreases all@.len() - index,
    {
        if text_eq(all[index].id, id) {
            proof {
                assert(all@[index as int].model() == ladders()[index as int]);
                lemma_first_where_found(ladders(), has_id(id@), index as int);
            }
            return Some(all.remove(index));
        }
        proof {
            assert(all@[index as int].model() == ladders()[index as int]);
        }
        index += 1;
    }
    proof {
        lemma_first_where_none(ladders(), has_id(id@));
    }
    None
}

/// Collapses white space as `split_whitespace` followed by `join(" ")`.
fn collapse(value: &str) -> (result: String)
    ensures
        result@ == collapsed(value@),
{
    let chars = chars_of(value);
    let mut out: Vec<char> = Vec::new();
    let mut index: usize = 0;
    proof {
        assert(value@.take(0) =~= Seq::<char>::empty());
    }
    while index < chars.len()
        invariant
            chars@ == value@,
            index <= chars@.len(),
            out@ == collapsed(value@.take(index as int)),
        decreases chars@.len() - index,
    {
        let c = chars[index];
        proof {
            let next = value@.take(index + 1);
            assert(next.drop_last() =~= value@.take(index as int));
            assert(next.last() == c);
            if index > 0 {
                assert(value@.take(index as int).last() == chars@[index - 1]);
            }
        }
        if is_white_char(c) {
        } else if index > 0 && is_white_char(chars[index - 1]) && out.len() > 0 {
            out.push(' ');
            out.push(c);
        } else {
            out.push(c);
        }
        index += 1;
    }
    proof {
        assert(value@.take(index as int) =~= value@);
    }
    string_from_chars(out.as_slice())
}

fn rank_aliases() -> (result: Vec<(&'static str, &'static str)>)
    ensures
        result@.map_values(|a: (&str, &str)| (a.0@, a.1@)) == aliases(),
{
    let result = vec![
        ("Platine 3", "Platinum 3"),
        ("Platine 2", "Platinum 2"),
        ("Platine 1", "Platinum 1"),
        ("Grand Master 3", "Grandmaster 3"),
        ("Grand Master 2", "Grandmaster 2"),
        ("Grand Master 1", "Grandmaster 1"),
        ("One Above All", "Top 500"),
    ];
    proof {
        assert(result@.map_values(|a: (&str, &str)| (a.0@, a.1@)) =~= aliases());
    }
    result
}

fn resolve_alias(collapsed_value: String) -> (result: String)
    ensures
        result@ == resolved(collapsed_value@),
{
    let all = rank_aliases();
    let ghost view = all@.map_values(|a: (&str, &str)| (a.0@, a.1@));
    let mut index: usize = 0;
    while index < all.len()
        invariant
            view == aliases(),
            view == all@.map_values(|a: (&str, &str)| (a.0@, a.1@)),
            index <= all@.len(),
            forall|j: int| 0 <= j < index ==> !named_ci(collapsed_value@)(#[trigger] aliases()[j]),
        decreases all@.len() - index,
    {
        let (alias, canonical) = all[index];
        proof {
            assert(view[index as int] == (alias@, canonical@));
        }
        if eq_ignore_ascii_case(alias, collapsed_value.as_str()) {
            proof {
                lemma_first_where_found(aliases(), named_ci(collapsed_value@), index as int);
            }
            return canonical.to_owned();
        }
        index += 1;
    }
    proof {
        lemma_first_where_none(aliases(), named_ci(collapsed_value@));
    }
    collapsed_value
}

/// Position of the entry whose value matches `value`, ignoring ASCII case.
fn find_rank(ranks: &Vec<RankEntry>, value: &str) -> (result: Option<usize>)
    ensures
        match first_where(entries_view(ranks@), named_ci(value@)) {
            Some(i) => result == Some(i as usize),
            None => result is None,
        },
{
    let ghost view = entries_view(ranks@);
    let mut index: usize = 0;
    while index < ranks.len()
        invariant
            view == entries_view(ranks@),
            index <= ranks@.len(),
            forall|j: int| 0 <= j < index ==> !named_ci(value@)(#[trigger] view[j]),
        decreases ranks@.len() - index,
    {
        proof {
            assert(view[index as int] == entry_view(ranks@[index as int]));
        }
        if eq_ignore_ascii_case(ranks[index].value.as_str(), value) {
            proof {
                lemma_first_where_found(view, named_ci(value@), index as int);
            }
            return Some(index);
        }
        index += 1;
    }
    proof {
        lemma_first_where_none(view, named_ci(value@));
    }
    None
}

/// Rank of `value` inside `template_id`, falling back to Unranked.
pub fn normalize(template_id: &str, value: &str) -> (result: String)
    ensures
        result@ == normalized(template_id@, value@),
{
    let collapsed_value = collapse(value);
    let resolved_value = resolve_alias(collapsed_value);
    let template = match template(template_id) {
        Some(template) => template,
        None => {
            return UNRANKED.to_owned();
        },
    };
    match template.kind {
        RankKind::Tiered => match find_rank(&template.ranks, resolved_value.as_str()) {
            Some(index) => {
                proof {
                    assert(entries_view(template.ranks@)[index as int] == entry_view(template.ranks@[index as int]));
                }
                template.ranks[index].value.clone()
            },
            None => UNRANKED.to_owned(),
        },
        RankKind::Rating => match rating(resolved_value.as_str()) {
            Some(rating) => decimal_string(rating as u64),
            None => UNRANKED.to_owned(),
        },
    }
}

/// Icon file stem for a stored value, empty when the tier has no artwork.
pub fn family(template_id: &str, value: &str) -> (result: String)
    ensures
        result@ == family_of(template_id@, value@),
{
    proof {
        reveal_strlit("");
    }
    match template(template_id) {
        Some(template) => match find_rank(&template.ranks, value) {
            Some(index) => {
                proof {
                    assert(entries_view(template.ranks@)[index as int] == entry_view(template.ranks@[index as int]));
                }
                template.ranks[index].family.clone()
            },
            None => String::new(),
        },
        None => String::new(),
    }
}

/// The kind of the ladder `id` names, tiered when it names none.
pub fn template_kind(id: &str) -> (result: RankKind)
    ensures
        result == match ladder_for(id@) {
            Some(l) => l.kind,
            None => RankKind::Tiered,
        },
{
    match template(id) {
        Some(ladder) => ladder.kind,
        None => RankKind::Tiered,
    }
}

/// Parses a Premier rating, clamped to the accepted range.
pub fn rating(value: &str) -> (result: Option<u32>)
    ensures
        result == rating_of(value@),
{
    let chars = chars_of(value);
    let mut seen = false;
    let mut overflow = false;
    let mut number: u64 = 0;
    let mut index: usize = 0;
    proof {
        reveal(Seq::filter);
        assert(value@.take(0) =~= Seq::<char>::empty());
    }
    while index < chars.len()
        invariant
            chars@ == value@,
            index <= chars@.len(),
            seen == (value@.take(index as int).filter(digit_filter()).len() > 0),
            overflow == (digits_value(value@.take(index as int).filter(digit_filter())) > u32::MAX),
            !overflow ==> number == digits_value(value@.take(index as int).filter(digit_filter())),
            number <= u32::MAX,
        decreases chars@.len() - index,
    {
        let c = chars[index];
        let ghost before = value@.take(index as int).filter(digit_filter());
        proof {
            reveal(Seq::filter);
            let next = value@.take(index + 1);
            assert(next.drop_last() =~= value@.take(index as int));
            assert(next.last() == c);
        }
        if '0' <= c && c <= '9' {
            seen = true;
            let d = (c as u32 - '0' as u32) as u64;
            proof {
                let after = value@.take(index + 1).filter(digit_filter());
                assert(after == before.push(c));
                assert(after.drop_last() =~= before);
                assert(digits_value(after) == digits_value(before) * 10 + d);
            }
            if !overflow {
                let candidate = number * 10 + d;
                if candidate > 4_294_967_295u64 {
                    overflow = true;
                } else {
                    number = candidate;
                }
            }
        }
        index += 1;
    }
    proof {
        assert(value@.take(index as int) =~= value@);
    }
    if !seen {
        None
    } else if overflow || number > MAX_PREMIER_RATING as u64 {
        Some(MAX_PREMIER_RATING)
    } else {
        Some(number as u32)
    }
}


/// The default ladder is one of the ladders.
pub proof fn lemma_default_ladder_known()
    ensures
        ladder_for(DEFAULT_TEMPLATE@) is Some,
{
    lemma_first_where_found(ladders(), has_id(DEFAULT_TEMPLATE@), 0);
}


/// No white space but single plain spaces between words.
pub open spec fn well_spaced(x: Seq<char>) -> bool {
    &&& x.len() > 0 ==> !is_white(x[0]) && !is_white(x.last())
    &&& forall|i: int|
        0 <= i < x.len() && is_white(#[trigger] x[i]) ==> x[i] == ' ' && i + 1 < x.len() && !is_white(x[i + 1])
}

/// No white space but plain spaces, none at either end, none doubled.
proof fn lemma_collapsed_tidy(x: Seq<char>)
    requires
        x.len() > 0 ==> !is_white(x[0]),
        forall|i: int|
            0 <= i < x.len() && is_white(#[trigger] x[i]) ==> x[i] == ' ' && (i + 1 < x.len() ==> !is_white(x[i + 1])),
    ensures
        collapsed(x) == if x.len() > 0 && is_white(x.last()) {
            x.drop_last()
        } else {
            x
        },
    decreases x.len(),
{
    if x.len() > 0 {
        let c = x.last();
        let p = x.drop_last();
        assert forall|i: int| 0 <= i < p.len() && is_white(#[trigger] p[i]) implies p[i] == ' ' && (i + 1 < p.len() ==> !is_white(p[i + 1])) by {
            assert(p[i] == x[i]);
            if i + 1 < p.len() {
                assert(p[i + 1] == x[i + 1]);
            }
        }
        lemma_collapsed_tidy(p);
        if is_white(c) {
            if p.len() > 0 {
                assert(!is_white(p.last())) by {
                    assert(p.last() == x[x.len() - 2]);
                }
            }
        } else if p.len() > 0 && is_white(p.last()) {
            assert(p.last() == x[x.len() - 2]);
            assert(p.len() >= 2);
            assert(p.drop_last().len() > 0);
            assert(p.drop_last().push(' ').push(c) =~= x);
        } else {
            assert(p.push(c) =~= x);
        }
    }
}

/// A well spaced text is its own `split_whitespace` join.
proof fn lemma_collapsed_well_spaced(x: Seq<char>)
    requires
        well_spaced(x),
    ensures
        collapsed(x) == x,
{
    lemma_collapsed_tidy(x);
}

/// No old spelling matches the text: its length or its first letter differs
/// from each of them.
pub open spec fn plain(x: Seq<char>) -> bool {
    x.len() > 0 && !((x.len() == 9 && ascii_lower(x[0]) == 'p') || (x.len() == 14 && ascii_lower(x[0]) == 'g') || (x.len()
        == 13 && ascii_lower(x[0]) == 'o'))
}

proof fn lemma_resolved_plain(x: Seq<char>)
    requires
        plain(x),
    ensures
        resolved(x) == x,
{
    reveal_strlit("Platine 3");
    reveal_strlit("Platine 2");
    reveal_strlit("Platine 1");
    reveal_strlit("Grand Master 3");
    reveal_strlit("Grand Master 2");
    reveal_strlit("Grand Master 1");
    reveal_strlit("One Above All");
    assert forall|k: int| 0 <= k < aliases().len() implies !named_ci(x)(#[trigger] aliases()[k]) by {
        let a = aliases()[k].0;
        if same_ignoring_ascii_case(a, x) {
            assert(ascii_lower_seq(a).len() == a.len());
            assert(ascii_lower_seq(x).len() == x.len());
            assert(ascii_lower_seq(a)[0] == ascii_lower(a[0]));
            assert(ascii_lower_seq(x)[0] == ascii_lower(x[0]));
        }
    }
    lemma_first_where_none(aliases(), named_ci(x));
}

/// A stored value: left unchanged by the spacing and spelling clean-up.
pub open spec fn stable(x: Seq<char>) -> bool {
    well_spaced(x) && plain(x)
}

proof fn lemma_stable_clean(x: Seq<char>)
    requires
        stable(x),
    ensures
        resolved(collapsed(x)) == x,
{
    lemma_collapsed_well_spaced(x);
    lemma_resolved_plain(x);
}


/// No character of the text is white space.
pub open spec fn no_white(x: Seq<char>) -> bool {
    forall|i: int| 0 <= i < x.len() ==> !is_white(#[trigger] x[i])
}

/// A tier name followed by a division digit is a stored value.
proof fn lemma_division_stable(family: Seq<char>, d: nat)
    requires
        no_white(family),
        family.len() > 0,
        1 <= d <= 9,
        !((family.len() + 2 == 9 && ascii_lower(family[0]) == 'p') || (family.len() + 2 == 14 && ascii_lower(family[0])
            == 'g') || (family.len() + 2 == 13 && ascii_lower(family[0]) == 'o')),
    ensures
        stable(division_entry(family, d).0),
{
    reveal_strlit(" ");
    lemma_digit_char(d);
    let x = division_entry(family, d).0;
    assert(decimal(d) == seq![digit_char(d)]);
    assert(x.len() == family.len() + 2);
    assert(x[0] == family[0]);
    assert(x.last() == digit_char(d));
    assert(x[family.len() as int] == ' ');
    assert forall|i: int| 0 <= i < x.len() && is_white(#[trigger] x[i]) implies x[i] == ' ' && i + 1 < x.len() && !is_white(x[i + 1]) by {
        if i < family.len() {
            assert(x[i] == family[i]);
        } else if i > family.len() {
            assert(x[i] == digit_char(d));
        }
    }
}

/// The value of a number's decimal writing is the number.
pub proof fn lemma_digits_value_decimal(m: nat)
    ensures
        digits_value(decimal(m)) == m,
        all_digits(decimal(m)),
        decimal(m).len() > 0,
    decreases m,
{
    lemma_digit_char(m % 10);
    crate::text::lemma_decimal_nonempty(m);
    assert(decimal(m).last() == digit_char(m % 10));
    assert(crate::text::digit_value(digit_char(m % 10)) == m % 10);
    if m >= 10 {
        lemma_digits_value_decimal(m / 10);
        assert(decimal(m).drop_last() =~= decimal(m / 10));
        assert(m == (m / 10) * 10 + m % 10);
    } else {
        assert(decimal(m).drop_last() =~= Seq::<char>::empty());
        assert(digits_value(Seq::<char>::empty()) == 0);
    }
}

proof fn lemma_decimal_stable(m: nat)
    ensures
        stable(decimal(m)),
{
    lemma_digits_value_decimal(m);
    let x = decimal(m);
    assert(is_digit(x[0]));
    assert forall|i: int| 0 <= i < x.len() implies !is_white(#[trigger] x[i]) by {
        assert(is_digit(x[i]));
    }
}

proof fn lemma_unranked_stable()
    ensures
        stable(UNRANKED@),
        UNRANKED@.filter(digit_filter()).len() == 0,
{
    reveal_strlit("Unranked");
    let u = UNRANKED@;
    assert(no_white(u));
    assert forall|i: int| 0 <= i < u.len() implies !digit_filter()(#[trigger] u[i]) by {}
    lemma_filter_none(u, digit_filter());
}

/// Filtering with a predicate no element meets leaves nothing.
proof fn lemma_filter_none<A>(s: Seq<A>, keep: spec_fn(A) -> bool)
    requires
        forall|i: int| 0 <= i < s.len() ==> !keep(#[trigger] s[i]),
    ensures
        s.filter(keep).len() == 0,
    decreases s.len(),
{
    reveal(Seq::filter);
    if s.len() > 0 {
        lemma_filter_none(s.drop_last(), keep);
    }
}

proof fn lemma_marvel_stable()
    ensures
        forall|i: int| 0 <= i < marvel_ladder().len() ==> stable(#[trigger] marvel_ladder()[i].0),
        marvel_ladder().len() > 0,
        marvel_ladder()[0].0 == UNRANKED@,
{
    reveal_strlit("Bronze");
    reveal_strlit("Silver");
    reveal_strlit("Gold");
    reveal_strlit("Platinum");
    reveal_strlit("Diamond");
    reveal_strlit("Grandmaster");
    reveal_strlit("Celestial");
    reveal_strlit("Eternity");
    reveal_strlit("Top 500");
    lemma_unranked_stable();
    let f = marvel_families();
    assert forall|k: int| 0 <= k < 7 implies no_white(#[trigger] f[k]) && f[k].len() > 0 && !((f[k].len() + 2 == 9
        && ascii_lower(f[k][0]) == 'p') || (f[k].len() + 2 == 14 && ascii_lower(f[k][0]) == 'g') || (f[k].len() + 2 == 13
        && ascii_lower(f[k][0]) == 'o')) by {}
    assert(stable("Eternity"@));
    assert(stable("Top 500"@));
    let l = marvel_ladder();
    assert forall|i: int| 0 <= i < l.len() implies stable(#[trigger] l[i].0) by {
        if 1 <= i < 22 {
            let j = i - 1;
            let k = j / 3;
            assert(0 <= k < 7);
            lemma_division_stable(f[k], (3 - j % 3) as nat);
        }
    }
}

proof fn lemma_overwatch_stable()
    ensures
        forall|i: int| 0 <= i < overwatch_ladder().len() ==> stable(#[trigger] overwatch_ladder()[i].0),
        overwatch_ladder().len() > 0,
        overwatch_ladder()[0].0 == UNRANKED@,
{
    reveal_strlit("Bronze");
    reveal_strlit("Silver");
    reveal_strlit("Gold");
    reveal_strlit("Platinum");
    reveal_strlit("Emerald");
    reveal_strlit("Diamond");
    reveal_strlit("Grandmaster");
    reveal_strlit("Top 500");
    lemma_unranked_stable();
    let f = overwatch_families();
    assert forall|k: int| 0 <= k < 7 implies no_white(#[trigger] f[k]) && f[k].len() > 0 && !((f[k].len() + 2 == 9
        && ascii_lower(f[k][0]) == 'p') || (f[k].len() + 2 == 14 && ascii_lower(f[k][0]) == 'g') || (f[k].len() + 2 == 13
        && ascii_lower(f[k][0]) == 'o')) by {}
    assert(stable("Top 500"@));
    let l = overwatch_ladder();
    assert forall|i: int| 0 <= i < l.len() implies stable(#[trigger] l[i].0) by {
        if 1 <= i < 36 {
            let j = i - 1;
            let k = j / 5;
            assert(0 <= k < 7);
            lemma_division_stable(f[k], (5 - j % 5) as nat);
        }
    }
}

proof fn lemma_cs2_stable()
    ensures
        forall|i: int| 0 <= i < cs2_ladder().len() ==> stable(#[trigger] cs2_ladder()[i].0),
        cs2_ladder().len() > 0,
        cs2_ladder()[0].0 == UNRANKED@,
{
    reveal_strlit("Silver I");
    reveal_strlit("Silver II");
    reveal_strlit("Silver III");
    reveal_strlit("Silver IV");
    reveal_strlit("Silver Elite");
    reveal_strlit("Silver Elite Master");
    reveal_strlit("Gold Nova I");
    reveal_strlit("Gold Nova II");
    reveal_strlit("Gold Nova III");
    reveal_strlit("Gold Nova Master");
    reveal_strlit("Master Guardian I");
    reveal_strlit("Master Guardian II");
    reveal_strlit("Master Guardian Elite");
    reveal_strlit("Distinguished Master Guardian");
    reveal_strlit("Legendary Eagle");
    reveal_strlit("Legendary Eagle Master");
    reveal_strlit("Supreme Master First Class");
    reveal_strlit("Global Elite");
    lemma_unranked_stable();
    let n = cs2_names();
    assert(stable(n[0].0));
    assert(stable(n[1].0));
    assert(stable(n[2].0));
    assert(stable(n[3].0));
    assert(stable(n[4].0));
    assert(stable(n[5].0));
    assert(stable(n[6].0));
    assert(stable(n[7].0));
    assert(stable(n[8].0));
    assert(stable(n[9].0));
    assert(stable(n[10].0));
    assert(stable(n[11].0));
    assert(stable(n[12].0));
    assert(stable(n[13].0));
    assert(stable(n[14].0));
    assert(stable(n[15].0));
    assert(stable(n[16].0));
    assert(stable(n[17].0));
    let l = cs2_ladder();
    assert forall|i: int| 0 <= i < l.len() implies stable(#[trigger] l[i].0) by {
        if i >= 1 {
            assert(l[i] == n[i - 1]);
        }
    }
}


/// The value a tiered ladder stores for `x`: its first entry matching `x`
/// once cleaned up, Unranked otherwise.
pub open spec fn tier_value(ranks: Seq<(Seq<char>, Seq<char>)>, x: Seq<char>) -> Seq<char> {
    match first_where(ranks, named_ci(resolved(collapsed(x)))) {
        Some(i) => ranks[i].0,
        None => UNRANKED@,
    }
}

proof fn lemma_tiered_idempotent(ranks: Seq<(Seq<char>, Seq<char>)>, v: Seq<char>)
    requires
        forall|i: int| 0 <= i < ranks.len() ==> stable(#[trigger] ranks[i].0),
        ranks.len() > 0,
        ranks[0].0 == UNRANKED@,
    ensures
        tier_value(ranks, tier_value(ranks, v)) == tier_value(ranks, v),
{
    let r = resolved(collapsed(v));
    let n = tier_value(ranks, v);
    match first_where(ranks, named_ci(r)) {
        Some(i) => {
            let c = choose|c: int| 0 <= c < ranks.len() && named_ci(r)(ranks[c]) && forall|j: int| 0 <= j < c ==> !named_ci(r)(#[trigger] ranks[j]);
            assert(c == i);
            assert(stable(ranks[i].0));
            lemma_stable_clean(n);
            assert forall|j: int| 0 <= j < i implies !named_ci(n)(#[trigger] ranks[j]) by {
                assert(!named_ci(r)(ranks[j]));
            }
            lemma_first_where_found(ranks, named_ci(n), i);
        },
        None => {
            lemma_unranked_stable();
            lemma_stable_clean(UNRANKED@);
            lemma_first_where_found(ranks, named_ci(UNRANKED@), 0);
        },
    }
}

/// The value a rating ladder stores for `x`.
pub open spec fn rated(x: Seq<char>) -> Seq<char> {
    match rating_of(resolved(collapsed(x))) {
        Some(m) => decimal(m as nat),
        None => UNRANKED@,
    }
}

proof fn lemma_rating_idempotent(v: Seq<char>)
    ensures
        ({
            let n = rated(v);
            rated(n) == n
        }),
{
    match rating_of(resolved(collapsed(v))) {
        Some(m) => {
            let n = decimal(m as nat);
            lemma_decimal_stable(m as nat);
            lemma_stable_clean(n);
            lemma_digits_value_decimal(m as nat);
            assert forall|i: int| 0 <= i < n.len() implies digit_filter()(#[trigger] n[i]) by {}
            crate::text::lemma_filter_keeps_all(n, digit_filter());
            assert(m <= MAX_PREMIER_RATING);
        },
        None => {
            lemma_unranked_stable();
            lemma_stable_clean(UNRANKED@);
        },
    }
}

/// Law: a stored value is normalised to itself, so normalising twice is
/// normalising once.
pub proof fn law_normalize_is_idempotent(id: Seq<char>, value: Seq<char>)
    ensures
        normalized(id, normalized(id, value)) == normalized(id, value),
{
    match first_where(ladders(), has_id(id)) {
        Some(k) => {
            let c = choose|c: int| 0 <= c < ladders().len() && has_id(id)(ladders()[c]) && forall|j: int| 0 <= j < c ==> !has_id(id)(#[trigger] ladders()[j]);
            assert(c == k);
            if k == 0 {
                lemma_marvel_stable();
                lemma_tiered_idempotent(marvel_ladder(), value);
            } else if k == 1 {
                lemma_overwatch_stable();
                lemma_tiered_idempotent(overwatch_ladder(), value);
            } else if k == 2 {
                lemma_cs2_stable();
                lemma_tiered_idempotent(cs2_ladder(), value);
            } else {
                lemma_rating_idempotent(value);
            }
        },
        None => {},
    }
}


/// Law: a stored value is always one the ladder offers: an entry of a tiered
/// ladder, a rating of at most 50 000, or Unranked.
pub proof fn law_normalized_is_offered(id: Seq<char>, value: Seq<char>)
    ensures
        match ladder_for(id) {
            None => normalized(id, value) == UNRANKED@,
            Some(l) => match l.kind {
                RankKind::Tiered => exists|i: int| 0 <= i < l.ranks.len() && #[trigger] l.ranks[i].0 == normalized(id, value),
                RankKind::Rating => normalized(id, value) == UNRANKED@ || exists|m: nat|
                    m <= MAX_PREMIER_RATING && #[trigger] decimal(m) == normalized(id, value),
            },
        },
{
    match first_where(ladders(), has_id(id)) {
        Some(k) => {
            let c = choose|c: int| 0 <= c < ladders().len() && has_id(id)(ladders()[c]) && forall|j: int| 0 <= j < c ==> !has_id(id)(#[trigger] ladders()[j]);
            assert(c == k);
            let l = ladders()[k];
            let r = resolved(collapsed(value));
            if k == 0 {
                lemma_marvel_stable();
            } else if k == 1 {
                lemma_overwatch_stable();
            } else if k == 2 {
                lemma_cs2_stable();
            }
            if k < 3 {
                match first_where(l.ranks, named_ci(r)) {
                    Some(i) => {
                        let c2 = choose|c2: int| 0 <= c2 < l.ranks.len() && named_ci(r)(l.ranks[c2]) && forall|j: int| 0 <= j < c2 ==> !named_ci(r)(#[trigger] l.ranks[j]);
                        assert(l.ranks[c2].0 == normalized(id, value));
                    },
                    None => {
                        assert(l.ranks[0].0 == normalized(id, value));
                    },
                }
            } else {
                match rating_of(r) {
                    Some(m) => {
                        assert(decimal(m as nat) == normalized(id, value));
                    },
                    None => {},
                }
            }
        },
        None => {},
    }
}

/// Law: a Premier rating never exceeds 50 000.
pub proof fn law_rating_is_clamped(value: Seq<char>)
    ensures
        rating_of(value) matches Some(n) ==> n <= MAX_PREMIER_RATING,
{
}

} // verus!
