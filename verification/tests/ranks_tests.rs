use std::collections::HashSet;

use steam_core::ranks::{family, normalize, rating, template, templates, RankKind, UNRANKED};

#[test]
fn every_template_is_a_full_ladder() {
    for template in templates() {
        match template.kind {
            RankKind::Tiered => {
                assert_eq!(template.ranks[0].value, UNRANKED, "{}", template.id);
                assert!(
                    template.ranks.len() > 10,
                    "{} should list a full ladder",
                    template.id
                );
            }
            RankKind::Rating => assert!(template.ranks.is_empty()),
        }
    }
}

#[test]
fn ladders_are_unique_and_ordered() {
    for template in templates() {
        let mut seen = HashSet::new();
        for entry in &template.ranks {
            assert!(
                seen.insert(entry.value.clone()),
                "duplicate {} in {}",
                entry.value,
                template.id
            );
        }
    }

    let cs2 = template("cs2").expect("cs2 template");
    assert_eq!(cs2.ranks[1].value, "Silver I");
    assert_eq!(cs2.ranks.last().expect("last rank").value, "Global Elite");
    assert_eq!(cs2.ranks.len(), 19, "Unranked plus the 18 ranks");
}

#[test]
fn unknown_values_fall_back_to_unranked() {
    assert_eq!(normalize("marvel-rivals", "nonsense"), UNRANKED);
    assert_eq!(normalize("does-not-exist", "Gold 3"), UNRANKED);
    assert_eq!(normalize("cs2", "Global Elite"), "Global Elite");
}

#[test]
fn old_spellings_and_spacing_are_normalised() {
    assert_eq!(normalize("marvel-rivals", "  Diamond   2 "), "Diamond 2");
    assert_eq!(normalize("marvel-rivals", "One Above All"), "Top 500");
    assert_eq!(normalize("marvel-rivals", "Platine 1"), "Platinum 1");
}

#[test]
fn rating_values_are_clamped_to_the_premier_range() {
    assert_eq!(normalize("cs2-premier", "21 340"), "21340");
    assert_eq!(normalize("cs2-premier", "999999"), "50000");
    assert_eq!(normalize("cs2-premier", "unranked"), UNRANKED);
    assert_eq!(rating("0"), Some(0));
}

#[test]
fn families_match_the_asset_names() {
    assert_eq!(family("marvel-rivals", "Diamond 3"), "diamond");
    assert_eq!(family("marvel-rivals", "Top 500"), "one-above-all");
    assert_eq!(family("overwatch", "Emerald 4"), "emerald");
    assert_eq!(family("cs2", "Global Elite"), "global-elite");
    assert_eq!(family("cs2-premier", "21340"), "");
}

#[test]
fn ranks_match_ignoring_case_and_keep_their_spelling() {
    assert_eq!(normalize("overwatch", "emerald 2"), "Emerald 2");
    assert_eq!(normalize("cs2", "GLOBAL ELITE"), "Global Elite");
}

#[test]
fn ratings_need_digits_and_are_clamped_however_long() {
    assert_eq!(rating("no digits"), None);
    assert_eq!(rating("99999999999"), Some(50_000));
    assert_eq!(normalize("cs2-premier", "99999999999"), "50000");
    assert_eq!(rating("1 2 3"), Some(123));
    assert_eq!(rating("60000"), Some(50_000));
}

#[test]
fn normalising_twice_changes_nothing() {
    for (id, value) in [
        ("marvel-rivals", "  diamond   2 "),
        ("overwatch", "Top 500"),
        ("cs2", "silver elite"),
        ("cs2-premier", "21 340"),
        ("cs2-premier", "nothing"),
    ] {
        let once = normalize(id, value);
        assert_eq!(normalize(id, &once), once);
    }
}

#[test]
fn template_ids_and_kinds() {
    let ids: Vec<&str> = templates().iter().map(|t| t.id).collect();
    assert_eq!(ids, vec!["marvel-rivals", "overwatch", "cs2", "cs2-premier"]);
    assert_eq!(RankKind::Rating.as_str(), "rating");
    assert_eq!(template("cs2-premier").expect("premier").max_rating, Some(50_000));
    assert!(template("missing").is_none());
}

#[test]
fn template_kinds_and_the_unranked_choice() {
    assert_eq!(steam_core::ranks::template_kind("cs2-premier"), RankKind::Rating);
    assert_eq!(steam_core::ranks::template_kind("overwatch"), RankKind::Tiered);
    assert_eq!(steam_core::ranks::template_kind("no-such-ladder"), RankKind::Tiered);
    let choice = steam_core::metadata::unranked_choice();
    assert_eq!(choice.template, "marvel-rivals");
    assert_eq!(choice.value, UNRANKED);
}
