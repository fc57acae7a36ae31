use hemolymph_search::cards::{Card, Keyword};
use hemolymph_search::rank::{rank, weighted_score};
use hemolymph_search::search;

fn card(name: &str) -> Card {
    Card {
        id: name.to_string(),
        name: name.to_string(),
        img: vec![],
        description: String::new(),
        cost: 0,
        health: 0,
        defense: 0,
        power: 0,
        card_type: String::new(),
        kins: vec![],
        keywords: vec![],
    }
}

#[test]
fn exact_name_match_scores_full_name_weight() {
    // name similarity 1000 on the per-mille scale, weight 20.
    let c = card("mantis");
    assert_eq!(weighted_score(&c, "mantis"), 20000);
}

#[test]
fn partial_name_match_scores_by_covered_share() {
    // "mantis" covers 6 of the 14 characters: 1000 * 6 / 14 = 428, weight 20.
    let c = card("praying mantis");
    assert_eq!(weighted_score(&c, "mantis"), 8560);
}

#[test]
fn reversed_containment_scores_half_rate() {
    // "ant" is inside "mantis": 500 * 3 / 6 = 250, weight 20.
    let c = card("ant");
    assert_eq!(weighted_score(&c, "mantis"), 5000);
}

#[test]
fn score_is_case_insensitive() {
    let c = card("Mantis");
    assert_eq!(weighted_score(&c, "MANTIS"), 20000);
}

#[test]
fn kin_and_keyword_similarities_weigh_in() {
    let mut c = card("x");
    c.kins = vec!["mantis".to_string()];
    c.keywords = vec![Keyword { name: "mantis".to_string(), data: None }];
    // name "x" scores 0 against "mantis"; best kin 1000 * 15, best keyword
    // 1000 * 12.
    assert_eq!(weighted_score(&c, "mantis"), 15000 + 12000);
}

#[test]
fn ranking_order_for_mantis() {
    let a = card("Mantis");
    let b = card("Ant");
    let c = card("Praying Mantis");
    let out = rank(vec![&a, &b, &c], "mantis");
    let names: Vec<&str> = out.iter().map(|c| c.name.as_str()).collect();
    assert_eq!(names, vec!["Mantis", "Praying Mantis", "Ant"]);
}

#[test]
fn ranking_is_stable_on_ties() {
    let a = card("same");
    let b = card("same");
    let mut a2 = a;
    a2.id = "first".to_string();
    let mut b2 = b;
    b2.id = "second".to_string();
    let out = rank(vec![&a2, &b2], "same");
    let ids: Vec<&str> = out.iter().map(|c| c.id.as_str()).collect();
    assert_eq!(ids, vec!["first", "second"]);
}

#[test]
fn pipeline_is_deterministic() {
    let cards = vec![card("Mantis"), card("Ant"), card("Praying Mantis")];
    let once: Vec<String> = search(&cards, "mantis")
        .unwrap()
        .iter()
        .map(|c| c.name.clone())
        .collect();
    let twice: Vec<String> = search(&cards, "mantis")
        .unwrap()
        .iter()
        .map(|c| c.name.clone())
        .collect();
    assert_eq!(once, twice);
    assert_eq!(once, vec!["Mantis", "Praying Mantis"]);
}

#[test]
fn empty_query_returns_all_cards_in_order() {
    let cards = vec![card("One"), card("Two"), card("Three")];
    let out = search(&cards, "").unwrap();
    let names: Vec<&str> = out.iter().map(|c| c.name.as_str()).collect();
    assert_eq!(names, vec!["One", "Two", "Three"]);
}

#[test]
fn search_propagates_parse_errors() {
    let cards = vec![card("One")];
    assert!(search(&cards, "zzz:foo").is_err());
}

#[test]
fn search_filters_then_ranks() {
    let mut a = card("Mantis");
    a.card_type = "creature".to_string();
    let mut b = card("Praying Mantis");
    b.card_type = "creature".to_string();
    let mut c = card("Mantis Relic");
    c.card_type = "artifact".to_string();
    let cards = vec![c, b, a];
    let out = search(&cards, "t:creature mantis").unwrap();
    let names: Vec<&str> = out.iter().map(|c| c.name.as_str()).collect();
    assert_eq!(names, vec!["Mantis", "Praying Mantis"]);
}
