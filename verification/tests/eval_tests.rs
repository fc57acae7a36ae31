use hemolymph_search::cards::{Card, Keyword, KeywordData};
use hemolymph_search::eval::{filter, fuzzy, matches_all, matches_restriction};
use hemolymph_search::parse::parse;

fn card(name: &str, card_type: &str, description: &str) -> Card {
    Card {
        id: name.to_string(),
        name: name.to_string(),
        img: vec![],
        description: description.to_string(),
        cost: 0,
        health: 0,
        defense: 0,
        power: 0,
        card_type: card_type.to_string(),
        kins: vec![],
        keywords: vec![],
    }
}

#[test]
fn empty_term_matches_every_card() {
    let c = card("Anything", "creature", "some text");
    assert!(fuzzy(&c, ""));
}

#[test]
fn fuzzy_is_case_insensitive() {
    let c = card("MANTIS", "CREATURE", "HUNTS AT DAWN");
    assert!(fuzzy(&c, "mantis"));
    assert!(fuzzy(&c, "creature"));
    assert!(fuzzy(&c, "hunts at"));
    assert!(!fuzzy(&c, "beetle"));
}

#[test]
fn fuzzy_reaches_description() {
    let c = card("Worker", "creature", "When played, search your deck.");
    assert!(fuzzy(&c, "search your"));
    assert!(!fuzzy(&c, "discard"));
}

#[test]
fn fuzzy_reaches_kins_and_keywords() {
    let mut c = card("Worker", "creature", "");
    c.kins = vec!["Antling".to_string()];
    c.keywords = vec![Keyword { name: "Flying".to_string(), data: None }];
    assert!(fuzzy(&c, "antling"));
    assert!(fuzzy(&c, "flying"));
    assert!(!fuzzy(&c, "burrow"));
}

#[test]
fn kin_membership_is_substring_based() {
    let mut c = card("Worker", "creature", "");
    c.kins = vec!["antling".to_string()];
    let rs = parse("k:ant").unwrap();
    assert!(matches_all(&c, &rs));
    let exact = parse("k:antling").unwrap();
    assert!(matches_all(&c, &exact));
    let miss = parse("k:beetle").unwrap();
    assert!(!matches_all(&c, &miss));
}

#[test]
fn kin_membership_is_case_sensitive() {
    let mut c = card("Worker", "creature", "");
    c.kins = vec!["Antling".to_string()];
    let rs = parse("k:ant").unwrap();
    assert!(!matches_all(&c, &rs));
    let rs2 = parse("k:Ant").unwrap();
    assert!(matches_all(&c, &rs2));
}

#[test]
fn keyword_membership_by_name_substring() {
    let mut c = card("Worker", "creature", "");
    c.keywords = vec![Keyword {
        name: "devours".to_string(),
        data: Some(KeywordData::Text("prey".to_string())),
    }];
    let rs = parse("kw:devour").unwrap();
    assert!(matches_all(&c, &rs));
    let miss = parse("kw:flies").unwrap();
    assert!(!matches_all(&c, &miss));
}

#[test]
fn contains_is_case_insensitive() {
    let c = card("Lost Man", "Creature", "");
    let rs = parse("n:\"lost man\"").unwrap();
    assert!(matches_restriction(&c, &rs[0]));
    let rs2 = parse("t:creature").unwrap();
    assert!(matches_restriction(&c, &rs2[0]));
}

#[test]
fn comparisons_evaluate_against_fields() {
    let mut c = card("Soldier", "creature", "");
    c.cost = 3;
    c.health = 2;
    c.power = 4;
    c.defense = 1;
    assert!(matches_all(&c, &parse("c>2").unwrap()));
    assert!(!matches_all(&c, &parse("c>3").unwrap()));
    assert!(matches_all(&c, &parse("h=2").unwrap()));
    assert!(matches_all(&c, &parse("p>=4").unwrap()));
    assert!(matches_all(&c, &parse("d<=1").unwrap()));
    assert!(matches_all(&c, &parse("h!=3").unwrap()));
    assert!(!matches_all(&c, &parse("h!=2").unwrap()));
}

#[test]
fn restrictions_and_together() {
    let mut keep = card("Soldier", "war creature", "");
    keep.cost = 3;
    let mut cheap = card("Drone", "creature", "");
    cheap.cost = 2;
    let mut wrong_type = card("Relic", "artifact", "");
    wrong_type.cost = 5;
    let cards = vec![keep, cheap, wrong_type];
    let rs = parse("t:creature c>2").unwrap();
    let out = filter(&cards, &rs);
    assert_eq!(out.len(), 1);
    assert_eq!(out[0].name, "Soldier");
}

#[test]
fn filter_preserves_collection_order() {
    let a = card("Alpha ant", "creature", "");
    let b = card("Beta ant", "creature", "");
    let c = card("Gamma moth", "creature", "");
    let cards = vec![a, b, c];
    let rs = parse("t:creature").unwrap();
    let out = filter(&cards, &rs);
    let names: Vec<&str> = out.iter().map(|c| c.name.as_str()).collect();
    assert_eq!(names, vec!["Alpha ant", "Beta ant", "Gamma moth"]);
}

#[test]
fn empty_query_filter_keeps_all() {
    let cards = vec![card("One", "a", ""), card("Two", "b", "")];
    let rs = parse("").unwrap();
    let out = filter(&cards, &rs);
    assert_eq!(out.len(), 2);
}
