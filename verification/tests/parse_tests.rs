use hemolymph_search::cards::{NumberField, TextField, ListField, KeywordListField};
use hemolymph_search::parse::{parse, Comparison, ParseError, Restriction};
use hemolymph_search::tokenize::{tokenize, Token};

#[test]
fn empty_query_parses_to_single_empty_fuzzy() {
    let rs = parse("").unwrap();
    assert_eq!(rs, vec![Restriction::Fuzzy(String::new())]);
}

#[test]
fn empty_query_tokenizes_to_single_empty_word() {
    let ts = tokenize("").unwrap();
    assert_eq!(ts, vec![Token::Word(String::new())]);
}

#[test]
fn numeric_prefix_priority() {
    let rs = parse("cost:>=5").unwrap();
    assert_eq!(
        rs,
        vec![
            Restriction::Comparison(NumberField::Cost, Comparison::GreaterThanOrEqual(5)),
            Restriction::Fuzzy(String::new()),
        ]
    );
}

#[test]
fn unknown_key_fails() {
    assert_eq!(parse("zzz:foo"), Err(ParseError::UnknownParam));
}

#[test]
fn malformed_comparison_fails() {
    assert_eq!(parse("cost:abc"), Err(ParseError::InvalidComparisonString));
}

#[test]
fn quoted_value_preserves_internal_spaces() {
    let rs = parse("n:\"lost man\"").unwrap();
    assert_eq!(
        rs,
        vec![
            Restriction::Contains(TextField::Name, "lost man".to_string()),
            Restriction::Fuzzy(String::new()),
        ]
    );
}

#[test]
fn nested_parenthesis_balancing() {
    let ts = tokenize("dev:(cost=1 (nested) text)").unwrap();
    assert_eq!(
        ts,
        vec![
            Token::SuperParam(
                "dev".to_string(),
                vec![
                    Token::Param("cost".to_string(), "=1".to_string()),
                    Token::Word("(nested)".to_string()),
                    Token::Word("text".to_string()),
                ]
            ),
            Token::Word(String::new()),
        ]
    );
}

#[test]
fn comparison_without_colon_becomes_param() {
    let ts = tokenize("c>2").unwrap();
    assert_eq!(
        ts,
        vec![Token::Param("c".to_string(), ">2".to_string())]
    );
    let rs = parse("c>2").unwrap();
    assert_eq!(
        rs,
        vec![
            Restriction::Comparison(NumberField::Cost, Comparison::GreaterThan(2)),
            Restriction::Fuzzy(String::new()),
        ]
    );
}

#[test]
fn all_comparison_operators() {
    let cases: Vec<(&str, Comparison)> = vec![
        ("c:5", Comparison::Equal(5)),
        ("c:=5", Comparison::Equal(5)),
        ("c<=1", Comparison::LowerThanOrEqual(1)),
        ("c<2", Comparison::LowerThan(2)),
        ("c>=3", Comparison::GreaterThanOrEqual(3)),
        ("c>4", Comparison::GreaterThan(4)),
        ("c!=6", Comparison::NotEqual(6)),
    ];
    for (q, cmp) in cases {
        let rs = parse(q).unwrap();
        assert_eq!(
            rs,
            vec![
                Restriction::Comparison(NumberField::Cost, cmp),
                Restriction::Fuzzy(String::new()),
            ],
            "query {q:?}"
        );
    }
}

#[test]
fn alias_table_full() {
    let text_cases: Vec<(&str, Restriction)> = vec![
        ("name:x", Restriction::Contains(TextField::Name, "x".to_string())),
        ("n:x", Restriction::Contains(TextField::Name, "x".to_string())),
        ("type:x", Restriction::Contains(TextField::CardType, "x".to_string())),
        ("t:x", Restriction::Contains(TextField::CardType, "x".to_string())),
        ("kin:x", Restriction::Has(ListField::Kins, "x".to_string())),
        ("k:x", Restriction::Has(ListField::Kins, "x".to_string())),
        ("keyword:x", Restriction::HasKw(KeywordListField::Keywords, "x".to_string())),
        ("kw:x", Restriction::HasKw(KeywordListField::Keywords, "x".to_string())),
    ];
    for (q, expected) in text_cases {
        let rs = parse(q).unwrap();
        assert_eq!(rs.len(), 2, "query {q:?}");
        assert_eq!(rs[0], expected, "query {q:?}");
    }
    let num_cases: Vec<(&str, NumberField)> = vec![
        ("cost:1", NumberField::Cost),
        ("c:1", NumberField::Cost),
        ("health:1", NumberField::Health),
        ("h:1", NumberField::Health),
        ("hp:1", NumberField::Health),
        ("power:1", NumberField::Power),
        ("strength:1", NumberField::Power),
        ("damage:1", NumberField::Power),
        ("p:1", NumberField::Power),
        ("dmg:1", NumberField::Power),
        ("str:1", NumberField::Power),
        ("defense:1", NumberField::Defense),
        ("def:1", NumberField::Defense),
        ("d:1", NumberField::Defense),
    ];
    for (q, field) in num_cases {
        let rs = parse(q).unwrap();
        assert_eq!(rs[0], Restriction::Comparison(field, Comparison::Equal(1)), "query {q:?}");
    }
}

#[test]
fn bare_words_join_into_fuzzy_term() {
    let rs = parse("  hello  world ").unwrap();
    assert_eq!(rs, vec![Restriction::Fuzzy("hello  world".to_string())]);
}

#[test]
fn words_and_params_mix() {
    let rs = parse("big t:creature bug").unwrap();
    assert_eq!(
        rs,
        vec![
            Restriction::Contains(TextField::CardType, "creature".to_string()),
            Restriction::Fuzzy("big bug".to_string()),
        ]
    );
}

#[test]
fn devour_subquery_is_rejected_not_ignored() {
    assert_eq!(parse("devours:(cost=1)"), Err(ParseError::UnsupportedSubQuery));
    assert_eq!(parse("devour:(cost=1)"), Err(ParseError::UnsupportedSubQuery));
}

#[test]
fn unknown_subquery_key_fails() {
    assert_eq!(parse("dev:(cost=1)"), Err(ParseError::UnknownParam));
}

#[test]
fn unterminated_quote_consumes_silently() {
    let ts = tokenize("n:\"abc").unwrap();
    assert_eq!(ts, Vec::<Token>::new());
}

#[test]
fn unterminated_subquery_consumes_silently() {
    let ts = tokenize("dev:(abc").unwrap();
    assert_eq!(ts, Vec::<Token>::new());
}

#[test]
fn colon_inside_value_is_kept() {
    let ts = tokenize("a:b:c").unwrap();
    assert_eq!(ts, vec![Token::Param("a".to_string(), "b:c".to_string())]);
}

#[test]
fn newline_separates_words_like_a_space() {
    let rs = parse("a\nb").unwrap();
    assert_eq!(rs, vec![Restriction::Fuzzy("a b".to_string())]);
}

#[test]
fn empty_key_is_unknown_param() {
    assert_eq!(parse(":foo"), Err(ParseError::UnknownParam));
}

#[test]
fn overflowing_number_is_invalid() {
    assert_eq!(
        parse("c:99999999999999999999999999"),
        Err(ParseError::InvalidComparisonString)
    );
}

#[test]
fn empty_comparison_value_is_invalid() {
    assert_eq!(parse("c: x"), Err(ParseError::InvalidComparisonString));
}
