use accept_language::{
    language_range, language_tag, negotiate, parse_accept_language, parse_preference, subtag,
    AcceptError, LanguageRange, LanguageTag, QValue, Subtag,
};

fn st(s: &str) -> Subtag {
    subtag(s).unwrap()
}

fn qf(q: QValue) -> f32 {
    q.thousandths() as f32 / 1000.0
}

#[test]
fn test_tag_from_str() {
    assert!(subtag("en") == Some(Subtag(String::from("en"))));
    assert!(subtag("x") == Some(Subtag(String::from("x"))));
    assert!(subtag("abcd1234") == Some(Subtag(String::from("abcd1234"))));
    assert!(subtag("") == None);
    assert!(subtag("abcd12345") == None);
}

#[test]
fn test_tag_eq() {
    assert!(subtag("en").unwrap() == subtag("en").unwrap());
    assert!(subtag("gb").unwrap() == subtag("GB").unwrap());
    assert!(subtag("en").unwrap() != subtag("fr").unwrap());
}

#[test]
fn test_language_tag() {
    let lt = language_tag;

    assert!(lt("en").unwrap().components == vec![st("en")]);
    assert!(lt("fr-FR").unwrap().components == vec![st("fr"), st("FR")]);

    assert!(lt("").is_none());
    assert!(lt("en-").is_none());
    assert!(lt("123-US").is_none());
    assert!(lt("en-123").is_some());
}

#[test]
fn test_language_range() {
    assert!(language_range("en").unwrap() == LanguageRange::Prefix(language_tag("en").unwrap()));
    assert!(language_range("*").unwrap() == LanguageRange::Wildcard);
    assert!(language_range("en-").is_none());
}

#[test]
fn test_language_range_matches() {
    let en = language_tag("en").unwrap();
    let fr = language_tag("fr").unwrap();
    let fr_fr = language_tag("fr-FR").unwrap();
    let fr_range = language_range("fr").unwrap();
    assert!(LanguageRange::Wildcard.matches(&en));
    assert!(!fr_range.matches(&en));
    assert!(fr_range.matches(&fr));
    assert!(fr_range.matches(&fr_fr));
}

#[test]
fn test_qvalue() {
    assert!(qf(QValue::from_str("0").unwrap()) == 0.0);
    assert!(qf(QValue::from_str("0.").unwrap()) == 0.0);
    assert!(qf(QValue::from_str("0.000").unwrap()) == 0.0);
    assert!(qf(QValue::from_str("0.5").unwrap()) == 0.5);
    assert!(qf(QValue::from_str("1").unwrap()) == 1.0);
}

#[test]
fn subtag_rejects_punctuation_and_hyphen() {
    assert!(Subtag::from_str("en-").is_err());
    assert!(Subtag::from_str("e.n").is_err());
    assert!(Subtag::from_str("é").is_err());
    assert_eq!(Subtag::from_str("a b").err(), Some(AcceptError::Grammar));
    assert!(Subtag::from_str("Zz09").is_ok());
}

#[test]
fn subtag_keeps_its_case() {
    let t = Subtag::from_str("GB").unwrap();
    assert_eq!(t.as_str(), "GB");
    assert!(t == Subtag(String::from("gb")));
    assert!(Subtag(String::from("gb")) != Subtag(String::from("gbr")));
}

#[test]
fn tag_rejects_malformed_text() {
    assert!(LanguageTag::from_str("en--US").is_err());
    assert!(LanguageTag::from_str("-en").is_err());
    assert!(LanguageTag::from_str("abcdefghi").is_err());
    assert!(LanguageTag::from_str("en-abcdefghi").is_err());
    assert!(LanguageTag::from_str("e1").is_err());
    assert_eq!(LanguageTag::from_str("en US").err(), Some(AcceptError::Grammar));
    let t = LanguageTag::from_str("zh-Hant-TW").unwrap();
    assert_eq!(t.components.len(), 3);
    assert!(t == LanguageTag::from_str("ZH-hant-tw").unwrap());
    assert!(t != LanguageTag::from_str("zh-Hant").unwrap());
}

#[test]
fn prefix_respects_subtag_boundaries() {
    let fr = language_range("fr").unwrap();
    assert!(!fr.matches(&language_tag("frx").unwrap()));
    let fr_fr = language_range("fr-FR").unwrap();
    assert!(!fr_fr.matches(&language_tag("fr").unwrap()));
    assert!(fr_fr.matches(&language_tag("FR-fr-Paris").unwrap()));
    assert!(LanguageRange::Wildcard.matches(&language_tag("x-y-z").unwrap()));
}

#[test]
fn qvalue_errors() {
    assert_eq!(QValue::from_str("1.5").err(), Some(AcceptError::Range));
    assert_eq!(QValue::from_str("2").err(), Some(AcceptError::Range));
    assert_eq!(QValue::from_str("0.0000").err(), Some(AcceptError::Grammar));
    assert_eq!(QValue::from_str("").err(), Some(AcceptError::Grammar));
    assert_eq!(QValue::from_str(".5").err(), Some(AcceptError::Grammar));
    assert_eq!(QValue::from_str("0,5").err(), Some(AcceptError::Grammar));
    assert_eq!(QValue::from_str("1.000").unwrap().thousandths(), 1000);
    assert_eq!(QValue::from_str("0.125").unwrap().thousandths(), 125);
    assert_eq!(QValue::from_str("0.05").unwrap().thousandths(), 50);
    assert_eq!(QValue::one().thousandths(), 1000);
}

#[test]
fn preference_entries() {
    let p = parse_preference("  fr ; q=0.8 ").unwrap();
    assert!(p.range == language_range("fr").unwrap());
    assert_eq!(p.quality.thousandths(), 800);
    let p = parse_preference("*").unwrap();
    assert!(p.range == LanguageRange::Wildcard);
    assert_eq!(p.quality.thousandths(), 1000);
    assert_eq!(parse_preference("en;q=1.5").err(), Some(AcceptError::Range));
    assert_eq!(parse_preference("en;level=1").err(), Some(AcceptError::Grammar));
    assert_eq!(parse_preference("en;q=0.5;q=0.4").err(), Some(AcceptError::Grammar));
    assert_eq!(parse_preference("en-;q=0.5").err(), Some(AcceptError::Grammar));
    assert_eq!(parse_preference("").err(), Some(AcceptError::Grammar));
}

#[test]
fn header_end_to_end() {
    let prefs = parse_accept_language("fr-FR,fr;q=0.8,en-US;q=0.6,en;q=0.4").unwrap();
    assert_eq!(prefs.len(), 4);
    let qualities: Vec<f32> = prefs.iter().map(|p| qf(p.quality)).collect();
    assert_eq!(qualities, vec![1.0, 0.8, 0.6, 0.4]);
    assert!(prefs[0].range == language_range("fr-FR").unwrap());
    assert!(prefs[1].range == language_range("fr").unwrap());
    assert!(prefs[2].range == language_range("en-US").unwrap());
    assert!(prefs[3].range == language_range("en").unwrap());

    let tags = vec![
        language_tag("en").unwrap(),
        language_tag("fr").unwrap(),
        language_tag("de").unwrap(),
    ];
    let accepted = negotiate(&prefs, &tags);
    assert_eq!(accepted.len(), 2);
    assert!(accepted[0].tag == language_tag("fr").unwrap());
    assert_eq!(qf(accepted[0].quality), 0.8);
    assert!(accepted[1].tag == language_tag("en").unwrap());
    assert_eq!(qf(accepted[1].quality), 0.4);
}

#[test]
fn header_orders_by_quality_and_drops_bad_entries() {
    let prefs = parse_accept_language("en;q=0.5, bad-, de;q=0.9, *;q=0.5 ,x;q=7").unwrap();
    assert_eq!(prefs.len(), 3);
    assert!(prefs[0].range == language_range("de").unwrap());
    assert!(prefs[1].range == language_range("en").unwrap());
    assert!(prefs[2].range == LanguageRange::Wildcard);
    assert!(parse_accept_language("").unwrap().is_empty());
    assert_eq!(parse_accept_language("fr,é").err(), Some(AcceptError::Grammar));
}

#[test]
fn negotiate_excludes_quality_zero_and_takes_the_best() {
    let prefs = parse_accept_language("de;q=0,*;q=0.1,fr;q=0.3,fr-CA").unwrap();
    let tags = vec![
        language_tag("de").unwrap(),
        language_tag("fr").unwrap(),
        language_tag("fr-CA").unwrap(),
        language_tag("it").unwrap(),
    ];
    let accepted = negotiate(&prefs, &tags);
    assert_eq!(accepted.len(), 4);
    assert!(accepted[0].tag == language_tag("fr-CA").unwrap());
    assert_eq!(accepted[0].quality.thousandths(), 1000);
    assert!(accepted[1].tag == language_tag("fr").unwrap());
    assert_eq!(accepted[1].quality.thousandths(), 300);
    assert!(accepted[2].tag == language_tag("de").unwrap());
    assert_eq!(accepted[2].quality.thousandths(), 100);
    assert!(accepted[3].tag == language_tag("it").unwrap());

    let strict = parse_accept_language("de;q=0").unwrap();
    assert!(negotiate(&strict, &tags).is_empty());
}
