use l4_routing::resolver::{MatchKind, StationEntry, StationNames, StationResolver};
use l4_routing::resolver::normalize_for_matching;
use l4_routing::levenshtein::levenshtein_distance;

fn make_test_resolver() -> StationResolver {
    let stations = vec![
        StationEntry {
            id: "odpt.Station:JR-East.Yamanote.Tokyo".to_string(),
            names: StationNames {
                ja: "東京".to_string(),
                en: "Tokyo".to_string(),
                zh: "東京".to_string(),
            },
            aliases: vec!["東京駅".to_string(), "Tokyo Station".to_string()],
            reading: "とうきょう".to_string(),
        },
        StationEntry {
            id: "odpt.Station:JR-East.Yamanote.Shinjuku".to_string(),
            names: StationNames {
                ja: "新宿".to_string(),
                en: "Shinjuku".to_string(),
                zh: "新宿".to_string(),
            },
            aliases: vec!["新宿駅".to_string(), "Shinjuku Station".to_string()],
            reading: "しんじゅく".to_string(),
        },
    ];
    StationResolver::new(stations)
}

#[test]
fn test_exact_match() {
    let resolver = make_test_resolver();
    let results = resolver.resolve("東京", 5);
    assert!(!results.is_empty());
    assert_eq!(results[0].matched_id, "odpt.Station:JR-East.Yamanote.Tokyo");
}

#[test]
fn test_fuzzy_match() {
    let resolver = make_test_resolver();
    let results = resolver.resolve("shinjku", 5); // Typo
    assert!(!results.is_empty());
    assert_eq!(
        results[0].matched_id,
        "odpt.Station:JR-East.Yamanote.Shinjuku"
    );
}

#[test]
fn test_levenshtein() {
    assert_eq!(levenshtein_distance("kitten", "sitting"), 3);
    assert_eq!(levenshtein_distance("tokyo", "tokio"), 1);
    assert_eq!(levenshtein_distance("shinjuku", "shinjku"), 1);
}

#[test]
fn exact_id_round_trip_confidence_one() {
    let resolver = make_test_resolver();
    let results = resolver.resolve("odpt.Station:JR-East.Yamanote.Tokyo", 5);
    assert_eq!(results.len(), 1);
    assert_eq!(results[0].matched_id, "odpt.Station:JR-East.Yamanote.Tokyo");
    assert_eq!(results[0].confidence_num, 1);
    assert_eq!(results[0].confidence_den, 1);
    assert!(matches!(results[0].match_type, MatchKind::ExactId));
}

#[test]
fn exact_id_match_is_case_insensitive() {
    let resolver = make_test_resolver();
    let results = resolver.resolve("ODPT.STATION:JR-EAST.YAMANOTE.TOKYO", 5);
    assert_eq!(results.len(), 1);
    assert_eq!(results[0].matched_id, "odpt.Station:JR-East.Yamanote.Tokyo");
}

#[test]
fn typo_confidence_is_six_sevenths() {
    // "shinjku" has length 7 and edit distance 1 from "shinjuku", giving
    // confidence 1 - 1/7 = 6/7.
    let resolver = make_test_resolver();
    let results = resolver.resolve("shinjku", 5);
    assert!(!results.is_empty());
    assert_eq!(results[0].confidence_num, 6);
    assert_eq!(results[0].confidence_den, 7);
    assert!(matches!(results[0].match_type, MatchKind::Fuzzy(1)));
}

#[test]
fn exact_name_match_has_high_confidence() {
    let resolver = make_test_resolver();
    let results = resolver.resolve("Tokyo", 5);
    assert!(!results.is_empty());
    assert_eq!(results[0].matched_id, "odpt.Station:JR-East.Yamanote.Tokyo");
    assert_eq!(results[0].confidence_num, 19);
    assert_eq!(results[0].confidence_den, 20);
    assert!(matches!(results[0].match_type, MatchKind::ExactName));
}

#[test]
fn suffixed_query_matches_after_normalization() {
    let resolver = make_test_resolver();
    let results = resolver.resolve("Shinjuku Station", 5);
    assert!(!results.is_empty());
    assert_eq!(
        results[0].matched_id,
        "odpt.Station:JR-East.Yamanote.Shinjuku"
    );
}

#[test]
fn prefix_match_has_prefix_confidence() {
    let resolver = make_test_resolver();
    let results = resolver.resolve("shinj", 5);
    assert!(!results.is_empty());
    assert_eq!(
        results[0].matched_id,
        "odpt.Station:JR-East.Yamanote.Shinjuku"
    );
    assert_eq!(results[0].confidence_num, 4);
    assert_eq!(results[0].confidence_den, 5);
    assert!(matches!(results[0].match_type, MatchKind::Prefix));
}

#[test]
fn unmatched_query_yields_nothing() {
    let resolver = make_test_resolver();
    let results = resolver.resolve("completely different", 5);
    assert!(results.is_empty());
}

#[test]
fn normalization_strips_suffixes_and_macrons() {
    assert_eq!(normalize_for_matching("Shinjuku Station"), "shinjuku");
    assert_eq!(normalize_for_matching("東京駅"), "東京");
    assert_eq!(normalize_for_matching("Ōsaki"), "osaki");
    assert_eq!(normalize_for_matching("KYOTO sta."), "kyoto");
    assert_eq!(normalize_for_matching("  Ueno  "), "ueno");
}

#[test]
fn normalization_lowercases_beyond_ascii() {
    assert_eq!(normalize_for_matching("Évry"), "évry");
    assert_eq!(normalize_for_matching("ＴＯＫＹＯ"), "ｔｏｋｙｏ");
}

#[test]
fn levenshtein_metric_laws_on_samples() {
    // Symmetry and the triangle inequality on concrete values.
    assert_eq!(
        levenshtein_distance("kitten", "sitting"),
        levenshtein_distance("sitting", "kitten")
    );
    let d_ab = levenshtein_distance("kitten", "sitting");
    let d_bc = levenshtein_distance("sitting", "sunday");
    let d_ac = levenshtein_distance("kitten", "sunday");
    assert!(d_ac <= d_ab + d_bc);
    assert_eq!(levenshtein_distance("flaw", "lawn"), 2);
    assert_eq!(levenshtein_distance("same", "same"), 0);
}

#[test]
fn localization_picks_the_requested_language() {
    let resolver = make_test_resolver();
    let id = "odpt.Station:JR-East.Yamanote.Tokyo";
    assert_eq!(resolver.get_localized_name(id, "ja").unwrap(), "東京");
    assert_eq!(resolver.get_localized_name(id, "en").unwrap(), "Tokyo");
    assert_eq!(resolver.get_localized_name(id, "zh-TW").unwrap(), "東京");
    assert_eq!(resolver.get_localized_name(id, "fr").unwrap(), "Tokyo");
}

#[test]
fn localization_falls_back_to_identifier_structure() {
    let resolver = make_test_resolver();
    let name = resolver
        .get_localized_name("odpt.Station:JR-East.Yamanote.ShinOkubo", "en")
        .unwrap();
    assert_eq!(name, "Shin Okubo");
}

#[test]
fn localize_path_keeps_length_and_falls_back() {
    let resolver = make_test_resolver();
    let path = vec![
        "odpt.Station:JR-East.Yamanote.Tokyo".to_string(),
        "bogus".to_string(),
    ];
    let localized = resolver.localize_path(&path, "en");
    assert_eq!(localized.len(), 2);
    assert_eq!(localized[0], "Tokyo");
    assert_eq!(localized[1], "bogus");
}
