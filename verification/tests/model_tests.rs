use l4_routing::station_id::{
    extract_name_from_id, normalize_line_id, normalize_station_id, operator_from_line_id,
    operator_from_station_id, parse_ids, station_to_line_id,
};
use l4_routing::transfer::{
    get_hub_buffer_minutes, get_transfer_distance, is_out_of_station_transfer,
    transfer_time_units, PresetTpi, TransferDb,
};

#[test]
fn line_identifier_is_derived_from_station_identifier() {
    assert_eq!(
        station_to_line_id("odpt.Station:JR-East.Yamanote.Tokyo").unwrap(),
        "odpt.Railway:JR-East.Yamanote"
    );
    assert!(station_to_line_id("no-colon-here").is_none());
    assert!(station_to_line_id("odpt.Station:justoneword").is_none());
}

#[test]
fn operators_are_the_first_structural_token() {
    assert_eq!(
        operator_from_station_id("odpt.Station:JR-East.Yamanote.Tokyo").unwrap(),
        "JR-East"
    );
    assert_eq!(
        operator_from_line_id("odpt.Railway:TokyoMetro.Ginza").unwrap(),
        "TokyoMetro"
    );
    assert!(operator_from_station_id("bare").is_none());
}

#[test]
fn identifier_spellings_are_canonicalized() {
    assert_eq!(
        normalize_station_id("  odpt:Station:Toei.Oedo.Kuramae  "),
        "odpt.Station:Toei.Oedo.Kuramae"
    );
    assert_eq!(
        normalize_line_id("odpt:Railway:Toei.Oedo"),
        "odpt.Railway:Toei.Oedo"
    );
}

#[test]
fn identifier_lists_drop_empty_pieces() {
    let ids = parse_ids(Some("odpt:Station:A.B.C, ,odpt.Station:D.E.F,"));
    assert_eq!(
        ids,
        vec!["odpt.Station:A.B.C".to_string(), "odpt.Station:D.E.F".to_string()]
    );
    assert!(parse_ids(None).is_empty());
}

#[test]
fn display_names_split_on_case_boundaries() {
    assert_eq!(
        extract_name_from_id("odpt.Station:JR-East.Yamanote.ShinOkubo").unwrap(),
        "Shin Okubo"
    );
    assert!(extract_name_from_id("odpt.Railway:Toei.Oedo").is_none());
}

#[test]
fn hub_buffers_follow_the_fixed_list() {
    assert_eq!(
        get_hub_buffer_minutes("odpt.Station:JR-East.Yamanote.Shinjuku"),
        4
    );
    assert_eq!(get_hub_buffer_minutes("odpt.Station:JR-East.Tokaido.Tokyo"), 5);
    assert_eq!(get_hub_buffer_minutes("odpt.Station:JR-East.Yamanote.Ueno"), 3);
    assert_eq!(get_hub_buffer_minutes("odpt.Station:Keisei.Main.NaritaAirportTerminal1"), 8);
    assert_eq!(get_hub_buffer_minutes("odpt.Station:Test.Alpha.Nakano"), 0);
    // The first matching fragment wins.
    assert_eq!(get_hub_buffer_minutes("ShinjukuTokyo"), 4);
}

#[test]
fn transfer_distance_prefers_known_pairs() {
    let db = TransferDb::builtin();
    assert_eq!(
        get_transfer_distance(
            &db,
            "odpt.Station:JR-East.Tokaido.Tokyo",
            "odpt.Railway:JR-East.Keiyo"
        ),
        550
    );
    // Same structural line token: a same-complex transfer.
    assert_eq!(
        get_transfer_distance(&db, "odpt.Station:A.Line.S", "odpt.Railway:B.Line"),
        100
    );
    // Different tokens: a cross-complex transfer.
    assert_eq!(
        get_transfer_distance(&db, "odpt.Station:A.X.S", "odpt.Railway:B.Y"),
        250
    );
}

#[test]
fn out_of_station_rule_and_special_case() {
    assert!(is_out_of_station_transfer("odpt.Station:Toei.Oedo.Kuramae", 50));
    assert!(!is_out_of_station_transfer("odpt.Station:Test.Alpha.A", 200));
    assert!(is_out_of_station_transfer("odpt.Station:Test.Alpha.A", 201));
}

#[test]
fn heuristic_transfer_time_matches_the_formula() {
    let db = TransferDb::builtin();
    let tpi = PresetTpi::builtin();
    // 250/60 + 2.0 + 1.5 minutes, in 1/600-minute units.
    assert_eq!(
        transfer_time_units(&db, &tpi, "odpt.Station:A.X.Foo", "odpt.Railway:B.Y", 0),
        Some((4600, 250))
    );
}

#[test]
fn preset_penalty_applies_when_the_pair_is_unlisted() {
    let db = TransferDb::builtin();
    let tpi = PresetTpi::builtin();
    // Shibuya to the Ginza line: unlisted in the knowledge base, preset 40.
    // 250 m heuristic (cross-complex), out-of-station, operator change,
    // hub buffer 4 min at scale 0.4, preset penalty 40/10 minutes.
    let (time, dist) = transfer_time_units(
        &db,
        &tpi,
        "odpt.Station:JR-East.Yamanote.Shibuya",
        "odpt.Railway:TokyoMetro.Ginza",
        0,
    )
    .unwrap();
    assert_eq!(dist, 250);
    assert_eq!(time, 2500 + 1200 + 900 + 4 * 240 + 40 * 60);
}

#[test]
fn hub_scale_grows_with_journey_stage() {
    let db = TransferDb::builtin();
    let tpi = PresetTpi::builtin();
    let early = transfer_time_units(
        &db,
        &tpi,
        "odpt.Station:JR-East.Yamanote.Shibuya",
        "odpt.Railway:TokyoMetro.Ginza",
        0,
    )
    .unwrap()
    .0;
    let middle = transfer_time_units(
        &db,
        &tpi,
        "odpt.Station:JR-East.Yamanote.Shibuya",
        "odpt.Railway:TokyoMetro.Ginza",
        5,
    )
    .unwrap()
    .0;
    let late = transfer_time_units(
        &db,
        &tpi,
        "odpt.Station:JR-East.Yamanote.Shibuya",
        "odpt.Railway:TokyoMetro.Ginza",
        10,
    )
    .unwrap()
    .0;
    assert_eq!(middle - early, 4 * (420 - 240));
    assert_eq!(late - middle, 4 * (600 - 420));
}
