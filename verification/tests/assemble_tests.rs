use l4_routing::assemble::{plan_routes, resolve_station_query};
use l4_routing::costs::Profile;
use l4_routing::graph::Graph;
use l4_routing::resolver::{StationEntry, StationNames, StationResolver};
use l4_routing::transfer::{PresetTpi, TransferDb, TransferInfo};

fn ride(to: &str, cost_units: u64, railway: &str) -> (String, u64, String) {
    (to.to_string(), cost_units, railway.to_string())
}

fn small_graph() -> Graph {
    let data = vec![
        (
            "odpt.Station:Test.Alpha.A".to_string(),
            vec![ride("odpt.Station:Test.Alpha.B", 600, "odpt.Railway:Test.Alpha")],
        ),
    ];
    Graph::build(&data)
}

fn small_resolver() -> StationResolver {
    StationResolver::new(vec![StationEntry {
        id: "odpt.Station:Test.Alpha.A".to_string(),
        names: StationNames {
            ja: "あるふぁ".to_string(),
            en: "Alpha".to_string(),
            zh: "阿尔法".to_string(),
        },
        aliases: vec![],
        reading: String::new(),
    }])
}

#[test]
fn empty_origin_set_is_a_bad_request() {
    let g = small_graph();
    let db = TransferDb::builtin();
    let tpi = PresetTpi::builtin();
    let resolver = small_resolver();
    let origins: Vec<String> = Vec::new();
    let dests = vec!["odpt.Station:Test.Alpha.B".to_string()];
    let outcome = plan_routes(&g, &db, &tpi, &resolver, &origins, &dests, 35, "en");
    assert!(outcome.bad_request);
    assert!(outcome.routes.is_empty());
    assert!(outcome.error.is_some());
}

#[test]
fn identical_itineraries_are_reported_once() {
    // All four profiles find the same single-edge itinerary; only the first
    // profile's entry is kept.
    let g = small_graph();
    let db = TransferDb::builtin();
    let tpi = PresetTpi::builtin();
    let resolver = small_resolver();
    let origins = vec!["odpt.Station:Test.Alpha.A".to_string()];
    let dests = vec!["odpt.Station:Test.Alpha.B".to_string()];
    let outcome = plan_routes(&g, &db, &tpi, &resolver, &origins, &dests, 35, "en");
    assert!(!outcome.bad_request);
    assert!(outcome.error.is_none());
    assert_eq!(outcome.routes.len(), 1);
    assert_eq!(outcome.routes[0].key, Profile::Smart);
    assert_eq!(outcome.routes[0].costs.time, 600);
    assert!(outcome.routes[0].path_localized.is_some());
}

#[test]
fn repeated_requests_agree() {
    // Identical inputs give itineraries of identical costs and signatures.
    let g = small_graph();
    let db = TransferDb::builtin();
    let tpi = PresetTpi::builtin();
    let resolver = small_resolver();
    let origins = vec!["odpt.Station:Test.Alpha.A".to_string()];
    let dests = vec!["odpt.Station:Test.Alpha.B".to_string()];
    let a = plan_routes(&g, &db, &tpi, &resolver, &origins, &dests, 35, "en");
    let b = plan_routes(&g, &db, &tpi, &resolver, &origins, &dests, 35, "en");
    assert_eq!(a.routes.len(), b.routes.len());
    for k in 0..a.routes.len() {
        assert_eq!(a.routes[k].key, b.routes[k].key);
        assert_eq!(a.routes[k].path, b.routes[k].path);
        assert_eq!(a.routes[k].edge_railways, b.routes[k].edge_railways);
        assert_eq!(a.routes[k].costs.time, b.routes[k].costs.time);
        assert_eq!(a.routes[k].costs.transfers, b.routes[k].costs.transfers);
        assert_eq!(a.routes[k].costs.hops, b.routes[k].costs.hops);
        assert_eq!(
            a.routes[k].costs.transfer_distance,
            b.routes[k].costs.transfer_distance
        );
        assert_eq!(a.routes[k].costs.crowding, b.routes[k].costs.crowding);
    }
}

#[test]
fn explicit_identifiers_bypass_resolution() {
    let resolver = small_resolver();
    let (ids, first) = resolve_station_query(
        &resolver,
        Some("Alpha"),
        Some("odpt:Station:Test.Alpha.A, odpt.Station:Test.Alpha.B"),
    );
    assert_eq!(
        ids,
        vec![
            "odpt.Station:Test.Alpha.A".to_string(),
            "odpt.Station:Test.Alpha.B".to_string()
        ]
    );
    assert!(first.is_none());
}

#[test]
fn free_text_resolves_to_candidates() {
    let resolver = small_resolver();
    let (ids, first) = resolve_station_query(&resolver, Some("Alpha"), None);
    assert_eq!(ids, vec!["odpt.Station:Test.Alpha.A".to_string()]);
    let first = first.unwrap();
    assert_eq!(first.matched_id, "odpt.Station:Test.Alpha.A");
    assert_eq!(first.query, "Alpha");
}

#[test]
fn identifier_shaped_text_passes_through() {
    let resolver = small_resolver();
    let (ids, first) = resolve_station_query(&resolver, Some(" odpt.Station:Test.Alpha.Z "), None);
    assert_eq!(ids, vec!["odpt.Station:Test.Alpha.Z".to_string()]);
    assert!(first.is_none());
}

#[test]
fn blank_text_resolves_to_nothing() {
    let resolver = small_resolver();
    let (ids, first) = resolve_station_query(&resolver, Some("   "), None);
    assert!(ids.is_empty());
    assert!(first.is_none());
}

#[test]
fn transfer_overrides_win_on_collision() {
    let base = TransferDb::builtin();
    let known = base
        .lookup("odpt.Station:Toei.Asakusa.Kuramae", "odpt.Railway:Toei.Oedo")
        .unwrap();
    assert_eq!(known.walking_distance_meters, 270);
    assert_eq!(known.base_tpi, 60);
    assert_eq!(known.floor_difference, 2);
    let overridden = TransferDb::with_overrides(vec![(
        "odpt:Station:Toei.Asakusa.Kuramae".to_string(),
        "odpt:Railway:Toei.Oedo".to_string(),
        TransferInfo { walking_distance_meters: 100, base_tpi: 10, floor_difference: 0 },
    )]);
    let info = overridden
        .lookup("odpt.Station:Toei.Asakusa.Kuramae", "odpt.Railway:Toei.Oedo")
        .unwrap();
    assert_eq!(info.walking_distance_meters, 100);
    assert_eq!(info.base_tpi, 10);
    assert_eq!(info.floor_difference, 0);
    assert!(overridden.lookup("odpt.Station:Nowhere", "odpt.Railway:None").is_none());
}

#[test]
fn preset_tpi_overrides_win_on_collision() {
    let base = PresetTpi::builtin();
    assert_eq!(
        base.lookup(
            "odpt.Station:JR-East.Yamanote.Akihabara",
            "odpt.Railway:TokyoMetro.Hibiya"
        ),
        Some(25)
    );
    let overridden = PresetTpi::with_overrides(vec![(
        "odpt.Station:JR-East.Yamanote.Akihabara".to_string(),
        "odpt.Railway:TokyoMetro.Hibiya".to_string(),
        99,
    )]);
    assert_eq!(
        overridden.lookup(
            "odpt.Station:JR-East.Yamanote.Akihabara",
            "odpt.Railway:TokyoMetro.Hibiya"
        ),
        Some(99)
    );
}
