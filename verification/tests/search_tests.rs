use l4_routing::costs::{score, Profile, RouteCosts};
use l4_routing::graph::Graph;
use l4_routing::search::find_best_route;
use l4_routing::transfer::{PresetTpi, TransferDb};

fn ride(to: &str, cost_units: u64, railway: &str) -> (String, u64, String) {
    (to.to_string(), cost_units, railway.to_string())
}

fn transfer(to: &str) -> (String, u64, String) {
    (to.to_string(), 0, "transfer".to_string())
}

fn chain_graph() -> Graph {
    // A --600--> B --600--> C on a quiet line.
    let data = vec![
        (
            "odpt.Station:Test.Alpha.A".to_string(),
            vec![ride("odpt.Station:Test.Alpha.B", 600, "odpt.Railway:Test.Alpha")],
        ),
        (
            "odpt.Station:Test.Alpha.B".to_string(),
            vec![ride("odpt.Station:Test.Alpha.C", 600, "odpt.Railway:Test.Alpha")],
        ),
    ];
    Graph::build(&data)
}

fn model() -> (TransferDb, PresetTpi) {
    (TransferDb::builtin(), PresetTpi::builtin())
}

#[test]
fn ride_chain_costs_add_up() {
    let g = chain_graph();
    let (db, tpi) = model();
    let origins = vec!["odpt.Station:Test.Alpha.A".to_string()];
    let dests = vec!["odpt.Station:Test.Alpha.C".to_string()];
    let r = find_best_route(&g, &db, &tpi, &origins, &dests, 35, Profile::Fastest).unwrap();
    assert_eq!(r.path.len(), 3);
    assert_eq!(r.edge_railways.len(), 2);
    assert_eq!(r.costs.hops, 2);
    assert_eq!(r.costs.time, 1200); // two minutes in 1/600-minute units
    assert_eq!(r.costs.transfers, 0);
    assert_eq!(r.costs.crowding, 20);
}

#[test]
fn path_is_one_longer_than_edges() {
    let g = chain_graph();
    let (db, tpi) = model();
    let origins = vec!["odpt.Station:Test.Alpha.A".to_string()];
    let dests = vec!["odpt.Station:Test.Alpha.C".to_string()];
    let r = find_best_route(&g, &db, &tpi, &origins, &dests, 35, Profile::Smart).unwrap();
    assert_eq!(r.path.len(), r.edge_railways.len() + 1);
    assert_eq!(r.costs.hops as usize, r.edge_railways.len());
}

#[test]
fn hop_ceiling_is_respected() {
    let g = chain_graph();
    let (db, tpi) = model();
    let origins = vec!["odpt.Station:Test.Alpha.A".to_string()];
    let dests = vec!["odpt.Station:Test.Alpha.C".to_string()];
    // The destination needs two hops: a ceiling of one yields no route.
    let none = find_best_route(&g, &db, &tpi, &origins, &dests, 1, Profile::Fastest);
    assert!(none.is_none());
    let some = find_best_route(&g, &db, &tpi, &origins, &dests, 2, Profile::Fastest);
    assert!(some.is_some());
    assert!(some.unwrap().costs.hops <= 2);
}

#[test]
fn unlisted_transfer_uses_the_heuristic_formula() {
    // A transfer with no known-pairs entry, cross-complex (250 m, hence
    // out-of-station), with an operator change, at hop index 0, no hub, no
    // penalty index: 250/60 + 2.0 + 1.5 minutes = 4600 units; one transfer;
    // 250 m of walking.
    let data = vec![
        (
            "odpt.Station:A.X.Foo".to_string(),
            vec![transfer("odpt.Station:B.Y.Bar")],
        ),
    ];
    let g = Graph::build(&data);
    let (db, tpi) = model();
    let origins = vec!["odpt.Station:A.X.Foo".to_string()];
    let dests = vec!["odpt.Station:B.Y.Bar".to_string()];
    let r = find_best_route(&g, &db, &tpi, &origins, &dests, 35, Profile::Fastest).unwrap();
    assert_eq!(r.costs.time, 4600);
    assert_eq!(r.costs.transfers, 1);
    assert_eq!(r.costs.transfer_distance, 250);
    assert_eq!(r.edge_railways, vec!["transfer".to_string()]);
}

#[test]
fn high_crowding_line_raises_the_index() {
    let data = vec![
        (
            "odpt.Station:JR-East.Yamanote.A".to_string(),
            vec![ride(
                "odpt.Station:JR-East.Yamanote.B",
                600,
                "odpt.Railway:JR-East.Yamanote",
            )],
        ),
    ];
    let g = Graph::build(&data);
    let (db, tpi) = model();
    let origins = vec!["odpt.Station:JR-East.Yamanote.A".to_string()];
    let dests = vec!["odpt.Station:JR-East.Yamanote.B".to_string()];
    let r = find_best_route(&g, &db, &tpi, &origins, &dests, 35, Profile::Fastest).unwrap();
    assert_eq!(r.costs.crowding, 25);
}

#[test]
fn origin_equal_to_destination_is_trivial() {
    let g = chain_graph();
    let (db, tpi) = model();
    let origins = vec!["odpt.Station:Test.Alpha.A".to_string()];
    let dests = vec!["odpt.Station:Test.Alpha.A".to_string()];
    let r = find_best_route(&g, &db, &tpi, &origins, &dests, 35, Profile::Comfort).unwrap();
    assert_eq!(r.path.len(), 1);
    assert_eq!(r.costs.hops, 0);
    assert!(r.edge_railways.is_empty());
}

#[test]
fn unreachable_destination_yields_nothing() {
    let g = chain_graph();
    let (db, tpi) = model();
    // Edges point away from C; nothing reaches A from C.
    let origins = vec!["odpt.Station:Test.Alpha.C".to_string()];
    let dests = vec!["odpt.Station:Test.Alpha.A".to_string()];
    let r = find_best_route(&g, &db, &tpi, &origins, &dests, 35, Profile::Fastest);
    assert!(r.is_none());
}

#[test]
fn scores_match_the_formulas_exactly() {
    // One minute of riding with no transfers at initial crowding 20:
    // smart = 0.65 + 0.1 minutes = 9000/12000; fastest = 1 minute = 12000;
    // fewest_transfers likewise; comfort likewise.
    let c = RouteCosts { time: 600, transfers: 0, hops: 1, transfer_distance: 0, crowding: 20 };
    assert_eq!(score(Profile::Smart, &c), Some(600 * 13 + 20 * 60));
    assert_eq!(score(Profile::Fastest, &c), Some(12000));
    assert_eq!(score(Profile::FewestTransfers, &c), Some(12000));
    assert_eq!(score(Profile::Comfort, &c), Some(12000));
    // One transfer of 250 m over 4600 units of time.
    let t = RouteCosts { time: 4600, transfers: 1, hops: 1, transfer_distance: 250, crowding: 20 };
    assert_eq!(
        score(Profile::Smart, &t),
        Some(4600 * 13 + 10800 + 250 * 90 + 100 * 2700 + 20 * 60)
    );
    assert_eq!(score(Profile::Fastest, &t), Some(4600 * 20 + 36000));
    assert_eq!(score(Profile::FewestTransfers, &t), Some(12000000 + 4600 * 20));
    assert_eq!(score(Profile::Comfort, &t), Some(720000 + 250 * 3600 + 4600 * 20));
}

#[test]
fn cheaper_route_wins_over_fewer_hops() {
    // A -> C directly costs 3 minutes; A -> B -> C costs 2 minutes.
    let data = vec![
        (
            "odpt.Station:Test.Alpha.A".to_string(),
            vec![
                ride("odpt.Station:Test.Alpha.C", 1800, "odpt.Railway:Test.Alpha"),
                ride("odpt.Station:Test.Alpha.B", 600, "odpt.Railway:Test.Alpha"),
            ],
        ),
        (
            "odpt.Station:Test.Alpha.B".to_string(),
            vec![ride("odpt.Station:Test.Alpha.C", 600, "odpt.Railway:Test.Alpha")],
        ),
    ];
    let g = Graph::build(&data);
    let (db, tpi) = model();
    let origins = vec!["odpt.Station:Test.Alpha.A".to_string()];
    let dests = vec!["odpt.Station:Test.Alpha.C".to_string()];
    let r = find_best_route(&g, &db, &tpi, &origins, &dests, 35, Profile::Fastest).unwrap();
    assert_eq!(r.costs.time, 1200);
    assert_eq!(r.path.len(), 3);
}

#[test]
fn known_pair_transfer_uses_the_knowledge_base() {
    // Ueno to the Ginza line is a known pair: 180 m, penalty index 30, one
    // floor: 180/60 + 0 (in-station) + 1.5 (operator change) + 3*0.4 (hub)
    // + 30/10 + 0.5 minutes = 1800 + 900 + 720 + 1800 + 300 units.
    let data = vec![
        (
            "odpt.Station:JR-East.Yamanote.Ueno".to_string(),
            vec![transfer("odpt.Station:TokyoMetro.Ginza.Ueno")],
        ),
    ];
    let g = Graph::build(&data);
    let (db, tpi) = model();
    let origins = vec!["odpt.Station:JR-East.Yamanote.Ueno".to_string()];
    let dests = vec!["odpt.Station:TokyoMetro.Ginza.Ueno".to_string()];
    let r = find_best_route(&g, &db, &tpi, &origins, &dests, 35, Profile::Fastest).unwrap();
    assert_eq!(r.costs.time, 1800 + 900 + 720 + 1800 + 300);
    assert_eq!(r.costs.transfer_distance, 180);
    assert_eq!(r.costs.transfers, 1);
}
