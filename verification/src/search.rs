//! The multi-profile pathfinder: a best-first weighted shortest-path search
//! over the station graph, scalarizing the accumulated cost vector with one
//! scoring profile, seeded from all resolved origins and stopping at the
//! first destination reached with minimal scalar score.
//!
//! A hop-count ceiling bounds search depth.  Candidate frontier entries
//! whose score or cost components do not fit in a `u64` are dropped, the
//! integer analogue of excluding non-finite scores.

use vstd::prelude::*;
use crate::costs::{lemma_score_monotone, score, spec_score, Profile, RouteCosts};
use crate::graph::{ids_view, node_index, Edge, Graph};
use crate::station_id::{spec_station_to_line_id, station_to_line_id};
use crate::transfer::{
    spec_transfer_distance, spec_transfer_time_units, transfer_time_units, PresetTpi, TransferDb,
};
use crate::text::str_eq;

verus! {

/// How a ride edge extends a cost vector: one hop, the edge's riding time,
/// and five crowding points (capped at 100) on a high-crowding line.
pub open spec fn spec_ride_step(cost: u64, crowded: bool, c1: RouteCosts, c2: RouteCosts) -> bool {
    &&& c2.hops == c1.hops + 1
    &&& c2.time == c1.time + cost
    &&& c2.transfers == c1.transfers
    &&& c2.transfer_distance == c1.transfer_distance
    &&& (if crowded {
        c2.crowding == (if c1.crowding + 5 <= 100 {
            c1.crowding + 5
        } else {
            100int
        })
    } else {
        c2.crowding == c1.crowding
    })
}

/// How a transfer edge extends a cost vector: one hop, the transfer time of
/// the pair, one transfer, and the pair's walking distance; defined only
/// when the target station's line identifier can be derived.
pub open spec fn spec_transfer_step(
    db: TransferDb,
    tpi: PresetTpi,
    from: Seq<char>,
    to: Seq<char>,
    c1: RouteCosts,
    c2: RouteCosts,
) -> bool {
    match spec_station_to_line_id(to) {
        Some(line) => {
            &&& c2.hops == c1.hops + 1
            &&& c2.time == c1.time + spec_transfer_time_units(db, tpi, from, line, c1.hops)
            &&& c2.transfers == c1.transfers + 1
            &&& c2.transfer_distance == c1.transfer_distance + spec_transfer_distance(
                db,
                from,
                line,
            )
            &&& c2.crowding == c1.crowding
        },
        None => false,
    }
}

/// How one edge, ride or transfer, extends a cost vector.
pub open spec fn spec_step(
    db: TransferDb,
    tpi: PresetTpi,
    from: Seq<char>,
    to: Seq<char>,
    edge: Edge,
    c1: RouteCosts,
    c2: RouteCosts,
) -> bool {
    if edge.is_transfer {
        spec_transfer_step(db, tpi, from, to, c1, c2)
    } else {
        spec_ride_step(edge.cost, edge.crowded, c1, c2)
    }
}

/// When extending a cost vector along an edge stays within `u64` range: the
/// exact condition under which the relaxation is performed.
pub open spec fn spec_step_fits(
    db: TransferDb,
    tpi: PresetTpi,
    from: Seq<char>,
    to: Seq<char>,
    edge: Edge,
    c1: RouteCosts,
) -> bool {
    if edge.is_transfer {
        match spec_station_to_line_id(to) {
            Some(line) => {
                &&& c1.time + spec_transfer_time_units(db, tpi, from, line, c1.hops) <= u64::MAX
                &&& c1.transfer_distance + spec_transfer_distance(db, from, line) <= u64::MAX
            },
            None => false,
        }
    } else {
        c1.time + edge.cost <= u64::MAX
    }
}

/// A step only raises each cost component, keeps the component invariants,
/// and adds exactly one hop.
pub proof fn lemma_step_monotone(
    db: TransferDb,
    tpi: PresetTpi,
    from: Seq<char>,
    to: Seq<char>,
    edge: Edge,
    c1: RouteCosts,
    c2: RouteCosts,
)
    requires
        spec_step(db, tpi, from, to, edge, c1, c2),
        c1.crowding <= 100,
        c1.transfers <= c1.hops,
    ensures
        c1.le(c2),
        c2.hops == c1.hops + 1,
        c2.crowding <= 100,
        c2.transfers <= c2.hops,
{
}

/// Extends a cost vector along one edge.  Returns `None` exactly when the
/// target's line identifier cannot be derived for a transfer, or when a
/// component leaves `u64` range.
fn apply_edge(
    db: &TransferDb,
    tpi: &PresetTpi,
    from_id: &str,
    to_id: &str,
    edge: &Edge,
    c: &RouteCosts,
) -> (r: Option<RouteCosts>)
    requires
        c.crowding <= 100,
        c.transfers <= c.hops,
        c.hops < u64::MAX,
    ensures
        r is Some <==> spec_step_fits(*db, *tpi, from_id@, to_id@, *edge, *c),
        r matches Some(c2) ==> spec_step(*db, *tpi, from_id@, to_id@, *edge, *c, c2),
{
    if edge.is_transfer {
        let line = match station_to_line_id(to_id) {
            Some(l) => l,
            None => {
                return None;
            },
        };
        let (ttu, d) = match transfer_time_units(db, tpi, from_id, line.as_str(), c.hops) {
            Some(x) => x,
            None => {
                return None;
            },
        };
        let time = match c.time.checked_add(ttu) {
            Some(t) => t,
            None => {
                return None;
            },
        };
        let dist = match c.transfer_distance.checked_add(d) {
            Some(t) => t,
            None => {
                return None;
            },
        };
        Some(
            RouteCosts {
                time,
                transfers: c.transfers + 1,
                hops: c.hops + 1,
                transfer_distance: dist,
                crowding: c.crowding,
            },
        )
    } else {
        let time = match c.time.checked_add(edge.cost) {
            Some(t) => t,
            None => {
                return None;
            },
        };
        let crowding: u64 = if edge.crowded {
            if c.crowding + 5 <= 100 {
                c.crowding + 5
            } else {
                100
            }
        } else {
            c.crowding
        };
        Some(
            RouteCosts {
                time,
                transfers: c.transfers,
                hops: c.hops + 1,
                transfer_distance: c.transfer_distance,
                crowding,
            },
        )
    }
}

/// One valid link of a route: step `k` leaves `ipath[k]` along its edge
/// number `eidx[k]`, lands on `ipath[k + 1]`, and extends the cost vector as
/// the edge prescribes.
pub open spec fn spec_route_edge_ok(
    g: Graph,
    db: TransferDb,
    tpi: PresetTpi,
    ipath: Seq<usize>,
    eidx: Seq<usize>,
    cs: Seq<RouteCosts>,
    k: int,
) -> bool {
    &&& ipath[k] < g.adj@.len()
    &&& eidx[k] < g.adj@[ipath[k] as int]@.len()
    &&& {
        let edge = g.adj@[ipath[k] as int]@[eidx[k] as int];
        &&& edge.to == ipath[k + 1]
        &&& spec_step(
            db,
            tpi,
            ids_view(g.ids@)[ipath[k] as int],
            ids_view(g.ids@)[edge.to as int],
            edge,
            cs[k],
            cs[k + 1],
        )
    }
}

/// A valid route: a non-empty node sequence whose every link is a graph
/// edge, with the cost vector accumulated from the initial one step by step;
/// `cs[k]` is the cost vector after `k` hops.
pub open spec fn spec_route_ok(
    g: Graph,
    db: TransferDb,
    tpi: PresetTpi,
    ipath: Seq<usize>,
    eidx: Seq<usize>,
    cs: Seq<RouteCosts>,
) -> bool {
    &&& ipath.len() >= 1
    &&& cs.len() == ipath.len()
    &&& eidx.len() == ipath.len() - 1
    &&& cs[0] == RouteCosts::spec_initial()
    &&& (forall|k: int| 0 <= k < cs.len() ==> (#[trigger] cs[k]).hops == k)
    &&& (forall|k: int|
        0 <= k < cs.len() ==> (#[trigger] cs[k]).transfers <= cs[k].hops && cs[k].crowding <= 100)
    &&& (forall|k: int| 0 <= k < eidx.len() ==> spec_route_edge_ok(g, db, tpi, ipath, eidx, cs, k))
}

/// Along a valid route the scalar score never falls: the standard
/// shortest-path monotonicity of non-negative weights.
pub proof fn lemma_route_monotone(
    g: Graph,
    db: TransferDb,
    tpi: PresetTpi,
    p: Profile,
    ipath: Seq<usize>,
    eidx: Seq<usize>,
    cs: Seq<RouteCosts>,
)
    requires
        spec_route_ok(g, db, tpi, ipath, eidx, cs),
    ensures
        forall|a: int, b: int|
            0 <= a <= b < cs.len() ==> spec_score(p, #[trigger] cs[a]) <= spec_score(
                p,
                #[trigger] cs[b],
            ),
{
    assert forall|a: int, b: int|
        0 <= a <= b < cs.len() implies spec_score(p, #[trigger] cs[a]) <= spec_score(
        p,
        #[trigger] cs[b],
    ) by {
        lemma_score_chain(g, db, tpi, p, ipath, eidx, cs, a, b);
    }
}

/// Chains the one-step score bound from position `a` to position `b`.
proof fn lemma_score_chain(
    g: Graph,
    db: TransferDb,
    tpi: PresetTpi,
    p: Profile,
    ipath: Seq<usize>,
    eidx: Seq<usize>,
    cs: Seq<RouteCosts>,
    a: int,
    b: int,
)
    requires
        spec_route_ok(g, db, tpi, ipath, eidx, cs),
        0 <= a <= b < cs.len(),
    ensures
        spec_score(p, cs[a]) <= spec_score(p, cs[b]),
    decreases b - a,
{
    if a < b {
        lemma_score_chain(g, db, tpi, p, ipath, eidx, cs, a, b - 1);
        let k = b - 1;
        assert(spec_route_edge_ok(g, db, tpi, ipath, eidx, cs, k));
        let edge = g.adj@[ipath[k] as int]@[eidx[k] as int];
        lemma_step_monotone(
            db,
            tpi,
            ids_view(g.ids@)[ipath[k] as int],
            ids_view(g.ids@)[edge.to as int],
            edge,
            cs[k],
            cs[k + 1],
        );
        lemma_score_monotone(p, cs[k], cs[k + 1]);
    }
}

/// The profiles whose score is a sum of fixed per-edge contributions.  The
/// `smart` profile is not among them: its distance-penalty threshold and
/// capped crowding term make an edge's contribution depend on the costs
/// already accumulated.
pub open spec fn spec_additive_profile(p: Profile) -> bool {
    p == Profile::Fastest || p == Profile::FewestTransfers || p == Profile::Comfort
}

/// Whether no station of the graph carries a hub buffer, so that a
/// transfer's time does not depend on the journey stage at which it is
/// taken.
pub open spec fn spec_stage_free(g: Graph) -> bool {
    forall|v: int|
        0 <= v < g.ids@.len() ==> crate::transfer::spec_hub_buffer_minutes(
            #[trigger] ids_view(g.ids@)[v],
        ) == 0
}

/// Whether every transfer of the graph walks a sane distance and the graph
/// is of sane size, keeping the walking-distance accumulator of any stored
/// route comfortably clear of the `u64` range.
pub open spec fn spec_bounded_walks(g: Graph, db: TransferDb, tpi: PresetTpi) -> bool {
    &&& g.ids@.len() <= 0x1_0000_0000
    &&& (forall|u: int, e: int|
        0 <= u < g.adj@.len() && 0 <= e < g.adj@[u]@.len() && (#[trigger] g.adj@[u]@[e]).is_transfer
            ==> match spec_station_to_line_id(ids_view(g.ids@)[g.adj@[u]@[e].to as int]) {
            Some(line) => spec_transfer_distance(db, ids_view(g.ids@)[u], line) <= 0x8000_0000,
            None => true,
        })
}

/// When the search is exhaustive and exact: an additive profile over a
/// graph without hub buffers, with sane transfer distances, under a hop
/// ceiling no smaller than the node count (a stored route never revisits a
/// station, so the ceiling then never cuts one off).  Outside these inputs
/// the search is the stated heuristic: the ceiling, the stage-scaled hub
/// buffers and the `smart` formula can all make it miss a cheaper route.
pub open spec fn spec_search_exact(g: Graph, db: TransferDb, tpi: PresetTpi, max_hops: u64, p: Profile) -> bool {
    &&& spec_additive_profile(p)
    &&& spec_stage_free(g)
    &&& spec_bounded_walks(g, db, tpi)
    &&& g.ids@.len() <= max_hops
}

/// The per-transfer score contribution of an additive profile.
pub open spec fn spec_transfer_coef(p: Profile) -> int {
    match p {
        Profile::Smart => 0,
        Profile::Fastest => 36000,
        Profile::FewestTransfers => 12000000,
        Profile::Comfort => 720000,
    }
}

/// The per-meter score contribution of an additive profile.
pub open spec fn spec_distance_coef(p: Profile) -> int {
    match p {
        Profile::Comfort => 3600,
        _ => 0,
    }
}

/// Whether an edge can be stepped along at all: a transfer edge needs a
/// derivable line identifier at its target.
pub open spec fn spec_edge_usable(g: Graph, u: int, e: int) -> bool {
    g.adj@[u]@[e].is_transfer ==> spec_station_to_line_id(
        ids_view(g.ids@)[g.adj@[u]@[e].to as int],
    ) is Some
}

/// The score a usable edge adds under an additive profile on a stage-free
/// graph (written at journey stage 0; without hub buffers the stage does
/// not matter).
pub open spec fn spec_edge_delta(
    g: Graph,
    db: TransferDb,
    tpi: PresetTpi,
    p: Profile,
    u: int,
    e: int,
) -> int {
    let edge = g.adj@[u]@[e];
    if edge.is_transfer {
        match spec_station_to_line_id(ids_view(g.ids@)[edge.to as int]) {
            Some(line) => 20 * spec_transfer_time_units(db, tpi, ids_view(g.ids@)[u], line, 0)
                + spec_transfer_coef(p) + spec_distance_coef(p) * spec_transfer_distance(
                db,
                ids_view(g.ids@)[u],
                line,
            ),
            None => 0,
        }
    } else {
        20 * edge.cost
    }
}

/// On a stage-free graph, one step along an edge adds exactly the edge's
/// score delta under an additive profile, and the delta is never negative.
pub proof fn lemma_step_delta(
    g: Graph,
    db: TransferDb,
    tpi: PresetTpi,
    p: Profile,
    u: int,
    e: int,
    c1: RouteCosts,
    c2: RouteCosts,
)
    requires
        spec_additive_profile(p),
        spec_stage_free(g),
        g.adj@.len() == g.ids@.len(),
        0 <= u < g.adj@.len(),
        0 <= e < g.adj@[u]@.len(),
        spec_step(
            db,
            tpi,
            ids_view(g.ids@)[u],
            ids_view(g.ids@)[g.adj@[u]@[e].to as int],
            g.adj@[u]@[e],
            c1,
            c2,
        ),
    ensures
        spec_score(p, c2) == spec_score(p, c1) + spec_edge_delta(g, db, tpi, p, u, e),
        spec_edge_delta(g, db, tpi, p, u, e) >= 0,
{
    let edge = g.adj@[u]@[e];
    let from = ids_view(g.ids@)[u];
    if edge.is_transfer {
        let line = spec_station_to_line_id(ids_view(g.ids@)[edge.to as int])->0;
        assert(crate::transfer::spec_hub_buffer_minutes(from) == 0);
        assert(spec_transfer_time_units(db, tpi, from, line, c1.hops)
            == spec_transfer_time_units(db, tpi, from, line, 0));
    }
}

/// A sequence of pairwise-distinct indices below `n` has at most `n`
/// members.
proof fn lemma_distinct_bounded(s: Seq<usize>, n: int)
    requires
        n >= 0,
        forall|k: int| 0 <= k < s.len() ==> (#[trigger] s[k] as int) < n,
        forall|a: int, b: int| 0 <= a < b < s.len() ==> s[a] != s[b],
    ensures
        s.len() <= n,
{
    let m = s.map_values(|x: usize| x as int);
    assert(forall|a: int, b: int| 0 <= a < b < m.len() ==> m[a] != m[b]);
    assert(m.no_duplicates());
    m.unique_seq_to_set();
    assert(m.to_set().subset_of(vstd::set_lib::set_int_range(0, n))) by {
        assert forall|x: int| m.to_set().contains(x) implies vstd::set_lib::set_int_range(
            0,
            n,
        ).contains(x) by {
            assert(m.contains(x));
            let k = choose|k: int| 0 <= k < m.len() && m[k] == x;
            assert(0 <= x < n);
        }
    }
    vstd::set_lib::lemma_int_range(0, n);
    vstd::set_lib::lemma_len_subset(m.to_set(), vstd::set_lib::set_int_range(0, n));
}

/// Whether a node carries one of the requested origin names.
pub open spec fn spec_is_origin_node(g: Graph, origins: Seq<String>, v: int) -> bool {
    exists|oi: int| 0 <= oi < origins.len() && (#[trigger] origins[oi])@ == ids_view(g.ids@)[v]
}

/// Whether a node carries one of the requested destination names.
pub open spec fn spec_is_dest_node(g: Graph, dests: Seq<String>, v: int) -> bool {
    exists|di: int| 0 <= di < dests.len() && (#[trigger] dests[di])@ == ids_view(g.ids@)[v]
}

/// A chain the search competes against: a valid route from a requested
/// origin's node to a requested destination's node.
pub open spec fn spec_dest_chain(
    g: Graph,
    db: TransferDb,
    tpi: PresetTpi,
    origins: Seq<String>,
    dests: Seq<String>,
    ipath: Seq<usize>,
    eidx: Seq<usize>,
    cs: Seq<RouteCosts>,
) -> bool {
    &&& spec_route_ok(g, db, tpi, ipath, eidx, cs)
    &&& (forall|k: int| 0 <= k < ipath.len() ==> (#[trigger] ipath[k] as int) < g.ids@.len())
    &&& spec_is_origin_node(g, origins, ipath[0] as int)
    &&& spec_is_dest_node(g, dests, ipath.last() as int)
}

/// A chain the search can traverse: a destination chain whose every prefix
/// score fits in a `u64` (an entry whose score leaves that range is dropped
/// from the frontier, the integer analogue of a non-finite score).
pub open spec fn spec_feasible_chain(
    g: Graph,
    db: TransferDb,
    tpi: PresetTpi,
    origins: Seq<String>,
    dests: Seq<String>,
    p: Profile,
    ipath: Seq<usize>,
    eidx: Seq<usize>,
    cs: Seq<RouteCosts>,
) -> bool {
    &&& spec_dest_chain(g, db, tpi, origins, dests, ipath, eidx, cs)
    &&& (forall|k: int| 0 <= k < cs.len() ==> spec_score(p, #[trigger] cs[k]) <= u64::MAX)
}

/// The number of transfer markers among the railway identifiers of a route.
pub open spec fn spec_count_transfers(rails: Seq<Seq<char>>) -> int
    decreases rails.len(),
{
    if rails.len() == 0 {
        0
    } else {
        spec_count_transfers(rails.drop_last()) + (
        if rails.last() == "transfer"@ {
            1int
        } else {
            0int
        })
    }
}

/// Along a valid route, the accumulated transfer count equals the number of
/// transfer edges taken.
pub proof fn lemma_route_transfer_count(
    g: Graph,
    db: TransferDb,
    tpi: PresetTpi,
    ipath: Seq<usize>,
    eidx: Seq<usize>,
    cs: Seq<RouteCosts>,
    rails: Seq<Seq<char>>,
)
    requires
        g.wf(),
        spec_route_ok(g, db, tpi, ipath, eidx, cs),
        rails.len() == eidx.len(),
        forall|k: int|
            0 <= k < rails.len() ==> #[trigger] rails[k] == g.adj@[ipath[k] as int]@[eidx[k] as int].railway_id@,
    ensures
        cs.last().transfers == spec_count_transfers(rails),
    decreases rails.len(),
{
    if rails.len() == 0 {
        assert(cs.last() == cs[0]);
    } else {
        let n = rails.len() as int;
        assert(forall|k: int| 0 <= k < cs.len() - 1 ==> #[trigger] cs.drop_last()[k] == cs[k]);
        assert(forall|k: int|
            0 <= k < ipath.len() - 1 ==> #[trigger] ipath.drop_last()[k] == ipath[k]);
        assert(forall|k: int|
            0 <= k < eidx.len() - 1 ==> #[trigger] eidx.drop_last()[k] == eidx[k]);
        assert forall|k: int| 0 <= k < eidx.len() - 1 implies spec_route_edge_ok(
            g,
            db,
            tpi,
            ipath.drop_last(),
            eidx.drop_last(),
            cs.drop_last(),
            k,
        ) by {
            assert(spec_route_edge_ok(g, db, tpi, ipath, eidx, cs, k));
        }
        lemma_route_transfer_count(
            g,
            db,
            tpi,
            ipath.drop_last(),
            eidx.drop_last(),
            cs.drop_last(),
            rails.drop_last(),
        );
        assert(spec_route_edge_ok(g, db, tpi, ipath, eidx, cs, n - 1));
        assert(cs.drop_last().last() == cs[n - 1]);
        let edge = g.adj@[ipath[n - 1] as int]@[eidx[n - 1] as int];
        assert(edge.is_transfer == (edge.railway_id@ == "transfer"@));
        assert(rails.last() == edge.railway_id@);
        if edge.is_transfer {
            assert(cs[n].transfers == cs[n - 1].transfers + 1);
        } else {
            assert(cs[n].transfers == cs[n - 1].transfers);
        }
        assert(cs.last() == cs[n]);
    }
}

/// One found itinerary: the stations passed, the railway identifier of each
/// edge taken, and the accumulated costs.
pub struct RouteResult {
    pub key: Profile,
    pub path: Vec<String>,
    pub path_localized: Option<Vec<String>>,
    pub edge_railways: Vec<String>,
    pub costs: RouteCosts,
}

/// What the search guarantees of a returned itinerary: one more station
/// than edges, a hop count equal to the edge count and within the ceiling,
/// a path that starts at a requested origin, ends at a requested
/// destination and never revisits a station, a transfer count equal to the
/// number of transfer edges taken, and costs accumulated exactly as the
/// relaxation rules prescribe along a chain of graph edges (or the initial
/// costs, for the trivial one-station itinerary).
pub open spec fn spec_route_result_ok(
    g: Graph,
    db: TransferDb,
    tpi: PresetTpi,
    origins: Seq<String>,
    dests: Seq<String>,
    max_hops: u64,
    profile: Profile,
    res: RouteResult,
) -> bool {
    &&& res.key == profile
    &&& res.path@.len() == res.edge_railways@.len() + 1
    &&& res.costs.hops == res.edge_railways@.len()
    &&& res.costs.hops <= max_hops
    &&& (exists|oi: int|
        0 <= oi < origins.len() && #[trigger] origins[oi]@ == res.path.deep_view()[0])
    &&& (exists|di: int|
        0 <= di < dests.len() && #[trigger] dests[di]@ == res.path.deep_view().last())
    &&& (forall|a: int, b: int|
        0 <= a < b < res.path@.len() ==> res.path.deep_view()[a] != res.path.deep_view()[b])
    &&& res.costs.transfers == spec_count_transfers(res.edge_railways.deep_view())
    &&& ((res.path@.len() == 1 && res.costs == RouteCosts::spec_initial()) || (exists|
        ipath: Seq<usize>,
        eidx: Seq<usize>,
        cs: Seq<RouteCosts>,
    |
        {
            &&& #[trigger] spec_route_ok(g, db, tpi, ipath, eidx, cs)
            &&& (forall|k: int| 0 <= k < ipath.len() ==> (#[trigger] ipath[k] as int) < g.ids@.len())
            &&& res.path.deep_view() == Seq::new(
                ipath.len(),
                |k: int| ids_view(g.ids@)[ipath[k] as int],
            )
            &&& res.edge_railways.deep_view() == Seq::new(
                eidx.len(),
                |k: int| g.adj@[ipath[k] as int]@[eidx[k] as int].railway_id@,
            )
            &&& res.costs == cs.last()
        }))
}

/// A returned itinerary never reaches a station by a longer prefix at a
/// higher score than by a shorter one: its stations are pairwise distinct,
/// so no two distinct prefixes even end at the same station — and along any
/// valid route the scalar score never falls (`lemma_route_monotone`).
/// Under the exactness conditions the full form of shortest-path optimality
/// holds as well: the returned itinerary's score is least among all routes
/// from a requested origin to a requested destination.
pub proof fn lemma_no_costlier_prefix(
    g: Graph,
    db: TransferDb,
    tpi: PresetTpi,
    origins: Seq<String>,
    dests: Seq<String>,
    max_hops: u64,
    profile: Profile,
    res: RouteResult,
)
    requires
        spec_search_ok(g, db, tpi, origins, dests, max_hops, profile, Some(res)),
    ensures
        forall|a: int, b: int|
            0 <= a < b < res.path@.len() ==> res.path.deep_view()[a] != res.path.deep_view()[b],
        spec_search_exact(g, db, tpi, max_hops, profile) ==> forall|
            ipath: Seq<usize>,
            eidx: Seq<usize>,
            cs: Seq<RouteCosts>,
        |
            #[trigger] spec_dest_chain(g, db, tpi, origins, dests, ipath, eidx, cs)
                ==> spec_score(profile, res.costs) <= spec_score(profile, cs.last()),
{
}

/// Two results of the same search agree in score: identical inputs yield
/// itineraries of identical cost under every profile's measure.  (A request
/// whose origin and destination texts share an entry is excluded: there the
/// trivial one-station itinerary and a cheap loop both satisfy the search's
/// guarantees.)
pub proof fn lemma_search_scores_agree(
    g: Graph,
    db: TransferDb,
    tpi: PresetTpi,
    origins: Seq<String>,
    dests: Seq<String>,
    max_hops: u64,
    profile: Profile,
    r1: RouteResult,
    r2: RouteResult,
)
    requires
        spec_search_exact(g, db, tpi, max_hops, profile),
        forall|oi: int, di: int|
            0 <= oi < origins.len() && 0 <= di < dests.len() ==> (#[trigger] origins[oi])@ != (
            #[trigger] dests[di])@,
        spec_search_ok(g, db, tpi, origins, dests, max_hops, profile, Some(r1)),
        spec_search_ok(g, db, tpi, origins, dests, max_hops, profile, Some(r2)),
    ensures
        spec_score(profile, r1.costs) == spec_score(profile, r2.costs),
{
    lemma_result_is_chain(g, db, tpi, origins, dests, max_hops, profile, r1);
    lemma_result_is_chain(g, db, tpi, origins, dests, max_hops, profile, r2);
    let (p1, e1, c1) = choose|ipath: Seq<usize>, eidx: Seq<usize>, cs: Seq<RouteCosts>|
        #[trigger] spec_dest_chain(g, db, tpi, origins, dests, ipath, eidx, cs) && r1.costs
            == cs.last();
    let (p2, e2, c2) = choose|ipath: Seq<usize>, eidx: Seq<usize>, cs: Seq<RouteCosts>|
        #[trigger] spec_dest_chain(g, db, tpi, origins, dests, ipath, eidx, cs) && r2.costs
            == cs.last();
    assert(spec_score(profile, r1.costs) <= spec_score(profile, c2.last()));
    assert(spec_score(profile, r2.costs) <= spec_score(profile, c1.last()));
}

/// When no origin text is also a destination text, a returned itinerary is
/// witnessed by a destination chain ending at its cost vector.
proof fn lemma_result_is_chain(
    g: Graph,
    db: TransferDb,
    tpi: PresetTpi,
    origins: Seq<String>,
    dests: Seq<String>,
    max_hops: u64,
    profile: Profile,
    res: RouteResult,
)
    requires
        forall|oi: int, di: int|
            0 <= oi < origins.len() && 0 <= di < dests.len() ==> (#[trigger] origins[oi])@ != (
            #[trigger] dests[di])@,
        spec_search_ok(g, db, tpi, origins, dests, max_hops, profile, Some(res)),
    ensures
        exists|ipath: Seq<usize>, eidx: Seq<usize>, cs: Seq<RouteCosts>|
            #[trigger] spec_dest_chain(g, db, tpi, origins, dests, ipath, eidx, cs) && res.costs
                == cs.last(),
{
    let pd = res.path.deep_view();
    if res.path@.len() == 1 {
        // A one-station itinerary starts and ends at the same name, which
        // the shared-text exclusion forbids.
        let oi = choose|oi: int| 0 <= oi < origins.len() && (#[trigger] origins[oi])@ == pd[0];
        let di = choose|di: int|
            0 <= di < dests.len() && (#[trigger] dests[di])@ == pd.last();
        assert(origins[oi]@ == dests[di]@);
        assert(false);
    }
    let (ipath, eidx, cs) = choose|ipath: Seq<usize>, eidx: Seq<usize>, cs: Seq<RouteCosts>|
        {
            &&& #[trigger] spec_route_ok(g, db, tpi, ipath, eidx, cs)
            &&& (forall|k: int|
                0 <= k < ipath.len() ==> (#[trigger] ipath[k] as int) < g.ids@.len())
            &&& res.path.deep_view() == Seq::new(
                ipath.len(),
                |k: int| ids_view(g.ids@)[ipath[k] as int],
            )
            &&& res.edge_railways.deep_view() == Seq::new(
                eidx.len(),
                |k: int| g.adj@[ipath[k] as int]@[eidx[k] as int].railway_id@,
            )
            &&& res.costs == cs.last()
        };
    let oi = choose|oi: int| 0 <= oi < origins.len() && (#[trigger] origins[oi])@ == pd[0];
    assert(pd[0] == ids_view(g.ids@)[ipath[0] as int]);
    assert(spec_is_origin_node(g, origins, ipath[0] as int));
    let di = choose|di: int| 0 <= di < dests.len() && (#[trigger] dests[di])@ == pd.last();
    assert(pd.last() == ids_view(g.ids@)[ipath[ipath.len() - 1] as int]);
    assert(spec_is_dest_node(g, dests, ipath.last() as int));
    assert(spec_dest_chain(g, db, tpi, origins, dests, ipath, eidx, cs));
}

/// Everything one search call promises of its outcome `r`, bundled so that
/// callers can speak of "a possible result of the search" per profile: a
/// returned itinerary satisfies `spec_route_result_ok` and its score fits a
/// `u64`; a result is owed whenever a requested origin is itself a
/// requested destination; and under the exactness conditions the search is
/// complete (nothing returned means no feasible chain exists) and optimal
/// (a returned itinerary's score is least among all destination chains).
pub open spec fn spec_search_ok(
    g: Graph,
    db: TransferDb,
    tpi: PresetTpi,
    origins: Seq<String>,
    dests: Seq<String>,
    max_hops: u64,
    profile: Profile,
    r: Option<RouteResult>,
) -> bool {
    &&& (r matches Some(res) ==> spec_route_result_ok(
        g,
        db,
        tpi,
        origins,
        dests,
        max_hops,
        profile,
        res,
    ) && spec_score(profile, res.costs) <= u64::MAX)
    &&& ((exists|oi: int, di: int|
        0 <= oi < origins.len() && 0 <= di < dests.len() && (#[trigger] origins[oi])@ == (
        #[trigger] dests[di])@) ==> r is Some)
    &&& (spec_search_exact(g, db, tpi, max_hops, profile) && r is None ==> forall|
        ipath: Seq<usize>,
        eidx: Seq<usize>,
        cs: Seq<RouteCosts>,
    |
        !#[trigger] spec_feasible_chain(g, db, tpi, origins, dests, profile, ipath, eidx, cs))
    &&& (spec_search_exact(g, db, tpi, max_hops, profile) ==> match r {
        Some(res) => forall|ipath: Seq<usize>, eidx: Seq<usize>, cs: Seq<RouteCosts>|
            #[trigger] spec_dest_chain(g, db, tpi, origins, dests, ipath, eidx, cs)
                ==> spec_score(profile, res.costs) <= spec_score(profile, cs.last()),
        None => true,
    })
}

/// The best itinerary known for one node during a search: its scalar
/// score, its cost vector, the itinerary itself, and (in ghost state) the
/// cost vector after each of its hops.
struct SearchEntry {
    score: u64,
    costs: RouteCosts,
    path: Vec<usize>,
    eidx: Vec<usize>,
    trail: Ghost<Seq<RouteCosts>>,
}

/// Soundness of one search entry for node `v`: a valid route from a
/// requested origin to `v`, within the hop ceiling, never revisiting a
/// node, with the entry's score and costs those of the route's end.
spec fn entry_inv(
    g: Graph,
    db: TransferDb,
    tpi: PresetTpi,
    p: Profile,
    origin_idx: Seq<usize>,
    max_hops: u64,
    ent: SearchEntry,
    v: int,
) -> bool {
    &&& spec_route_ok(g, db, tpi, ent.path@, ent.eidx@, ent.trail@)
    &&& ent.path@.last() == v
    &&& (exists|oi: int| 0 <= oi < origin_idx.len() && #[trigger] origin_idx[oi] == ent.path@[0])
    &&& ent.costs == ent.trail@.last()
    &&& ent.score == spec_score(p, ent.costs)
    &&& ent.costs.hops <= max_hops
    &&& (forall|a: int, b: int| 0 <= a < b < ent.path@.len() ==> ent.path@[a] != ent.path@[b])
    &&& (forall|k: int| 0 <= k < ent.path@.len() ==> (#[trigger] ent.path@[k]) < g.ids@.len())
}

/// Every node an entry's route passes has an entry of its own, at most as
/// expensive as the route was when it passed there.  This is what keeps
/// stored routes from ever revisiting a node.
spec fn cross_inv(p: Profile, entries: Seq<Option<SearchEntry>>, ent: SearchEntry) -> bool {
    forall|k: int|
        0 <= k < ent.path@.len() ==> match #[trigger] entries[ent.path@[k] as int] {
            Some(e2) => e2.score <= spec_score(p, ent.trail@[k]),
            None => false,
        }
}

/// Every resolved origin index is in range and carries the name of one of
/// the requested origins.
spec fn origin_names_ok(origins: Seq<String>, ids: Seq<String>, origin_idx: Seq<usize>) -> bool {
    forall|j: int|
        0 <= j < origin_idx.len() ==> (#[trigger] origin_idx[j]) < ids.len() && exists|s: int|
            0 <= s < origins.len() && #[trigger] origins[s]@ == ids_view(ids)[origin_idx[j] as int]
}

/// Every frontier member names an in-range node that has an entry, and its
/// recorded score is never below the node's current (only ever improved)
/// entry score.
spec fn frontier_ok(n: int, entries: Seq<Option<SearchEntry>>, frontier: Seq<(u64, usize)>) -> bool {
    forall|j: int|
        0 <= j < frontier.len() ==> (#[trigger] frontier[j]).1 < n && entries[frontier[j].1 as int] is Some
            && entries[frontier[j].1 as int]->0.score <= frontier[j].0
}

/// Soundness of the whole per-node entry table.
spec fn entries_inv(
    g: Graph,
    db: TransferDb,
    tpi: PresetTpi,
    p: Profile,
    origin_idx: Seq<usize>,
    max_hops: u64,
    entries: Seq<Option<SearchEntry>>,
) -> bool {
    &&& entries.len() == g.ids@.len()
    &&& forall|v: int|
        0 <= v < entries.len() ==> match #[trigger] entries[v] {
            Some(ent) => entry_inv(g, db, tpi, p, origin_idx, max_hops, ent, v) && cross_inv(
                p,
                entries,
                ent,
            ),
            None => true,
        }
}

/// The termination potential of one node: its entry's score, or one more
/// than any score when it has none yet.  Every relaxation strictly lowers
/// some node's potential.
spec fn pot(e: Option<SearchEntry>) -> int {
    match e {
        None => u64::MAX as int + 1,
        Some(ent) => ent.score as int,
    }
}

/// The summed potential of the entry table.
spec fn pot_sum(s: Seq<Option<SearchEntry>>) -> int
    decreases s.len(),
{
    if s.len() == 0 {
        0
    } else {
        pot(s[0]) + pot_sum(s.drop_first())
    }
}

proof fn lemma_pot_sum_nonneg(s: Seq<Option<SearchEntry>>)
    ensures
        pot_sum(s) >= 0,
    decreases s.len(),
{
    if s.len() > 0 {
        lemma_pot_sum_nonneg(s.drop_first());
    }
}

proof fn lemma_pot_sum_update(s: Seq<Option<SearchEntry>>, i: int, x: Option<SearchEntry>)
    requires
        0 <= i < s.len(),
    ensures
        pot_sum(s.update(i, x)) == pot_sum(s) - pot(s[i]) + pot(x),
    decreases s.len(),
{
    if i == 0 {
        assert(s.update(0, x)[0] == x);
        assert(s.update(0, x).drop_first() =~= s.drop_first());
    } else {
        lemma_pot_sum_update(s.drop_first(), i - 1, x);
        assert(s.update(i, x)[0] == s[0]);
        assert(s.update(i, x).drop_first() =~= s.drop_first().update(i - 1, x));
    }
}

/// Whether some entry of `list` is the text `s`.
#[verifier::loop_isolation(false)]
fn str_list_contains(list: &Vec<String>, s: &str) -> (r: bool)
    ensures
        r == exists|i: int| 0 <= i < list@.len() && #[trigger] list@[i]@ == s@,
{
    let mut i: usize = 0;
    while i < list.len()
        invariant
            i <= list@.len(),
            forall|k: int| 0 <= k < i ==> #[trigger] list@[k]@ != s@,
        decreases list@.len() - i,
    {
        if str_eq(list[i].as_str(), s) {
            return true;
        }
        i = i + 1;
    }
    false
}

/// Copies a vector of indices.
fn clone_usize_vec(v: &Vec<usize>) -> (r: Vec<usize>)
    ensures
        r@ == v@,
{
    let mut r: Vec<usize> = Vec::new();
    let mut i: usize = 0;
    while i < v.len()
        invariant
            i <= v@.len(),
            r@ == v@.take(i as int),
        decreases v@.len() - i,
    {
        r.push(v[i]);
        i = i + 1;
        proof {
            assert(r@ =~= v@.take(i as int));
        }
    }
    proof {
        assert(v@.take(v@.len() as int) =~= v@);
    }
    r
}

/// Reads one node's entry out of the table, copying its route.
fn read_entry(entries: &Vec<Option<SearchEntry>>, v: usize) -> (r: Option<
    (u64, RouteCosts, Vec<usize>, Vec<usize>, Ghost<Seq<RouteCosts>>),
>)
    requires
        v < entries@.len(),
    ensures
        match entries@[v as int] {
            Some(ent) => r matches Some(t) && t.0 == ent.score && t.1 == ent.costs && t.2@
                == ent.path@ && t.3@ == ent.eidx@ && t.4@ == ent.trail@,
            None => r is None,
        },
{
    match &entries[v] {
        Some(ent) => {
            let ghost tr: Seq<RouteCosts> = ent.trail@;
            Some(
                (
                    ent.score,
                    ent.costs,
                    clone_usize_vec(&ent.path),
                    clone_usize_vec(&ent.eidx),
                    Ghost(tr),
                ),
            )
        },
        None => None,
    }
}

/// Every resolved origin's node has an entry costing at most the initial
/// score.
spec fn inv_origins_seeded(
    origin_idx: Seq<usize>,
    init_score: u64,
    entries: Seq<Option<SearchEntry>>,
) -> bool {
    forall|j: int|
        0 <= j < origin_idx.len() ==> pot(#[trigger] entries[origin_idx[j] as int])
            <= init_score as int
}

/// Every entry belongs to an expanded node, was cut off by the hop ceiling,
/// or still has its current-score element on the frontier.
spec fn inv_active(
    entries: Seq<Option<SearchEntry>>,
    frontier: Seq<(u64, usize)>,
    closed: Set<int>,
    max_hops: u64,
) -> bool {
    forall|v: int|
        0 <= v < entries.len() && (#[trigger] entries[v]) is Some ==> closed.contains(v)
            || entries[v]->0.costs.hops >= max_hops || exists|j: int|
            0 <= j < frontier.len() && #[trigger] frontier[j] == (
                entries[v]->0.score,
                v as usize,
            )
}

/// Every expanded node holds an entry and has relaxed each of its usable
/// edges against the table.
spec fn inv_closed_edges(
    g: Graph,
    db: TransferDb,
    tpi: PresetTpi,
    p: Profile,
    entries: Seq<Option<SearchEntry>>,
    closed: Set<int>,
) -> bool {
    &&& (forall|v: int|
        #[trigger] closed.contains(v) ==> 0 <= v < entries.len() && entries[v] is Some)
    &&& (forall|v: int, e: int|
        #![trigger closed.contains(v), g.adj@[v]@[e]]
        closed.contains(v) && 0 <= e < g.adj@[v]@.len() && spec_edge_usable(g, v, e) ==> pot(
            entries[g.adj@[v]@[e].to as int],
        ) <= entries[v]->0.score + spec_edge_delta(g, db, tpi, p, v, e))
}

/// Expanded nodes cost at most as much as anything still on the frontier.
spec fn inv_closed_min(
    entries: Seq<Option<SearchEntry>>,
    frontier: Seq<(u64, usize)>,
    closed: Set<int>,
) -> bool {
    forall|v: int, j: int|
        #![trigger closed.contains(v), frontier[j]]
        closed.contains(v) && 0 <= j < frontier.len() ==> entries[v]->0.score <= frontier[j].0
}

/// Destination nodes are returned when popped, never expanded.
spec fn inv_closed_not_dest(g: Graph, dests: Seq<String>, closed: Set<int>) -> bool {
    forall|v: int| #[trigger] closed.contains(v) ==> !spec_is_dest_node(g, dests, v)
}

/// Stored walking distances stay linear in the hop count.
spec fn inv_distance(entries: Seq<Option<SearchEntry>>) -> bool {
    forall|v: int|
        0 <= v < entries.len() && (#[trigger] entries[v]) is Some
            ==> entries[v]->0.costs.transfer_distance <= entries[v]->0.costs.hops * 0x8000_0000
}

/// Replacing one node's entry with a strictly cheaper one keeps the whole
/// table sound.
proof fn lemma_entries_update(
    g: Graph,
    db: TransferDb,
    tpi: PresetTpi,
    p: Profile,
    origin_idx: Seq<usize>,
    max_hops: u64,
    entries: Seq<Option<SearchEntry>>,
    v: int,
    new_ent: SearchEntry,
)
    requires
        entries_inv(g, db, tpi, p, origin_idx, max_hops, entries),
        0 <= v < entries.len(),
        entry_inv(g, db, tpi, p, origin_idx, max_hops, new_ent, v),
        pot(Some(new_ent)) < pot(entries[v]),
        cross_inv(p, entries.update(v, Some(new_ent)), new_ent),
    ensures
        entries_inv(g, db, tpi, p, origin_idx, max_hops, entries.update(v, Some(new_ent))),
{
    let updated = entries.update(v, Some(new_ent));
    assert forall|w: int| 0 <= w < updated.len() implies match #[trigger] updated[w] {
        Some(ent) => entry_inv(g, db, tpi, p, origin_idx, max_hops, ent, w) && cross_inv(
            p,
            updated,
            ent,
        ),
        None => true,
    } by {
        if w == v {
            assert(updated[w] == Some(new_ent));
        } else {
            assert(updated[w] == entries[w]);
            match updated[w] {
                Some(ent) => {
                    assert(entry_inv(g, db, tpi, p, origin_idx, max_hops, ent, w));
                    assert(cross_inv(p, entries, ent));
                    assert forall|k: int| 0 <= k < ent.path@.len() implies match updated[ent.path@[k] as int] {
                        Some(e2) => e2.score <= spec_score(p, #[trigger] ent.trail@[k]),
                        None => false,
                    } by {
                        let u = ent.path@[k] as int;
                        assert(ent.path@[k] < g.ids@.len());
                        assert(0 <= u < entries.len());
                        assert(match entries[u] {
                            Some(e2) => e2.score <= spec_score(p, ent.trail@[k]),
                            None => false,
                        });
                        if u == v {
                            assert(entries[u] is Some);
                            assert(new_ent.score < pot(entries[v]));
                            assert(updated[u] == Some(new_ent));
                        } else {
                            assert(updated[u] == entries[u]);
                        }
                    }
                    assert(cross_inv(p, updated, ent));
                },
                None => {},
            }
        }
    }
}

/// What holds of the route stored for a popped node while its edges are
/// relaxed: a sound route from an origin to `v`, strictly under the hop
/// ceiling, and, for each node it passes, a table entry at most as
/// expensive as the route was there.
spec fn popped_inv(
    g: Graph,
    db: TransferDb,
    tpi: PresetTpi,
    p: Profile,
    origin_idx: Seq<usize>,
    max_hops: u64,
    entries: Seq<Option<SearchEntry>>,
    v: usize,
    cur_score: u64,
    cur_costs: RouteCosts,
    cur_path: Seq<usize>,
    cur_eidx: Seq<usize>,
    cur_tr: Seq<RouteCosts>,
) -> bool {
    &&& spec_route_ok(g, db, tpi, cur_path, cur_eidx, cur_tr)
    &&& cur_path.last() == v
    &&& (v as int) < g.ids@.len()
    &&& (exists|oi: int| 0 <= oi < origin_idx.len() && #[trigger] origin_idx[oi] == cur_path[0])
    &&& cur_costs == cur_tr.last()
    &&& cur_score == spec_score(p, cur_costs)
    &&& cur_costs.hops < max_hops
    &&& (forall|a: int, b: int| 0 <= a < b < cur_path.len() ==> cur_path[a] != cur_path[b])
    &&& (forall|k: int| 0 <= k < cur_path.len() ==> (#[trigger] cur_path[k]) < g.ids@.len())
    &&& (forall|k: int|
        0 <= k < cur_path.len() ==> (#[trigger] entries[cur_path[k] as int]) is Some
            && entries[cur_path[k] as int]->0.score <= spec_score(p, cur_tr[k]))
}

/// Relaxes every outgoing edge of a popped node against the entry table,
/// storing a strictly cheaper route wherever one is found and putting the
/// target on the frontier.  The weighted potential of table and frontier
/// never grows, and under the exactness conditions every usable edge of the
/// node ends up relaxed.
#[verifier::loop_isolation(false)]
#[verifier::rlimit(100)]
fn expand_node(
    graph: &Graph,
    db: &TransferDb,
    tpi: &PresetTpi,
    profile: Profile,
    origin_idx: Ghost<Seq<usize>>,
    max_hops: u64,
    entries: &mut Vec<Option<SearchEntry>>,
    frontier: &mut Vec<(u64, usize)>,
    v: usize,
    cur_score: u64,
    cur_costs: RouteCosts,
    cur_path: &Vec<usize>,
    cur_eidx: &Vec<usize>,
    cur_tr: Ghost<Seq<RouteCosts>>,
    closed: Ghost<Set<int>>,
)
    requires
        graph.wf(),
        old(entries)@.len() == graph.ids@.len(),
        entries_inv(*graph, *db, *tpi, profile, origin_idx@, max_hops, old(entries)@),
        frontier_ok(graph.ids@.len() as int, old(entries)@, old(frontier)@),
        popped_inv(
            *graph,
            *db,
            *tpi,
            profile,
            origin_idx@,
            max_hops,
            old(entries)@,
            v,
            cur_score,
            cur_costs,
            cur_path@,
            cur_eidx@,
            cur_tr@,
        ),
        old(entries)@[v as int] matches Some(e0) && e0.score == cur_score && e0.costs == cur_costs,
        closed@.contains(v as int),
        spec_search_exact(*graph, *db, *tpi, max_hops, profile) ==> forall|w: int|
            #[trigger] closed@.contains(w) ==> 0 <= w < old(entries)@.len() && old(entries)@[w] is Some
                && old(entries)@[w]->0.score <= cur_score,
        spec_search_exact(*graph, *db, *tpi, max_hops, profile) ==> {
            &&& inv_active(old(entries)@, old(frontier)@, closed@, max_hops)
            &&& inv_closed_edges(
                *graph,
                *db,
                *tpi,
                profile,
                old(entries)@,
                closed@.remove(v as int),
            )
            &&& inv_closed_min(old(entries)@, old(frontier)@, closed@)
            &&& inv_distance(old(entries)@)
        },
    ensures
        final(entries)@.len() == graph.ids@.len(),
        entries_inv(*graph, *db, *tpi, profile, origin_idx@, max_hops, final(entries)@),
        frontier_ok(graph.ids@.len() as int, final(entries)@, final(frontier)@),
        2 * pot_sum(final(entries)@) + final(frontier)@.len() <= 2 * pot_sum(old(entries)@)
            + old(frontier)@.len(),
        forall|w: int|
            0 <= w < final(entries)@.len() ==> pot(#[trigger] final(entries)@[w]) <= pot(
                old(entries)@[w],
            ),
        spec_search_exact(*graph, *db, *tpi, max_hops, profile) ==> forall|w: int|
            #[trigger] closed@.contains(w) ==> final(entries)@[w] == old(entries)@[w],
        spec_search_exact(*graph, *db, *tpi, max_hops, profile) ==> {
            &&& inv_active(final(entries)@, final(frontier)@, closed@, max_hops)
            &&& inv_closed_edges(*graph, *db, *tpi, profile, final(entries)@, closed@)
            &&& inv_closed_min(final(entries)@, final(frontier)@, closed@)
            &&& inv_distance(final(entries)@)
        },
{
    let n = graph.ids.len();
    let row_len = graph.adj[v].len();
    let ghost exact = spec_search_exact(*graph, *db, *tpi, max_hops, profile);
    proof {
        if exact {
            lemma_distinct_bounded(cur_path@, n as int);
        }
    }
    let mut e: usize = 0;
    while e < row_len
        invariant
            n == graph.ids@.len(),
            v < n,
            row_len == graph.adj@[v as int]@.len(),
            e <= row_len,
            entries@.len() == n,
            entries_inv(*graph, *db, *tpi, profile, origin_idx@, max_hops, entries@),
            frontier_ok(n as int, entries@, frontier@),
            popped_inv(
                *graph,
                *db,
                *tpi,
                profile,
                origin_idx@,
                max_hops,
                entries@,
                v,
                cur_score,
                cur_costs,
                cur_path@,
                cur_eidx@,
                cur_tr@,
            ),
            2 * pot_sum(entries@) + frontier@.len() <= 2 * pot_sum(old(entries)@) + old(
                frontier,
            )@.len(),
            forall|w: int|
                0 <= w < entries@.len() ==> pot(#[trigger] entries@[w]) <= pot(old(entries)@[w]),
            exact ==> forall|w: int|
                #[trigger] closed@.contains(w) ==> entries@[w] == old(entries)@[w],
            frontier@.len() >= old(frontier)@.len(),
            forall|j: int| 0 <= j < old(frontier)@.len() ==> frontier@[j] == old(frontier)@[j],
            forall|j: int|
                old(frontier)@.len() <= j < frontier@.len() ==> (#[trigger] frontier@[j]).0
                    >= cur_score,
            exact == spec_search_exact(*graph, *db, *tpi, max_hops, profile),
            exact ==> {
                &&& inv_active(entries@, frontier@, closed@, max_hops)
                &&& inv_closed_edges(
                    *graph,
                    *db,
                    *tpi,
                    profile,
                    entries@,
                    closed@.remove(v as int),
                )
                &&& inv_closed_min(entries@, frontier@, closed@)
                &&& inv_distance(entries@)
                &&& cur_path@.len() <= n
                &&& (forall|e2: int|
                    #![trigger graph.adj@[v as int]@[e2]]
                    0 <= e2 < e && spec_edge_usable(*graph, v as int, e2) ==> pot(
                        entries@[graph.adj@[v as int]@[e2].to as int],
                    ) <= cur_score + spec_edge_delta(*graph, *db, *tpi, profile, v as int, e2))
            },
        decreases row_len - e,
    {
        let edge = &graph.adj[v][e];
        let t = edge.to;
        let next = apply_edge(
            db,
            tpi,
            graph.ids[v].as_str(),
            graph.ids[t].as_str(),
            edge,
            &cur_costs,
        );
        proof {
            if exact {
                assert(ids_view(graph.ids@)[v as int] == graph.ids@[v as int]@);
                assert(ids_view(graph.ids@)[t as int] == graph.ids@[t as int]@);
            }
        }
        if let Some(c2) = next {
            if let Some(ns) = score(profile, &c2) {
                let better = match &entries[t] {
                    None => true,
                    Some(e2) => ns < e2.score,
                };
                if better {
                    proof {
                        lemma_route_monotone(
                            *graph,
                            *db,
                            *tpi,
                            profile,
                            cur_path@,
                            cur_eidx@,
                            cur_tr@,
                        );
                        lemma_step_monotone(
                            *db,
                            *tpi,
                            ids_view(graph.ids@)[v as int],
                            ids_view(graph.ids@)[t as int],
                            *edge,
                            cur_costs,
                            c2,
                        );
                        lemma_score_monotone(profile, cur_costs, c2);
                        // The target is not on the stored route: its entry
                        // is already at most as expensive as the route was
                        // when it passed there, and scores never fall along
                        // a route.
                        assert forall|k: int|
                            0 <= k < cur_path@.len() implies (#[trigger] cur_path@[k]) != t by {
                            if cur_path@[k] == t {
                                assert(entries@[cur_path@[k] as int] is Some);
                                assert(entries@[cur_path@[k] as int]->0.score <= spec_score(
                                    profile,
                                    cur_tr@[k],
                                ));
                                assert(spec_score(profile, cur_tr@[k]) <= spec_score(
                                    profile,
                                    cur_tr@.last(),
                                ));
                                assert(ns == spec_score(profile, c2));
                            }
                        }
                        // The target was never expanded: expanded entries
                        // cost at most the popped score.
                        if exact && closed@.contains(t as int) {
                            assert(entries@[t as int] == old(entries)@[t as int]);
                            assert(old(entries)@[t as int]->0.score <= cur_score);
                            assert(ns >= cur_score);
                            assert(false);
                        }
                    }
                    let mut np = clone_usize_vec(cur_path);
                    np.push(t);
                    let mut ne = clone_usize_vec(cur_eidx);
                    ne.push(e);
                    let ghost ntr0: Seq<RouteCosts> = cur_tr@.push(c2);
                    let new_ent = SearchEntry {
                        score: ns,
                        costs: c2,
                        path: np,
                        eidx: ne,
                        trail: Ghost(ntr0),
                    };
                    proof {
                        let npv = new_ent.path@;
                        let nev = new_ent.eidx@;
                        let ntr = new_ent.trail@;
                        assert(npv == cur_path@.push(t));
                        assert(nev == cur_eidx@.push(e));
                        assert forall|k: int|
                            0 <= k < nev.len() implies spec_route_edge_ok(
                            *graph,
                            *db,
                            *tpi,
                            npv,
                            nev,
                            ntr,
                            k,
                        ) by {
                            if k < nev.len() - 1 {
                                assert(spec_route_edge_ok(
                                    *graph,
                                    *db,
                                    *tpi,
                                    cur_path@,
                                    cur_eidx@,
                                    cur_tr@,
                                    k,
                                ));
                                assert(npv[k] == cur_path@[k]);
                                assert(npv[k + 1] == cur_path@[k + 1]);
                                assert(nev[k] == cur_eidx@[k]);
                                assert(ntr[k] == cur_tr@[k]);
                                assert(ntr[k + 1] == cur_tr@[k + 1]);
                            } else {
                                assert(npv[k] == v);
                                assert(nev[k] == e);
                                assert(graph.adj@[v as int]@[e as int] == *edge);
                                assert(ntr[k] == cur_tr@.last());
                                assert(ntr[k + 1] == c2);
                            }
                        }
                        assert(spec_route_ok(*graph, *db, *tpi, npv, nev, ntr));
                        assert(npv.last() == t);
                        assert(npv[0] == cur_path@[0]);
                        assert(graph.adj@[v as int]@[e as int].to < graph.ids@.len());
                        assert(forall|k: int|
                            0 <= k < npv.len() ==> (#[trigger] npv[k]) < graph.ids@.len());
                        assert(entry_inv(
                            *graph,
                            *db,
                            *tpi,
                            profile,
                            origin_idx@,
                            max_hops,
                            new_ent,
                            t as int,
                        ));
                        let updated = entries@.update(t as int, Some(new_ent));
                        assert forall|k: int|
                            0 <= k < npv.len() implies match updated[npv[k] as int] {
                            Some(e2) => e2.score <= spec_score(profile, #[trigger] ntr[k]),
                            None => false,
                        } by {
                            if k < npv.len() - 1 {
                                assert(npv[k] == cur_path@[k] && npv[k] != t);
                                assert(updated[npv[k] as int] == entries@[npv[k] as int]);
                                assert(entries@[cur_path@[k] as int] is Some);
                                assert(entries@[cur_path@[k] as int]->0.score <= spec_score(
                                    profile,
                                    cur_tr@[k],
                                ));
                            } else {
                                assert(npv[k] == t);
                                assert(updated[t as int] == Some(new_ent));
                            }
                        }
                        assert(cross_inv(profile, updated, new_ent));
                        assert(pot(Some(new_ent)) < pot(entries@[t as int]));
                        lemma_entries_update(
                            *graph,
                            *db,
                            *tpi,
                            profile,
                            origin_idx@,
                            max_hops,
                            entries@,
                            t as int,
                            new_ent,
                        );
                        lemma_pot_sum_update(entries@, t as int, Some(new_ent));
                    }
                    let ghost pre_entries = entries@;
                    let ghost pre_frontier = frontier@;
                    entries[t] = Some(new_ent);
                    frontier.push((ns, t));
                    proof {
                        assert(entries@ == pre_entries.update(t as int, Some(new_ent)));
                        assert(2 * pot_sum(entries@) + frontier@.len() <= 2 * pot_sum(
                            pre_entries,
                        ) + pre_frontier.len());
                        assert forall|j: int|
                            0 <= j < frontier@.len() implies (#[trigger] frontier@[j]).1 < n
                            && entries@[frontier@[j].1 as int] is Some
                            && entries@[frontier@[j].1 as int]->0.score <= frontier@[j].0 by {
                            if j < pre_frontier.len() {
                                assert(frontier@[j] == pre_frontier[j]);
                                assert(pre_entries[frontier@[j].1 as int] is Some);
                                if frontier@[j].1 != t {
                                    assert(entries@[frontier@[j].1 as int] == pre_entries[frontier@[j].1 as int]);
                                } else {
                                    assert(pre_entries[t as int]->0.score <= frontier@[j].0);
                                    assert(entries@[t as int]->0.score == ns);
                                }
                            } else {
                                assert(frontier@[j] == (ns, t));
                            }
                        }
                        assert(frontier_ok(n as int, entries@, frontier@));
                        // The popped route's per-node bounds survive the
                        // update: the replaced entry only got cheaper.
                        assert forall|k: int|
                            0 <= k < cur_path@.len() implies (#[trigger] entries@[cur_path@[k] as int]) is Some
                            && entries@[cur_path@[k] as int]->0.score <= spec_score(
                            profile,
                            cur_tr@[k],
                        ) by {
                            if cur_path@[k] == t {
                                assert(false);
                            } else {
                                assert(entries@[cur_path@[k] as int] == pre_entries[cur_path@[k] as int]);
                                assert(pre_entries[cur_path@[k] as int] is Some);
                                assert(pre_entries[cur_path@[k] as int]->0.score <= spec_score(
                                    profile,
                                    cur_tr@[k],
                                ));
                            }
                        }
                        if exact {
                            lemma_step_delta(
                                *graph,
                                *db,
                                *tpi,
                                profile,
                                v as int,
                                e as int,
                                cur_costs,
                                c2,
                            );
                            assert(ns == cur_score + spec_edge_delta(
                                *graph,
                                *db,
                                *tpi,
                                profile,
                                v as int,
                                e as int,
                            ));
                            assert(pot(entries@[t as int]) <= cur_score + spec_edge_delta(
                                *graph,
                                *db,
                                *tpi,
                                profile,
                                v as int,
                                e as int,
                            ));
                            // Activity: the updated node's element was just
                            // pushed; everyone else keeps theirs.
                            assert forall|w: int|
                                0 <= w < entries@.len() && (#[trigger] entries@[w]) is Some
                                implies closed@.contains(w) || entries@[w]->0.costs.hops
                                >= max_hops || exists|j: int|
                                0 <= j < frontier@.len() && #[trigger] frontier@[j] == (
                                    entries@[w]->0.score,
                                    w as usize,
                                ) by {
                                if w == t as int {
                                    assert(frontier@[frontier@.len() - 1] == (ns, t));
                                } else {
                                    assert(entries@[w] == pre_entries[w]);
                                    if !closed@.contains(w) && entries@[w]->0.costs.hops
                                        < max_hops {
                                        let j0 = choose|j: int|
                                            0 <= j < pre_frontier.len()
                                                && #[trigger] pre_frontier[j] == (
                                                pre_entries[w]->0.score,
                                                w as usize,
                                            );
                                        assert(frontier@[j0] == pre_frontier[j0]);
                                    }
                                }
                            }
                            assert(inv_active(entries@, frontier@, closed@, max_hops));
                            // Closed nodes are untouched and still cheaper
                            // than everything on the frontier.
                            assert forall|w: int, j: int|
                                #![trigger closed@.contains(w), frontier@[j]]
                                closed@.contains(w) && 0 <= j < frontier@.len()
                                implies entries@[w]->0.score <= frontier@[j].0 by {
                                assert(w != t as int);
                                assert(entries@[w] == pre_entries[w]);
                                if j < pre_frontier.len() {
                                    assert(frontier@[j] == pre_frontier[j]);
                                } else {
                                    assert(frontier@[j] == (ns, t));
                                    assert(pre_entries[w]->0.score <= cur_score);
                                    assert(ns >= cur_score);
                                }
                            }
                            assert(inv_closed_min(entries@, frontier@, closed@));
                            assert forall|w: int, e2: int|
                                #![trigger closed@.remove(v as int).contains(w), graph.adj@[w]@[e2]]
                                closed@.remove(v as int).contains(w) && 0 <= e2
                                    < graph.adj@[w]@.len() && spec_edge_usable(*graph, w, e2)
                                implies pot(entries@[graph.adj@[w]@[e2].to as int])
                                <= entries@[w]->0.score + spec_edge_delta(
                                *graph,
                                *db,
                                *tpi,
                                profile,
                                w,
                                e2,
                            ) by {
                                assert(entries@[w] == pre_entries[w]);
                                assert(pot(entries@[graph.adj@[w]@[e2].to as int]) <= pot(
                                    pre_entries[graph.adj@[w]@[e2].to as int],
                                ));
                            }
                            assert(inv_closed_edges(
                                *graph,
                                *db,
                                *tpi,
                                profile,
                                entries@,
                                closed@.remove(v as int),
                            ));
                            // The new entry's walking distance stays linear
                            // in its hops.
                            assert(spec_route_edge_ok(
                                *graph,
                                *db,
                                *tpi,
                                new_ent.path@,
                                new_ent.eidx@,
                                new_ent.trail@,
                                new_ent.eidx@.len() - 1,
                            ));
                            assert forall|w: int|
                                0 <= w < entries@.len() && (#[trigger] entries@[w]) is Some
                                implies entries@[w]->0.costs.transfer_distance
                                <= entries@[w]->0.costs.hops * 0x8000_0000 by {
                                if w == t as int {
                                    if edge.is_transfer {
                                        assert(c2.transfer_distance == cur_costs.transfer_distance
                                            + spec_transfer_distance(
                                            *db,
                                            ids_view(graph.ids@)[v as int],
                                            spec_station_to_line_id(
                                                ids_view(graph.ids@)[t as int],
                                            )->0,
                                        ));
                                    }
                                } else {
                                    assert(entries@[w] == pre_entries[w]);
                                }
                            }
                            assert(inv_distance(entries@));
                        }
                    }
                } else {
                    proof {
                        if exact && spec_edge_usable(*graph, v as int, e as int) {
                            lemma_step_delta(
                                *graph,
                                *db,
                                *tpi,
                                profile,
                                v as int,
                                e as int,
                                cur_costs,
                                c2,
                            );
                            assert(entries@[t as int] is Some);
                            assert(entries@[t as int]->0.score <= ns);
                            assert(pot(entries@[t as int]) <= cur_score + spec_edge_delta(
                                *graph,
                                *db,
                                *tpi,
                                profile,
                                v as int,
                                e as int,
                            ));
                        }
                    }
                }
            } else {
                proof {
                    if exact && spec_edge_usable(*graph, v as int, e as int) {
                        lemma_step_delta(
                            *graph,
                            *db,
                            *tpi,
                            profile,
                            v as int,
                            e as int,
                            cur_costs,
                            c2,
                        );
                        assert(spec_score(profile, c2) > u64::MAX);
                        assert(pot(entries@[t as int]) <= u64::MAX + 1);
                        assert(pot(entries@[t as int]) <= cur_score + spec_edge_delta(
                            *graph,
                            *db,
                            *tpi,
                            profile,
                            v as int,
                            e as int,
                        ));
                    }
                }
            }
        } else {
            proof {
                if exact && spec_edge_usable(*graph, v as int, e as int) {
                    let from = ids_view(graph.ids@)[v as int];
                    let to = ids_view(graph.ids@)[t as int];
                    assert(!spec_step_fits(*db, *tpi, from, to, graph.adj@[v as int]@[e as int], cur_costs));
                    assert(pot(entries@[t as int]) <= u64::MAX + 1);
                    if edge.is_transfer {
                        let line = spec_station_to_line_id(to)->0;
                        // The distance accumulator cannot be the overflow:
                        // stored routes keep it linear in the hop count.
                        assert(cur_costs.transfer_distance <= cur_costs.hops * 0x8000_0000);
                        assert(cur_costs.hops == cur_path@.len() - 1);
                        assert(cur_path@.len() <= n);
                        assert(spec_transfer_distance(*db, from, line) <= 0x8000_0000);
                        assert(cur_costs.transfer_distance + spec_transfer_distance(
                            *db,
                            from,
                            line,
                        ) <= 0x1_0000_0000 * 0x8000_0000) by (nonlinear_arith)
                            requires
                                cur_costs.transfer_distance <= cur_costs.hops * 0x8000_0000,
                                cur_costs.hops <= 0x1_0000_0000 - 1,
                                spec_transfer_distance(*db, from, line) <= 0x8000_0000,
                        ;
                        assert(cur_costs.time + spec_transfer_time_units(
                            *db,
                            *tpi,
                            from,
                            line,
                            cur_costs.hops,
                        ) > u64::MAX);
                        assert(crate::transfer::spec_hub_buffer_minutes(from) == 0);
                        assert(spec_transfer_time_units(*db, *tpi, from, line, cur_costs.hops)
                            == spec_transfer_time_units(*db, *tpi, from, line, 0));
                        assert(cur_score >= 20 * cur_costs.time);
                        assert(spec_edge_delta(*graph, *db, *tpi, profile, v as int, e as int)
                            >= 20 * spec_transfer_time_units(*db, *tpi, from, line, 0));
                        assert(cur_score + spec_edge_delta(
                            *graph,
                            *db,
                            *tpi,
                            profile,
                            v as int,
                            e as int,
                        ) > u64::MAX + 1);
                    } else {
                        assert(cur_costs.time + graph.adj@[v as int]@[e as int].cost > u64::MAX);
                        assert(cur_score >= 20 * cur_costs.time);
                    }
                    assert(pot(entries@[t as int]) <= cur_score + spec_edge_delta(
                        *graph,
                        *db,
                        *tpi,
                        profile,
                        v as int,
                        e as int,
                    ));
                }
            }
        }
        e = e + 1;
    }
    proof {
        if exact {
            assert forall|w: int, e2: int|
                #![trigger closed@.contains(w), graph.adj@[w]@[e2]]
                closed@.contains(w) && 0 <= e2 < graph.adj@[w]@.len() && spec_edge_usable(
                    *graph,
                    w,
                    e2,
                ) implies pot(entries@[graph.adj@[w]@[e2].to as int]) <= entries@[w]->0.score
                + spec_edge_delta(*graph, *db, *tpi, profile, w, e2) by {
                if w == v as int {
                    assert(entries@[w] == old(entries)@[w]);
                    assert(entries@[w]->0.score == cur_score);
                } else {
                    assert(closed@.remove(v as int).contains(w));
                }
            }
            assert(inv_closed_edges(*graph, *db, *tpi, profile, entries@, closed@));
        }
    }
}

/// Builds the returned itinerary for a popped destination node from the
/// route its entry stores.
#[verifier::loop_isolation(false)]
fn emit_result(
    graph: &Graph,
    db: &TransferDb,
    tpi: &PresetTpi,
    profile: Profile,
    origins: &Vec<String>,
    dests: &Vec<String>,
    origin_idx: Ghost<Seq<usize>>,
    max_hops: u64,
    v: usize,
    cur_costs: RouteCosts,
    cur_path: &Vec<usize>,
    cur_eidx: &Vec<usize>,
    cur_tr: Ghost<Seq<RouteCosts>>,
) -> (res: RouteResult)
    requires
        graph.wf(),
        spec_route_ok(*graph, *db, *tpi, cur_path@, cur_eidx@, cur_tr@),
        cur_path@.last() == v,
        (v as int) < graph.ids@.len(),
        cur_costs == cur_tr@.last(),
        cur_costs.hops <= max_hops,
        forall|a: int, b: int| 0 <= a < b < cur_path@.len() ==> cur_path@[a] != cur_path@[b],
        forall|k: int| 0 <= k < cur_path@.len() ==> (#[trigger] cur_path@[k]) < graph.ids@.len(),
        exists|oi: int|
            0 <= oi < origin_idx@.len() && #[trigger] origin_idx@[oi] == cur_path@[0],
        origin_names_ok(origins@, graph.ids@, origin_idx@),
        exists|di: int|
            0 <= di < dests@.len() && #[trigger] dests@[di]@ == ids_view(graph.ids@)[v as int],
    ensures
        spec_route_result_ok(
            *graph,
            *db,
            *tpi,
            origins@,
            dests@,
            max_hops,
            profile,
            res,
        ),
        res.costs == cur_costs,
{
    let mut out_path: Vec<String> = Vec::new();
    let mut k: usize = 0;
    while k < cur_path.len()
        invariant
            k <= cur_path@.len(),
            out_path@.len() == k,
            forall|x: int|
                0 <= x < k ==> (#[trigger] out_path@[x])@ == ids_view(
                    graph.ids@,
                )[cur_path@[x] as int],
        decreases cur_path@.len() - k,
    {
        out_path.push(graph.ids[cur_path[k]].clone());
        k = k + 1;
    }
    let mut rails: Vec<String> = Vec::new();
    let mut k: usize = 0;
    while k < cur_eidx.len()
        invariant
            k <= cur_eidx@.len(),
            cur_eidx@.len() == cur_path@.len() - 1,
            rails@.len() == k,
            forall|x: int|
                0 <= x < k ==> (#[trigger] rails@[x])@ == graph.adj@[cur_path@[x] as int]@[cur_eidx@[x] as int].railway_id@,
        decreases cur_eidx@.len() - k,
    {
        proof {
            assert(spec_route_edge_ok(
                *graph,
                *db,
                *tpi,
                cur_path@,
                cur_eidx@,
                cur_tr@,
                k as int,
            ));
        }
        rails.push(graph.adj[cur_path[k]][cur_eidx[k]].railway_id.clone());
        k = k + 1;
    }
    let res = RouteResult {
        key: profile,
        path: out_path,
        path_localized: None,
        edge_railways: rails,
        costs: cur_costs,
    };
    proof {
        let pd = res.path.deep_view();
        let rd = res.edge_railways.deep_view();
        assert(pd =~~= Seq::new(
            cur_path@.len(),
            |x: int| ids_view(graph.ids@)[cur_path@[x] as int],
        ));
        assert(rd =~~= Seq::new(
            cur_eidx@.len(),
            |x: int| graph.adj@[cur_path@[x] as int]@[cur_eidx@[x] as int].railway_id@,
        ));
        assert(cur_tr@.last().hops == cur_tr@.len() - 1);
        lemma_route_transfer_count(*graph, *db, *tpi, cur_path@, cur_eidx@, cur_tr@, rd);
        assert forall|a: int, b: int| 0 <= a < b < res.path@.len() implies pd[a] != pd[b] by {
            assert(cur_path@[a] != cur_path@[b]);
            assert(ids_view(graph.ids@)[cur_path@[a] as int] != ids_view(
                graph.ids@,
            )[cur_path@[b] as int]);
        }
        assert(pd.last() == ids_view(graph.ids@)[v as int]);
        assert(exists|s2: int| 0 <= s2 < origins@.len() && #[trigger] origins@[s2]@ == pd[0]) by {
            let oi = choose|oi: int|
                0 <= oi < origin_idx@.len() && #[trigger] origin_idx@[oi] == cur_path@[0];
            assert(origin_idx@[oi] < graph.ids@.len() && exists|s: int|
                0 <= s < origins@.len() && #[trigger] origins@[s]@ == ids_view(
                    graph.ids@,
                )[origin_idx@[oi] as int]);
            let s2 = choose|s2: int|
                0 <= s2 < origins@.len() && #[trigger] origins@[s2]@ == ids_view(
                    graph.ids@,
                )[(origin_idx@[oi]) as int];
            assert(origins@[s2]@ == pd[0]);
        }
    }
    res
}

/// Under the exactness conditions, every stored route stays strictly under
/// the hop ceiling: it never revisits a station, so its hops are below the
/// node count.
proof fn lemma_entry_within_ceiling(
    g: Graph,
    db: TransferDb,
    tpi: PresetTpi,
    p: Profile,
    origin_idx: Seq<usize>,
    max_hops: u64,
    entries: Seq<Option<SearchEntry>>,
    vk: int,
)
    requires
        g.ids@.len() <= max_hops,
        entries.len() == g.ids@.len(),
        entries_inv(g, db, tpi, p, origin_idx, max_hops, entries),
        0 <= vk < entries.len(),
        entries[vk] is Some,
    ensures
        entries[vk]->0.costs.hops < max_hops,
{
    let ent = entries[vk]->0;
    assert(entry_inv(g, db, tpi, p, origin_idx, max_hops, ent, vk));
    assert(ent.trail@[ent.trail@.len() - 1].hops == ent.trail@.len() - 1);
    assert(ent.costs.hops == ent.path@.len() - 1);
    lemma_distinct_bounded(ent.path@, g.ids@.len() as int);
}

/// One inductive step of walking a chain through expanded nodes: if the
/// table already matches the chain's score at position `k` and that node
/// was expanded, the table matches at `k + 1` too.
proof fn lemma_chain_step(
    g: Graph,
    db: TransferDb,
    tpi: PresetTpi,
    p: Profile,
    entries: Seq<Option<SearchEntry>>,
    closed: Set<int>,
    ipath: Seq<usize>,
    eidx: Seq<usize>,
    cs: Seq<RouteCosts>,
    k: int,
)
    requires
        spec_additive_profile(p),
        spec_stage_free(g),
        g.adj@.len() == g.ids@.len(),
        inv_closed_edges(g, db, tpi, p, entries, closed),
        spec_route_ok(g, db, tpi, ipath, eidx, cs),
        0 <= k < eidx.len(),
        closed.contains(ipath[k] as int),
        entries[ipath[k] as int] is Some,
        entries[ipath[k] as int]->0.score <= spec_score(p, cs[k]),
    ensures
        pot(entries[ipath[k + 1] as int]) <= spec_score(p, cs[k + 1]),
{
    assert(spec_route_edge_ok(g, db, tpi, ipath, eidx, cs, k));
    let vk = ipath[k] as int;
    let ek = eidx[k] as int;
    let edge = g.adj@[vk]@[ek];
    assert(spec_edge_usable(g, vk, ek));
    assert(pot(entries[edge.to as int]) <= entries[vk]->0.score + spec_edge_delta(
        g,
        db,
        tpi,
        p,
        vk,
        ek,
    ));
    lemma_step_delta(g, db, tpi, p, vk, ek, cs[k], cs[k + 1]);
}

/// Walks a fitting destination chain at the moment a destination was
/// popped with the frontier's least score: the popped score cannot exceed
/// the chain's final score.
proof fn lemma_walk_chain(
    g: Graph,
    db: TransferDb,
    tpi: PresetTpi,
    p: Profile,
    origins: Seq<String>,
    dests: Seq<String>,
    origin_idx: Seq<usize>,
    max_hops: u64,
    entries: Seq<Option<SearchEntry>>,
    frontier0: Seq<(u64, usize)>,
    closed: Set<int>,
    cur_score: u64,
    ipath: Seq<usize>,
    eidx: Seq<usize>,
    cs: Seq<RouteCosts>,
    k: int,
)
    requires
        spec_search_exact(g, db, tpi, max_hops, p),
        entries.len() == g.ids@.len(),
        g.adj@.len() == g.ids@.len(),
        entries_inv(g, db, tpi, p, origin_idx, max_hops, entries),
        inv_active(entries, frontier0, closed, max_hops),
        inv_closed_edges(g, db, tpi, p, entries, closed),
        inv_closed_not_dest(g, dests, closed),
        forall|x: int| 0 <= x < frontier0.len() ==> (#[trigger] frontier0[x]).0 >= cur_score,
        spec_dest_chain(g, db, tpi, origins, dests, ipath, eidx, cs),
        forall|j: int| 0 <= j < cs.len() ==> spec_score(p, #[trigger] cs[j]) <= u64::MAX,
        0 <= k < ipath.len(),
        pot(entries[ipath[k] as int]) <= spec_score(p, cs[k]),
    ensures
        cur_score as int <= spec_score(p, cs.last()),
    decreases ipath.len() - k,
{
    lemma_route_monotone(g, db, tpi, p, ipath, eidx, cs);
    let vk = ipath[k] as int;
    assert(spec_score(p, cs[k]) <= u64::MAX);
    assert(entries[vk] is Some);
    if closed.contains(vk) {
        if k == ipath.len() - 1 {
            assert(spec_is_dest_node(g, dests, vk));
            assert(false);
        } else {
            lemma_chain_step(g, db, tpi, p, entries, closed, ipath, eidx, cs, k);
            lemma_walk_chain(
                g,
                db,
                tpi,
                p,
                origins,
                dests,
                origin_idx,
                max_hops,
                entries,
                frontier0,
                closed,
                cur_score,
                ipath,
                eidx,
                cs,
                k + 1,
            );
        }
    } else {
        lemma_entry_within_ceiling(g, db, tpi, p, origin_idx, max_hops, entries, vk);
        let j0 = choose|j: int|
            0 <= j < frontier0.len() && #[trigger] frontier0[j] == (
                entries[vk]->0.score,
                ipath[k],
            );
        assert(cur_score <= entries[vk]->0.score);
        assert(spec_score(p, cs[k]) <= spec_score(p, cs.last()));
    }
}

/// At the moment a destination is popped with the least frontier score, no
/// destination chain beats that score.
proof fn lemma_return_optimal(
    g: Graph,
    db: TransferDb,
    tpi: PresetTpi,
    p: Profile,
    origins: Seq<String>,
    dests: Seq<String>,
    origin_idx: Seq<usize>,
    max_hops: u64,
    init_score: u64,
    entries: Seq<Option<SearchEntry>>,
    frontier0: Seq<(u64, usize)>,
    closed: Set<int>,
    cur_score: u64,
)
    requires
        spec_search_exact(g, db, tpi, max_hops, p),
        entries.len() == g.ids@.len(),
        g.adj@.len() == g.ids@.len(),
        entries_inv(g, db, tpi, p, origin_idx, max_hops, entries),
        inv_origins_seeded(origin_idx, init_score, entries),
        init_score == spec_score(p, RouteCosts::spec_initial()),
        inv_active(entries, frontier0, closed, max_hops),
        inv_closed_edges(g, db, tpi, p, entries, closed),
        inv_closed_not_dest(g, dests, closed),
        forall|v2: int, s2: int|
            0 <= v2 < g.ids@.len() && 0 <= s2 < origins.len() && (#[trigger] origins[s2])@
                == #[trigger] ids_view(g.ids@)[v2] ==> exists|j: int|
                0 <= j < origin_idx.len() && (#[trigger] origin_idx[j]) as int == v2,
        forall|x: int| 0 <= x < frontier0.len() ==> (#[trigger] frontier0[x]).0 >= cur_score,
    ensures
        forall|ipath: Seq<usize>, eidx: Seq<usize>, cs: Seq<RouteCosts>|
            #[trigger] spec_dest_chain(g, db, tpi, origins, dests, ipath, eidx, cs)
                ==> cur_score as int <= spec_score(p, cs.last()),
{
    assert forall|ipath: Seq<usize>, eidx: Seq<usize>, cs: Seq<RouteCosts>|
        #[trigger] spec_dest_chain(g, db, tpi, origins, dests, ipath, eidx, cs)
        implies cur_score as int <= spec_score(p, cs.last()) by {
        lemma_route_monotone(g, db, tpi, p, ipath, eidx, cs);
        if exists|j: int| 0 <= j < cs.len() && spec_score(p, #[trigger] cs[j]) > u64::MAX {
            let j = choose|j: int|
                0 <= j < cs.len() && spec_score(p, #[trigger] cs[j]) > u64::MAX;
            assert(spec_score(p, cs[j]) <= spec_score(p, cs.last()));
        } else {
            assert(spec_is_origin_node(g, origins, ipath[0] as int));
            let s2 = choose|s2: int|
                0 <= s2 < origins.len() && (#[trigger] origins[s2])@ == ids_view(
                    g.ids@,
                )[ipath[0] as int];
            let j = choose|j: int|
                0 <= j < origin_idx.len() && (#[trigger] origin_idx[j]) as int == ipath[0] as int;
            assert(pot(entries[ipath[0] as int]) <= init_score as int);
            assert(cs[0] == RouteCosts::spec_initial());
            lemma_walk_chain(
                g,
                db,
                tpi,
                p,
                origins,
                dests,
                origin_idx,
                max_hops,
                entries,
                frontier0,
                closed,
                cur_score,
                ipath,
                eidx,
                cs,
                0,
            );
        }
    }
}

/// Walks a fitting chain after the frontier has emptied: the table matches
/// the chain's score at every position.
proof fn lemma_exit_walk(
    g: Graph,
    db: TransferDb,
    tpi: PresetTpi,
    p: Profile,
    origins: Seq<String>,
    origin_idx: Seq<usize>,
    max_hops: u64,
    init_score: u64,
    entries: Seq<Option<SearchEntry>>,
    closed: Set<int>,
    ipath: Seq<usize>,
    eidx: Seq<usize>,
    cs: Seq<RouteCosts>,
    k: int,
)
    requires
        spec_search_exact(g, db, tpi, max_hops, p),
        entries.len() == g.ids@.len(),
        g.adj@.len() == g.ids@.len(),
        entries_inv(g, db, tpi, p, origin_idx, max_hops, entries),
        inv_origins_seeded(origin_idx, init_score, entries),
        init_score == spec_score(p, RouteCosts::spec_initial()),
        inv_active(entries, Seq::<(u64, usize)>::empty(), closed, max_hops),
        inv_closed_edges(g, db, tpi, p, entries, closed),
        forall|v2: int, s2: int|
            0 <= v2 < g.ids@.len() && 0 <= s2 < origins.len() && (#[trigger] origins[s2])@
                == #[trigger] ids_view(g.ids@)[v2] ==> exists|j: int|
                0 <= j < origin_idx.len() && (#[trigger] origin_idx[j]) as int == v2,
        spec_route_ok(g, db, tpi, ipath, eidx, cs),
        forall|j: int| 0 <= j < ipath.len() ==> (#[trigger] ipath[j] as int) < g.ids@.len(),
        spec_is_origin_node(g, origins, ipath[0] as int),
        forall|j: int| 0 <= j < cs.len() ==> spec_score(p, #[trigger] cs[j]) <= u64::MAX,
        0 <= k < ipath.len(),
    ensures
        pot(entries[ipath[k] as int]) <= spec_score(p, cs[k]),
    decreases k,
{
    if k == 0 {
        let s2 = choose|s2: int|
            0 <= s2 < origins.len() && (#[trigger] origins[s2])@ == ids_view(
                g.ids@,
            )[ipath[0] as int];
        let j = choose|j: int|
            0 <= j < origin_idx.len() && (#[trigger] origin_idx[j]) as int == ipath[0] as int;
        assert(pot(entries[ipath[0] as int]) <= init_score as int);
        assert(cs[0] == RouteCosts::spec_initial());
    } else {
        lemma_exit_walk(
            g,
            db,
            tpi,
            p,
            origins,
            origin_idx,
            max_hops,
            init_score,
            entries,
            closed,
            ipath,
            eidx,
            cs,
            k - 1,
        );
        let vk = ipath[k - 1] as int;
        assert(spec_score(p, cs[k - 1]) <= u64::MAX);
        assert(entries[vk] is Some);
        assert(closed.contains(vk)) by {
            lemma_entry_within_ceiling(g, db, tpi, p, origin_idx, max_hops, entries, vk);
        }
        lemma_chain_step(g, db, tpi, p, entries, closed, ipath, eidx, cs, k - 1);
    }
}

/// When the frontier empties without a destination having been popped, no
/// feasible chain exists at all.
proof fn lemma_exit_complete(
    g: Graph,
    db: TransferDb,
    tpi: PresetTpi,
    p: Profile,
    origins: Seq<String>,
    dests: Seq<String>,
    origin_idx: Seq<usize>,
    max_hops: u64,
    init_score: u64,
    entries: Seq<Option<SearchEntry>>,
    closed: Set<int>,
)
    requires
        spec_search_exact(g, db, tpi, max_hops, p),
        entries.len() == g.ids@.len(),
        g.adj@.len() == g.ids@.len(),
        entries_inv(g, db, tpi, p, origin_idx, max_hops, entries),
        inv_origins_seeded(origin_idx, init_score, entries),
        init_score == spec_score(p, RouteCosts::spec_initial()),
        inv_active(entries, Seq::<(u64, usize)>::empty(), closed, max_hops),
        inv_closed_edges(g, db, tpi, p, entries, closed),
        inv_closed_not_dest(g, dests, closed),
        forall|v2: int, s2: int|
            0 <= v2 < g.ids@.len() && 0 <= s2 < origins.len() && (#[trigger] origins[s2])@
                == #[trigger] ids_view(g.ids@)[v2] ==> exists|j: int|
                0 <= j < origin_idx.len() && (#[trigger] origin_idx[j]) as int == v2,
    ensures
        forall|ipath: Seq<usize>, eidx: Seq<usize>, cs: Seq<RouteCosts>|
            !#[trigger] spec_feasible_chain(g, db, tpi, origins, dests, p, ipath, eidx, cs),
{
    assert forall|ipath: Seq<usize>, eidx: Seq<usize>, cs: Seq<RouteCosts>|
        !#[trigger] spec_feasible_chain(g, db, tpi, origins, dests, p, ipath, eidx, cs) by {
        if spec_feasible_chain(g, db, tpi, origins, dests, p, ipath, eidx, cs) {
            let last = ipath.len() - 1;
            lemma_exit_walk(
                g,
                db,
                tpi,
                p,
                origins,
                origin_idx,
                max_hops,
                init_score,
                entries,
                closed,
                ipath,
                eidx,
                cs,
                last,
            );
            let vl = ipath[last] as int;
            assert(spec_score(p, cs[last]) <= u64::MAX);
            assert(entries[vl] is Some);
            assert(closed.contains(vl)) by {
                lemma_entry_within_ceiling(g, db, tpi, p, origin_idx, max_hops, entries, vl);
            }
            assert(spec_is_dest_node(g, dests, vl));
            assert(false);
        }
    }
}

/// Seeds every resolved origin with the initial cost vector, each with its
/// frontier element.
#[verifier::loop_isolation(false)]
fn seed_origins(
    graph: &Graph,
    db: &TransferDb,
    tpi: &PresetTpi,
    profile: Profile,
    origin_idx: &Vec<usize>,
    max_hops: u64,
    init_score: u64,
    initial: RouteCosts,
    entries: &mut Vec<Option<SearchEntry>>,
    frontier: &mut Vec<(u64, usize)>,
)
    requires
        graph.wf(),
        old(entries)@.len() == graph.ids@.len(),
        forall|j: int| 0 <= j < old(entries)@.len() ==> (#[trigger] old(entries)@[j]) is None,
        old(frontier)@.len() == 0,
        forall|j: int| 0 <= j < origin_idx@.len() ==> (#[trigger] origin_idx@[j]) < graph.ids@.len(),
        initial == RouteCosts::spec_initial(),
        init_score == spec_score(profile, initial),
    ensures
        final(entries)@.len() == graph.ids@.len(),
        entries_inv(*graph, *db, *tpi, profile, origin_idx@, max_hops, final(entries)@),
        frontier_ok(graph.ids@.len() as int, final(entries)@, final(frontier)@),
        inv_origins_seeded(origin_idx@, init_score, final(entries)@),
        inv_active(final(entries)@, final(frontier)@, Set::empty(), max_hops),
        inv_distance(final(entries)@),
{
    let n = graph.ids.len();
    let mut oi: usize = 0;
    while oi < origin_idx.len()
        invariant
            n == graph.ids@.len(),
            oi <= origin_idx@.len(),
            forall|j: int|
                0 <= j < origin_idx@.len() ==> (#[trigger] origin_idx@[j]) < n,
            entries@.len() == n,
            entries_inv(*graph, *db, *tpi, profile, origin_idx@, max_hops, entries@),
            frontier_ok(n as int, entries@, frontier@),
            initial == RouteCosts::spec_initial(),
            init_score == spec_score(profile, initial),
            forall|j: int|
                0 <= j < oi ==> pot(#[trigger] entries@[origin_idx@[j] as int])
                    <= init_score as int,
            forall|w: int|
                0 <= w < entries@.len() && (#[trigger] entries@[w]) is Some
                    ==> entries@[w]->0.score == init_score,
            inv_active(entries@, frontier@, Set::empty(), max_hops),
            inv_distance(entries@),
        decreases origin_idx@.len() - oi,
    {
        let v = origin_idx[oi];
        let is_unseeded = match &entries[v] {
            None => true,
            Some(_) => false,
        };
        if is_unseeded {
            let mut p0: Vec<usize> = Vec::new();
            p0.push(v);
            let ghost tr0: Seq<RouteCosts> = seq![initial];
            let ent = SearchEntry {
                score: init_score,
                costs: initial,
                path: p0,
                eidx: Vec::new(),
                trail: Ghost(tr0),
            };
            proof {
                assert(ent.path@ =~= seq![v]);
                assert(ent.eidx@ =~= Seq::<usize>::empty());
                assert(spec_route_ok(*graph, *db, *tpi, ent.path@, ent.eidx@, ent.trail@));
                assert(entry_inv(
                    *graph,
                    *db,
                    *tpi,
                    profile,
                    origin_idx@,
                    max_hops,
                    ent,
                    v as int,
                ));
                assert(cross_inv(profile, entries@.update(v as int, Some(ent)), ent)) by {
                    assert(entries@.update(v as int, Some(ent))[v as int] == Some(ent));
                }
                lemma_entries_update(
                    *graph,
                    *db,
                    *tpi,
                    profile,
                    origin_idx@,
                    max_hops,
                    entries@,
                    v as int,
                    ent,
                );
            }
            let ghost pre_entries = entries@;
            let ghost pre_frontier = frontier@;
            entries[v] = Some(ent);
            frontier.push((init_score, v));
            proof {
                assert forall|j: int|
                    0 <= j < frontier@.len() implies (#[trigger] frontier@[j]).1 < n
                    && entries@[frontier@[j].1 as int] is Some
                    && entries@[frontier@[j].1 as int]->0.score <= frontier@[j].0 by {
                    if j < pre_frontier.len() {
                        assert(frontier@[j] == pre_frontier[j]);
                        assert(pre_entries[frontier@[j].1 as int] is Some);
                        if frontier@[j].1 != v {
                            assert(entries@[frontier@[j].1 as int] == pre_entries[frontier@[j].1 as int]);
                        }
                    } else {
                        assert(frontier@[j] == (init_score, v));
                    }
                }
                assert(frontier_ok(n as int, entries@, frontier@));
                assert forall|w: int|
                    0 <= w < entries@.len() && (#[trigger] entries@[w]) is Some
                    implies Set::<int>::empty().contains(w) || entries@[w]->0.costs.hops
                    >= max_hops || exists|j: int|
                    0 <= j < frontier@.len() && #[trigger] frontier@[j] == (
                        entries@[w]->0.score,
                        w as usize,
                    ) by {
                    if w == v as int {
                        assert(frontier@[frontier@.len() - 1] == (init_score, v));
                    } else {
                        assert(entries@[w] == pre_entries[w]);
                        if entries@[w] is Some && entries@[w]->0.costs.hops < max_hops {
                            let j0 = choose|j: int|
                                0 <= j < pre_frontier.len() && #[trigger] pre_frontier[j] == (
                                    pre_entries[w]->0.score,
                                    w as usize,
                                );
                            assert(frontier@[j0] == pre_frontier[j0]);
                        }
                    }
                }
                assert(inv_active(entries@, frontier@, Set::empty(), max_hops));
                assert(inv_distance(entries@));
            }
        }
        oi = oi + 1;
    }
    proof {
        assert(inv_origins_seeded(origin_idx@, init_score, entries@));
    }
}

/// Removing one frontier element keeps the frontier sound.
proof fn lemma_pop_frontier_ok(
    n: int,
    entries: Seq<Option<SearchEntry>>,
    frontier0: Seq<(u64, usize)>,
    frontier1: Seq<(u64, usize)>,
    best_i: int,
)
    requires
        0 <= best_i < frontier0.len(),
        frontier1 == frontier0.remove(best_i),
        frontier_ok(n, entries, frontier0),
    ensures
        frontier_ok(n, entries, frontier1),
{
    assert forall|j: int|
        0 <= j < frontier1.len() implies (#[trigger] frontier1[j]).1 < n
        && entries[frontier1[j].1 as int] is Some
        && entries[frontier1[j].1 as int]->0.score <= frontier1[j].0 by {
        if j < best_i {
            assert(frontier1[j] == frontier0[j]);
        } else {
            assert(frontier1[j] == frontier0[j + 1]);
        }
    }
}

/// Popping one element leaves every other entry's activity witness in
/// place, and keeps expanded nodes at most as costly as the rest.
proof fn lemma_pop_exact(
    entries: Seq<Option<SearchEntry>>,
    frontier0: Seq<(u64, usize)>,
    frontier1: Seq<(u64, usize)>,
    closed: Set<int>,
    best_i: int,
    s: u64,
    v: usize,
    max_hops: u64,
)
    requires
        entries.len() <= usize::MAX,
        0 <= best_i < frontier0.len(),
        frontier0[best_i] == (s, v),
        frontier1 == frontier0.remove(best_i),
        inv_active(entries, frontier0, closed, max_hops),
        inv_closed_min(entries, frontier0, closed),
    ensures
        inv_closed_min(entries, frontier1, closed),
        forall|w: int|
            0 <= w < entries.len() && (#[trigger] entries[w]) is Some ==> closed.contains(w)
                || entries[w]->0.costs.hops >= max_hops || (w == v as int && s
                == entries[w]->0.score) || exists|j: int|
                0 <= j < frontier1.len() && #[trigger] frontier1[j] == (
                    entries[w]->0.score,
                    w as usize,
                ),
{
    assert forall|w: int, j: int|
        #![trigger closed.contains(w), frontier1[j]]
        closed.contains(w) && 0 <= j < frontier1.len()
        implies entries[w]->0.score <= frontier1[j].0 by {
        if j < best_i {
            assert(frontier1[j] == frontier0[j]);
        } else {
            assert(frontier1[j] == frontier0[j + 1]);
        }
    }
    assert forall|w: int|
        0 <= w < entries.len() && (#[trigger] entries[w]) is Some implies closed.contains(w)
        || entries[w]->0.costs.hops >= max_hops || (w == v as int && s == entries[w]->0.score)
        || exists|j: int|
        0 <= j < frontier1.len() && #[trigger] frontier1[j] == (
            entries[w]->0.score,
            w as usize,
        ) by {
        if !closed.contains(w) && entries[w]->0.costs.hops < max_hops && !(w == v as int && s
            == entries[w]->0.score) {
            let j0 = choose|j: int|
                0 <= j < frontier0.len() && #[trigger] frontier0[j] == (
                    entries[w]->0.score,
                    w as usize,
                );
            if j0 == best_i {
                assert(frontier0[j0] == (s, v));
                assert(false);
            } else if j0 < best_i {
                assert(frontier1[j0] == frontier0[j0]);
            } else {
                assert(frontier1[j0 - 1] == frontier0[j0]);
            }
        }
    }
}

/// Marking the popped least-score node as expanded keeps the table sound:
/// every expanded node still costs at most the popped score, every entry
/// stays covered, and nothing on the frontier undercuts an expanded node.
proof fn lemma_prepare_close(
    g: Graph,
    db: TransferDb,
    tpi: PresetTpi,
    p: Profile,
    entries: Seq<Option<SearchEntry>>,
    frontier0: Seq<(u64, usize)>,
    frontier1: Seq<(u64, usize)>,
    closed: Set<int>,
    closed_new: Set<int>,
    best_i: int,
    s: u64,
    v: usize,
    cur_score: u64,
    max_hops: u64,
)
    requires
        0 <= best_i < frontier0.len(),
        frontier0[best_i] == (s, v),
        frontier1 == frontier0.remove(best_i),
        forall|x: int| 0 <= x < frontier0.len() ==> (#[trigger] frontier0[x]).0 >= s,
        s == cur_score,
        (v as int) < entries.len(),
        entries[v as int] is Some,
        entries[v as int]->0.score == cur_score,
        closed_new == closed.insert(v as int),
        inv_closed_min(entries, frontier0, closed),
        inv_closed_edges(g, db, tpi, p, entries, closed),
        forall|w: int|
            0 <= w < entries.len() && (#[trigger] entries[w]) is Some ==> closed.contains(w)
                || entries[w]->0.costs.hops >= max_hops || (w == v as int && s
                == entries[w]->0.score) || exists|j: int|
                0 <= j < frontier1.len() && #[trigger] frontier1[j] == (
                    entries[w]->0.score,
                    w as usize,
                ),
    ensures
        forall|w: int|
            #[trigger] closed_new.contains(w) ==> 0 <= w < entries.len() && entries[w] is Some
                && entries[w]->0.score <= cur_score,
        inv_closed_edges(g, db, tpi, p, entries, closed_new.remove(v as int)),
        inv_active(entries, frontier1, closed_new, max_hops),
        inv_closed_min(entries, frontier1, closed_new),
{
    assert forall|w: int| #[trigger] closed_new.contains(w) implies 0 <= w < entries.len()
        && entries[w] is Some && entries[w]->0.score <= cur_score by {
        if w != v as int {
            assert(closed.contains(w));
            assert(entries[w]->0.score <= frontier0[best_i].0);
        }
    }
    assert forall|w: int, e2: int|
        #![trigger closed_new.remove(v as int).contains(w), g.adj@[w]@[e2]]
        closed_new.remove(v as int).contains(w) && 0 <= e2 < g.adj@[w]@.len()
            && spec_edge_usable(g, w, e2) implies pot(entries[g.adj@[w]@[e2].to as int])
        <= entries[w]->0.score + spec_edge_delta(g, db, tpi, p, w, e2) by {
        assert(closed.contains(w));
    }
    assert(inv_closed_edges(g, db, tpi, p, entries, closed_new.remove(v as int)));
    assert forall|w: int|
        0 <= w < entries.len() && (#[trigger] entries[w]) is Some implies closed_new.contains(
        w,
    ) || entries[w]->0.costs.hops >= max_hops || exists|j: int|
        0 <= j < frontier1.len() && #[trigger] frontier1[j] == (
            entries[w]->0.score,
            w as usize,
        ) by {}
    assert(inv_active(entries, frontier1, closed_new, max_hops));
    assert forall|w: int, j: int|
        #![trigger closed_new.contains(w), frontier1[j]]
        closed_new.contains(w) && 0 <= j < frontier1.len()
        implies entries[w]->0.score <= frontier1[j].0 by {
        assert(entries[w]->0.score <= cur_score);
        if j < best_i {
            assert(frontier1[j] == frontier0[j]);
        } else {
            assert(frontier1[j] == frontier0[j + 1]);
        }
    }
    assert(inv_closed_min(entries, frontier1, closed_new));
}

/// Runs one weighted shortest-path search: best-first over the scalarized
/// cost vector, seeded from every resolved origin, stopping at the first
/// requested destination popped from the frontier, bounded by the hop
/// ceiling.  Yields nothing when no destination is reached.
#[verifier::loop_isolation(false)]
#[verifier::rlimit(100)]
pub fn find_best_route(
    graph: &Graph,
    db: &TransferDb,
    tpi: &PresetTpi,
    origins: &Vec<String>,
    dests: &Vec<String>,
    max_hops: u64,
    profile: Profile,
) -> (r: Option<RouteResult>)
    requires
        graph.wf(),
    ensures
        spec_search_ok(*graph, *db, *tpi, origins@, dests@, max_hops, profile, r),
{
    let ghost exact = spec_search_exact(*graph, *db, *tpi, max_hops, profile);
    // An origin that is itself a requested destination makes a trivial
    // one-station itinerary.
    let mut oi: usize = 0;
    while oi < origins.len()
        invariant
            oi <= origins@.len(),
            forall|o: int, d: int|
                0 <= o < oi && 0 <= d < dests@.len() ==> (#[trigger] origins@[o])@ != (
                #[trigger] dests@[d])@,
        decreases origins@.len() - oi,
    {
        if str_list_contains(dests, origins[oi].as_str()) {
            let mut path: Vec<String> = Vec::new();
            path.push(origins[oi].clone());
            let res = RouteResult {
                key: profile,
                path,
                path_localized: None,
                edge_railways: Vec::new(),
                costs: RouteCosts::initial(),
            };
            proof {
                assert(res.path.deep_view() =~~= seq![origins@[oi as int]@]);
                assert(res.edge_railways.deep_view() =~~= Seq::<Seq<char>>::empty());
                assert(spec_count_transfers(res.edge_railways.deep_view()) == 0);
                assert(spec_score(profile, RouteCosts::spec_initial()) <= u64::MAX);
                // Optimality is free here: every chain starts at the
                // initial costs and scores never fall along it.
                if exact {
                    assert forall|ipath: Seq<usize>, eidx: Seq<usize>, cs: Seq<RouteCosts>|
                        #[trigger] spec_dest_chain(
                            *graph,
                            *db,
                            *tpi,
                            origins@,
                            dests@,
                            ipath,
                            eidx,
                            cs,
                        ) implies spec_score(profile, res.costs) <= spec_score(
                        profile,
                        cs.last(),
                    ) by {
                        lemma_route_monotone(*graph, *db, *tpi, profile, ipath, eidx, cs);
                        assert(spec_score(profile, cs[0]) <= spec_score(profile, cs.last()));
                    }
                }
            }
            return Some(res);
        }
        oi = oi + 1;
    }
    // Resolve origins to node indices; unknown names cannot reach anything.
    let n = graph.ids.len();
    let mut origin_idx: Vec<usize> = Vec::new();
    let mut oi: usize = 0;
    while oi < origins.len()
        invariant
            n == graph.ids@.len(),
            oi <= origins@.len(),
            origin_names_ok(origins@, graph.ids@, origin_idx@),
            forall|v2: int, s2: int|
                0 <= v2 < n && 0 <= s2 < oi && (#[trigger] origins@[s2])@ == #[trigger] ids_view(
                    graph.ids@,
                )[v2] ==> exists|j: int|
                    0 <= j < origin_idx@.len() && (#[trigger] origin_idx@[j]) as int == v2,
        decreases origins@.len() - oi,
    {
        proof {
            crate::graph::lemma_node_index_bounds(ids_view(graph.ids@), origins@[oi as int]@);
        }
        let ghost pre_oidx = origin_idx@;
        if let Some(i) = node_index(&graph.ids, origins[oi].as_str()) {
            origin_idx.push(i);
            proof {
                assert forall|j: int|
                    0 <= j < origin_idx@.len() implies (#[trigger] origin_idx@[j]) < graph.ids@.len()
                    && exists|s2: int|
                    0 <= s2 < origins@.len() && #[trigger] origins@[s2]@ == ids_view(
                        graph.ids@,
                    )[origin_idx@[j] as int] by {
                    if j < pre_oidx.len() {
                        assert(origin_idx@[j] == pre_oidx[j]);
                        assert(pre_oidx[j] < graph.ids@.len() && exists|s2: int|
                            0 <= s2 < origins@.len() && #[trigger] origins@[s2]@ == ids_view(
                                graph.ids@,
                            )[pre_oidx[j] as int]);
                    } else {
                        assert(origin_idx@[j] == i);
                        assert(ids_view(graph.ids@)[i as int] == origins@[oi as int]@);
                    }
                }
                assert(origin_names_ok(origins@, graph.ids@, origin_idx@));
                assert forall|v2: int, s2: int|
                    0 <= v2 < n && 0 <= s2 < oi + 1 && (#[trigger] origins@[s2])@
                        == #[trigger] ids_view(graph.ids@)[v2] implies exists|j: int|
                    0 <= j < origin_idx@.len() && (#[trigger] origin_idx@[j]) as int == v2 by {
                    if s2 == oi {
                        assert(ids_view(graph.ids@)[i as int] == origins@[oi as int]@);
                        assert(ids_view(graph.ids@)[v2] == ids_view(graph.ids@)[i as int]);
                        if v2 != i {
                            assert(false);
                        }
                        assert(origin_idx@[origin_idx@.len() - 1] as int == v2);
                    } else {
                        let j0 = choose|j: int|
                            0 <= j < pre_oidx.len() && (#[trigger] pre_oidx[j]) as int == v2;
                        assert(origin_idx@[j0] == pre_oidx[j0]);
                    }
                }
            }
        } else {
            proof {
                assert(crate::graph::spec_node_index(ids_view(graph.ids@), origins@[oi as int]@) == -1);
                assert forall|v2: int, s2: int|
                    0 <= v2 < n && 0 <= s2 < oi + 1 && (#[trigger] origins@[s2])@
                        == #[trigger] ids_view(graph.ids@)[v2] implies exists|j: int|
                    0 <= j < origin_idx@.len() && (#[trigger] origin_idx@[j]) as int == v2 by {
                    if s2 == oi {
                        assert(ids_view(graph.ids@)[v2] != origins@[oi as int]@);
                        assert(false);
                    }
                }
            }
        }
        oi = oi + 1;
    }
    // The per-node entry table, with no entries yet, and the frontier.
    let mut entries: Vec<Option<SearchEntry>> = Vec::new();
    while entries.len() < n
        invariant
            entries@.len() <= n,
            forall|j: int| 0 <= j < entries@.len() ==> (#[trigger] entries@[j]) is None,
        decreases n - entries@.len(),
    {
        entries.push(None);
    }
    let mut frontier: Vec<(u64, usize)> = Vec::new();
    // Seed every origin with the initial cost vector.
    let initial = RouteCosts::initial();
    proof {
        assert(spec_score(profile, RouteCosts::spec_initial()) <= u64::MAX);
    }
    let init_score = match score(profile, &initial) {
        Some(s) => s,
        None => {
            proof {
                assert(false);
            }
            return None;
        },
    };
    proof {
        assert forall|j: int|
            0 <= j < origin_idx@.len() implies (#[trigger] origin_idx@[j])
            < graph.ids@.len() by {
            assert(origin_idx@[j] < graph.ids@.len() && exists|s2: int|
                0 <= s2 < origins@.len() && #[trigger] origins@[s2]@ == ids_view(
                    graph.ids@,
                )[origin_idx@[j] as int]);
        }
    }
    seed_origins(
        graph,
        db,
        tpi,
        profile,
        &origin_idx,
        max_hops,
        init_score,
        initial,
        &mut entries,
        &mut frontier,
    );
    let ghost mut closed: Set<int> = Set::empty();
    // Best-first search.
    while frontier.len() > 0
        invariant
            n == graph.ids@.len(),
            origin_names_ok(origins@, graph.ids@, origin_idx@),
            forall|v2: int, s2: int|
                0 <= v2 < n && 0 <= s2 < origins@.len() && (#[trigger] origins@[s2])@
                    == #[trigger] ids_view(graph.ids@)[v2] ==> exists|j: int|
                    0 <= j < origin_idx@.len() && (#[trigger] origin_idx@[j]) as int == v2,
            entries@.len() == n,
            entries_inv(*graph, *db, *tpi, profile, origin_idx@, max_hops, entries@),
            frontier_ok(n as int, entries@, frontier@),
            init_score == spec_score(profile, RouteCosts::spec_initial()),
            inv_origins_seeded(origin_idx@, init_score, entries@),
            inv_closed_not_dest(*graph, dests@, closed),
            exact == spec_search_exact(*graph, *db, *tpi, max_hops, profile),
            exact ==> {
                &&& inv_active(entries@, frontier@, closed, max_hops)
                &&& inv_closed_edges(*graph, *db, *tpi, profile, entries@, closed)
                &&& inv_closed_min(entries@, frontier@, closed)
                &&& inv_distance(entries@)
            },
        decreases 2 * pot_sum(entries@) + frontier@.len(),
    {
        proof {
            lemma_pot_sum_nonneg(entries@);
        }
        // Pop the cheapest frontier member; the earliest wins a tie.
        let mut best_i: usize = 0;
        let mut bi: usize = 1;
        while bi < frontier.len()
            invariant
                frontier@.len() > 0,
                best_i < frontier@.len(),
                bi <= frontier@.len(),
                forall|x: int|
                    0 <= x < bi ==> (#[trigger] frontier@[x]).0 >= frontier@[best_i as int].0,
            decreases frontier@.len() - bi,
        {
            if frontier[bi].0 < frontier[best_i].0 {
                best_i = bi;
            }
            bi = bi + 1;
        }
        let ghost frontier0 = frontier@;
        let ghost entries0 = entries@;
        let popped = frontier.remove(best_i);
        let s = popped.0;
        let v = popped.1;
        proof {
            assert(popped == frontier0[best_i as int]);
            assert(forall|x: int| 0 <= x < frontier0.len() ==> (#[trigger] frontier0[x]).0 >= s);
            assert(v < n && entries@[v as int] is Some);
            lemma_pop_frontier_ok(n as int, entries@, frontier0, frontier@, best_i as int);
            if exact {
                assert(entries@.len() <= usize::MAX);
                lemma_pop_exact(
                    entries@,
                    frontier0,
                    frontier@,
                    closed,
                    best_i as int,
                    s,
                    v,
                    max_hops,
                );
            }
        }
        let got = read_entry(&entries, v);
        let (cur_score, cur_costs, cur_path, cur_eidx, cur_trail) = match got {
            Some(t) => t,
            None => {
                proof {
                    assert(false);
                }
                continue ;
            },
        };
        let ghost cur_tr = cur_trail@;
        proof {
            assert(entries@[v as int] matches Some(ent0) && ent0.path@ == cur_path@
                && ent0.eidx@ == cur_eidx@ && ent0.trail@ == cur_tr && ent0.score == cur_score
                && ent0.costs == cur_costs);
        }
        if s > cur_score {
            proof {
                if exact {
                    assert forall|w: int|
                        0 <= w < entries@.len() && (#[trigger] entries@[w]) is Some
                        implies closed.contains(w) || entries@[w]->0.costs.hops >= max_hops
                        || exists|j: int|
                        0 <= j < frontier@.len() && #[trigger] frontier@[j] == (
                            entries@[w]->0.score,
                            w as usize,
                        ) by {
                        if w == v as int {
                            assert(entries@[w]->0.score == cur_score);
                        }
                    }
                    assert(inv_active(entries@, frontier@, closed, max_hops));
                }
            }
            continue ;
        }
        proof {
            // Non-stale: the frontier never undercuts an entry's score.
            assert(s == cur_score);
            assert forall|k: int|
                0 <= k < cur_path@.len() implies (#[trigger] cur_path@[k]) < n by {
                if k < cur_path@.len() - 1 {
                    assert(spec_route_edge_ok(*graph, *db, *tpi, cur_path@, cur_eidx@, cur_tr, k));
                } else {
                    assert(cur_path@.last() == v);
                }
            }
        }
        if str_list_contains(dests, graph.ids[v].as_str()) {
            proof {
                if exact {
                    lemma_return_optimal(
                        *graph,
                        *db,
                        *tpi,
                        profile,
                        origins@,
                        dests@,
                        origin_idx@,
                        max_hops,
                        init_score,
                        entries@,
                        frontier0,
                        closed,
                        cur_score,
                    );
                }
            }
            let res = emit_result(
                graph,
                db,
                tpi,
                profile,
                origins,
                dests,
                Ghost(origin_idx@),
                max_hops,
                v,
                cur_costs,
                &cur_path,
                &cur_eidx,
                Ghost(cur_tr),
            );
            return Some(res);
        }
        if cur_costs.hops >= max_hops {
            proof {
                if exact {
                    assert forall|w: int|
                        0 <= w < entries@.len() && (#[trigger] entries@[w]) is Some
                        implies closed.contains(w) || entries@[w]->0.costs.hops >= max_hops
                        || exists|j: int|
                        0 <= j < frontier@.len() && #[trigger] frontier@[j] == (
                            entries@[w]->0.score,
                            w as usize,
                        ) by {
                        if w == v as int {
                            assert(entries@[w]->0.costs.hops >= max_hops);
                        }
                    }
                    assert(inv_active(entries@, frontier@, closed, max_hops));
                }
            }
            continue ;
        }
        proof {
            let ent0 = entries@[v as int]->0;
            assert(entry_inv(*graph, *db, *tpi, profile, origin_idx@, max_hops, ent0, v as int));
            assert(cross_inv(profile, entries@, ent0));
            assert forall|k: int|
                0 <= k < cur_path@.len() implies (#[trigger] entries@[cur_path@[k] as int]) is Some
                && entries@[cur_path@[k] as int]->0.score <= spec_score(profile, cur_tr[k]) by {
                assert(match entries@[ent0.path@[k] as int] {
                    Some(e2) => e2.score <= spec_score(profile, ent0.trail@[k]),
                    None => false,
                });
            }
            assert(popped_inv(
                *graph,
                *db,
                *tpi,
                profile,
                origin_idx@,
                max_hops,
                entries@,
                v,
                cur_score,
                cur_costs,
                cur_path@,
                cur_eidx@,
                cur_tr,
            ));
        }
        let ghost closed_new = closed.insert(v as int);
        proof {
            if exact {
                lemma_prepare_close(
                    *graph,
                    *db,
                    *tpi,
                    profile,
                    entries@,
                    frontier0,
                    frontier@,
                    closed,
                    closed_new,
                    best_i as int,
                    s,
                    v,
                    cur_score,
                    max_hops,
                );
            }
        }
        expand_node(
            graph,
            db,
            tpi,
            profile,
            Ghost(origin_idx@),
            max_hops,
            &mut entries,
            &mut frontier,
            v,
            cur_score,
            cur_costs,
            &cur_path,
            &cur_eidx,
            Ghost(cur_tr),
            Ghost(closed_new),
        );
        proof {
            closed = closed_new;
            assert(inv_origins_seeded(origin_idx@, init_score, entries@)) by {
                assert forall|j: int|
                    0 <= j < origin_idx@.len() implies pot(
                    #[trigger] entries@[origin_idx@[j] as int],
                ) <= init_score as int by {
                    assert(pot(entries@[origin_idx@[j] as int]) <= pot(
                        entries0[origin_idx@[j] as int],
                    ));
                }
            }
            assert forall|w: int| #[trigger] closed.contains(w) implies !spec_is_dest_node(
                *graph,
                dests@,
                w,
            ) by {
                if w == v as int {
                    assert(ids_view(graph.ids@)[v as int] == graph.ids@[v as int]@);
                }
            }
            lemma_pot_sum_nonneg(entries@);
        }
    }
    proof {
        if exact {
            lemma_exit_complete(
                *graph,
                *db,
                *tpi,
                profile,
                origins@,
                dests@,
                origin_idx@,
                max_hops,
                init_score,
                entries@,
                closed,
            );
        }
    }
    None
}

} // verus!
