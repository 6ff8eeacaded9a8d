//! The route response assembler: resolves request text to candidate
//! stations, runs the pathfinder once per scoring profile, keeps the first
//! itinerary of each distinct structure, and attaches localized names.

use vstd::prelude::*;
use crate::costs::Profile;
use crate::graph::Graph;
use crate::resolver::{
    spec_localize_one, spec_resolution_ok, ResolvedStation, StationResolver,
};
use crate::search::{find_best_route, spec_route_result_ok, spec_search_ok, RouteResult};
use crate::station_id::{parse_ids, spec_parse_ids};
use crate::text::{chars_vec, spec_starts_with, spec_trim, starts_with_chars, string_from_chars,
    trim_chars};
use crate::transfer::{PresetTpi, TransferDb};

verus! {

/// Equality of two string vectors, by contents.
fn string_vecs_eq(a: &Vec<String>, b: &Vec<String>) -> (r: bool)
    ensures
        r == (a.deep_view() == b.deep_view()),
{
    if a.len() != b.len() {
        proof {
            assert(a.deep_view().len() != b.deep_view().len());
        }
        return false;
    }
    let mut i: usize = 0;
    while i < a.len()
        invariant
            a@.len() == b@.len(),
            a.deep_view().len() == a@.len(),
            b.deep_view().len() == b@.len(),
            i <= a@.len(),
            forall|j: int| 0 <= j < i ==> a.deep_view()[j] == b.deep_view()[j],
        decreases a@.len() - i,
    {
        if !crate::text::str_eq(a[i].as_str(), b[i].as_str()) {
            proof {
                assert(a.deep_view()[i as int] != b.deep_view()[i as int]);
            }
            return false;
        }
        proof {
            assert(a.deep_view()[i as int] == a@[i as int]@);
            assert(b.deep_view()[i as int] == b@[i as int]@);
        }
        i = i + 1;
    }
    proof {
        assert(a.deep_view() =~~= b.deep_view());
    }
    true
}

/// Whether two itineraries have the same structure: the same stations in
/// the same order over the same railway identifiers.
pub open spec fn spec_same_signature(a: RouteResult, b: RouteResult) -> bool {
    a.path.deep_view() == b.path.deep_view() && a.edge_railways.deep_view()
        == b.edge_railways.deep_view()
}

/// Whether two itineraries agree in everything the search determines: the
/// profile key, the stations, the railway identifiers and the costs.  (The
/// attached localized names are not compared.)
pub open spec fn spec_same_route(a: RouteResult, b: RouteResult) -> bool {
    &&& a.key == b.key
    &&& a.path.deep_view() == b.path.deep_view()
    &&& a.edge_railways.deep_view() == b.edge_railways.deep_view()
    &&& a.costs == b.costs
}

/// Whether an itinerary carries localized names for its whole path.
pub open spec fn spec_localized_ok(
    res: RouteResult,
    st: Seq<crate::resolver::StationEntry>,
    locale: Seq<char>,
) -> bool {
    match res.path_localized {
        Some(loc) => loc@.len() == res.path@.len() && (forall|x: int|
            0 <= x < loc@.len() ==> (#[trigger] loc@[x])@ == spec_localize_one(
                st,
                res.path@[x]@,
                locale,
            )),
        None => false,
    }
}

/// The first-occurrence deduplication of the profile results, in profile
/// order: a found itinerary is kept unless an earlier profile produced one
/// of the same structure.
pub open spec fn spec_keep(found: Seq<Option<RouteResult>>) -> Seq<RouteResult>
    decreases found.len(),
{
    if found.len() == 0 {
        Seq::empty()
    } else {
        let prefix = spec_keep(found.drop_last());
        match found.last() {
            Some(res) => {
                if exists|j: int|
                    0 <= j < prefix.len() && spec_same_signature(#[trigger] prefix[j], res) {
                    prefix
                } else {
                    prefix.push(res)
                }
            },
            None => prefix,
        }
    }
}

/// Two itineraries that agree in the search-determined fields satisfy the
/// search's guarantees interchangeably.
pub proof fn lemma_same_route_ok(
    g: Graph,
    db: TransferDb,
    tpi: PresetTpi,
    origins: Seq<String>,
    dests: Seq<String>,
    max_hops: u64,
    a: RouteResult,
    b: RouteResult,
)
    requires
        spec_same_route(a, b),
        spec_route_result_ok(g, db, tpi, origins, dests, max_hops, b.key, b),
    ensures
        spec_route_result_ok(g, db, tpi, origins, dests, max_hops, a.key, a),
{
    assert(a.path@.len() == a.path.deep_view().len());
    assert(b.path@.len() == b.path.deep_view().len());
    assert(a.edge_railways@.len() == a.edge_railways.deep_view().len());
    assert(b.edge_railways@.len() == b.edge_railways.deep_view().len());
}

/// What the assembler promises of its itinerary list: every entry is a
/// sound result of the search under its own profile, carries localized
/// names for its path, and no two entries share a structure.
pub open spec fn spec_routes_ok(
    g: Graph,
    db: TransferDb,
    tpi: PresetTpi,
    st: Seq<crate::resolver::StationEntry>,
    origins: Seq<String>,
    dests: Seq<String>,
    max_hops: u64,
    locale: Seq<char>,
    routes: Seq<RouteResult>,
) -> bool {
    &&& (forall|k: int|
        0 <= k < routes.len() ==> spec_route_result_ok(
            g,
            db,
            tpi,
            origins,
            dests,
            max_hops,
            (#[trigger] routes[k]).key,
            routes[k],
        ))
    &&& (forall|k: int|
        0 <= k < routes.len() ==> match (#[trigger] routes[k]).path_localized {
            Some(loc) => loc@.len() == routes[k].path@.len() && (forall|x: int|
                0 <= x < loc@.len() ==> (#[trigger] loc@[x])@ == spec_localize_one(
                    st,
                    routes[k].path@[x]@,
                    locale,
                )),
            None => false,
        })
    &&& (forall|a: int, b: int|
        0 <= a < b < routes.len() ==> !spec_same_signature(
            #[trigger] routes[a],
            #[trigger] routes[b],
        ))
}

/// Appends a found itinerary to the kept list unless one of the same
/// structure is already listed, attaching localized names when it is kept.
#[verifier::loop_isolation(false)]
fn keep_route(
    resolver: &StationResolver,
    locale: &str,
    routes: &mut Vec<RouteResult>,
    found: Option<RouteResult>,
)
    ensures
        match found {
            None => final(routes)@ == old(routes)@,
            Some(res) => {
                if exists|j: int|
                    0 <= j < old(routes)@.len() && spec_same_signature(
                        #[trigger] old(routes)@[j],
                        res,
                    ) {
                    final(routes)@ == old(routes)@
                } else {
                    &&& final(routes)@.len() == old(routes)@.len() + 1
                    &&& (forall|k: int|
                        0 <= k < old(routes)@.len() ==> final(routes)@[k] == old(routes)@[k])
                    &&& spec_same_route(final(routes)@.last(), res)
                    &&& spec_localized_ok(final(routes)@.last(), resolver.stations@, locale@)
                }
            },
        },
{
    let mut result = match found {
        Some(r) => r,
        None => {
            return ;
        },
    };
    // Deduplicate by structural signature.
    let mut k: usize = 0;
    while k < routes.len()
        invariant
            k <= routes@.len(),
            routes@ == old(routes)@,
            forall|j: int|
                0 <= j < k ==> !spec_same_signature(#[trigger] routes@[j], found->0),
            result == found->0,
        decreases routes@.len() - k,
    {
        let same = string_vecs_eq(&routes[k].path, &result.path) && string_vecs_eq(
            &routes[k].edge_railways,
            &result.edge_railways,
        );
        if same {
            proof {
                assert(spec_same_signature(routes@[k as int], found->0));
            }
            return ;
        }
        k = k + 1;
    }
    let localized = resolver.localize_path(&result.path, locale);
    result.path_localized = Some(localized);
    let ghost pre = routes@;
    routes.push(result);
    proof {
        assert(forall|j: int| 0 <= j < pre.len() ==> #[trigger] routes@[j] == pre[j]);
        assert(spec_same_route(routes@.last(), found->0));
    }
}

/// Extending the kept list by one profile's outcome matches extending the
/// first-occurrence deduplication by that outcome, and keeps the list
/// sound.
proof fn lemma_keep_extend(
    g: Graph,
    db: TransferDb,
    tpi: PresetTpi,
    st: Seq<crate::resolver::StationEntry>,
    origins: Seq<String>,
    dests: Seq<String>,
    max_hops: u64,
    locale: Seq<char>,
    fs: Seq<Option<RouteResult>>,
    f: Option<RouteResult>,
    pre: Seq<RouteResult>,
    post: Seq<RouteResult>,
)
    requires
        pre.len() == spec_keep(fs).len(),
        forall|k: int| 0 <= k < pre.len() ==> spec_same_route(#[trigger] pre[k], spec_keep(fs)[k]),
        spec_routes_ok(g, db, tpi, st, origins, dests, max_hops, locale, pre),
        (f matches Some(res) ==> spec_route_result_ok(
            g,
            db,
            tpi,
            origins,
            dests,
            max_hops,
            res.key,
            res,
        )),
        match f {
            None => post == pre,
            Some(res) => {
                if exists|j: int|
                    0 <= j < pre.len() && spec_same_signature(#[trigger] pre[j], res) {
                    post == pre
                } else {
                    &&& post.len() == pre.len() + 1
                    &&& (forall|k: int| 0 <= k < pre.len() ==> post[k] == pre[k])
                    &&& spec_same_route(post.last(), res)
                    &&& spec_localized_ok(post.last(), st, locale)
                }
            },
        },
    ensures
        post.len() == spec_keep(fs.push(f)).len(),
        forall|k: int|
            0 <= k < post.len() ==> spec_same_route(#[trigger] post[k], spec_keep(fs.push(f))[k]),
        spec_routes_ok(g, db, tpi, st, origins, dests, max_hops, locale, post),
{
    assert(fs.push(f).drop_last() =~= fs);
    assert(fs.push(f).last() == f);
    let prefix = spec_keep(fs);
    match f {
        None => {},
        Some(res) => {
            if exists|j: int| 0 <= j < pre.len() && spec_same_signature(#[trigger] pre[j], res) {
                let j = choose|j: int|
                    0 <= j < pre.len() && spec_same_signature(#[trigger] pre[j], res);
                assert(spec_same_route(pre[j], prefix[j]));
                assert(spec_same_signature(prefix[j], res));
                assert(spec_keep(fs.push(f)) == prefix);
            } else {
                assert forall|j: int|
                    0 <= j < prefix.len() implies !spec_same_signature(
                    #[trigger] prefix[j],
                    res,
                ) by {
                    if spec_same_signature(prefix[j], res) {
                        assert(spec_same_route(pre[j], prefix[j]));
                        assert(spec_same_signature(pre[j], res));
                    }
                }
                assert(spec_keep(fs.push(f)) == prefix.push(res));
                // The new entry is sound and distinct from every kept one.
                lemma_same_route_ok(
                    g,
                    db,
                    tpi,
                    origins,
                    dests,
                    max_hops,
                    post.last(),
                    res,
                );
                assert forall|a: int, b: int|
                    0 <= a < b < post.len() implies !spec_same_signature(
                    #[trigger] post[a],
                    #[trigger] post[b],
                ) by {
                    if b == post.len() - 1 {
                        assert(post[a] == pre[a]);
                        if spec_same_signature(post[a], post[b]) {
                            assert(spec_same_signature(pre[a], res));
                        }
                    }
                }
            }
        },
    }
}

/// The outcome of one route request: the deduplicated itineraries, and, for
/// a request whose origin or destination resolved to nothing, an error
/// message instead.
pub struct RouteRequestOutcome {
    pub routes: Vec<RouteResult>,
    pub error: Option<String>,
    pub bad_request: bool,
}

/// Runs all four profiles over the resolved origin and destination
/// candidates and assembles the response: a request with no origin or no
/// destination candidates is rejected with an error and no itineraries;
/// otherwise each profile's best itinerary is kept unless an earlier
/// profile found one of identical structure, and each kept itinerary gets
/// localized station names.
#[verifier::loop_isolation(false)]
pub fn plan_routes(
    graph: &Graph,
    db: &TransferDb,
    tpi: &PresetTpi,
    resolver: &StationResolver,
    origins: &Vec<String>,
    dests: &Vec<String>,
    max_hops: u64,
    locale: &str,
) -> (r: RouteRequestOutcome)
    requires
        graph.wf(),
    ensures
        (origins@.len() == 0 || dests@.len() == 0) ==> (r.bad_request && r.routes@.len() == 0
            && r.error is Some),
        (origins@.len() > 0 && dests@.len() > 0) ==> (!r.bad_request && r.error is None),
        r.routes@.len() <= 4,
        spec_routes_ok(
            *graph,
            *db,
            *tpi,
            resolver.stations@,
            origins@,
            dests@,
            max_hops,
            locale@,
            r.routes@,
        ),
        (origins@.len() > 0 && dests@.len() > 0) ==> exists|found: Seq<Option<RouteResult>>|
            {
                &&& #[trigger] spec_keep(found).len() == r.routes@.len()
                &&& found.len() == 4
                &&& spec_search_ok(
                    *graph,
                    *db,
                    *tpi,
                    origins@,
                    dests@,
                    max_hops,
                    Profile::Smart,
                    found[0],
                )
                &&& spec_search_ok(
                    *graph,
                    *db,
                    *tpi,
                    origins@,
                    dests@,
                    max_hops,
                    Profile::Fastest,
                    found[1],
                )
                &&& spec_search_ok(
                    *graph,
                    *db,
                    *tpi,
                    origins@,
                    dests@,
                    max_hops,
                    Profile::FewestTransfers,
                    found[2],
                )
                &&& spec_search_ok(
                    *graph,
                    *db,
                    *tpi,
                    origins@,
                    dests@,
                    max_hops,
                    Profile::Comfort,
                    found[3],
                )
                &&& (forall|k: int|
                    0 <= k < r.routes@.len() ==> spec_same_route(
                        #[trigger] r.routes@[k],
                        spec_keep(found)[k],
                    ))
            },
{
    if origins.len() == 0 || dests.len() == 0 {
        return RouteRequestOutcome {
            routes: Vec::new(),
            error: Some(
                String::from_str(
                    "Could not resolve stations. Please provide valid station names or IDs.",
                ),
            ),
            bad_request: true,
        };
    }
    let mut routes: Vec<RouteResult> = Vec::new();
    let ghost fs0: Seq<Option<RouteResult>> = Seq::empty();
    let ghost pre1 = routes@;
    let f1 = find_best_route(graph, db, tpi, origins, dests, max_hops, Profile::Smart);
    let ghost w1 = f1;
    keep_route(resolver, locale, &mut routes, f1);
    proof {
        lemma_keep_extend(
            *graph,
            *db,
            *tpi,
            resolver.stations@,
            origins@,
            dests@,
            max_hops,
            locale@,
            fs0,
            w1,
            pre1,
            routes@,
        );
    }
    let ghost fs1 = fs0.push(w1);
    let ghost pre2 = routes@;
    let f2 = find_best_route(graph, db, tpi, origins, dests, max_hops, Profile::Fastest);
    let ghost w2 = f2;
    keep_route(resolver, locale, &mut routes, f2);
    proof {
        lemma_keep_extend(
            *graph,
            *db,
            *tpi,
            resolver.stations@,
            origins@,
            dests@,
            max_hops,
            locale@,
            fs1,
            w2,
            pre2,
            routes@,
        );
    }
    let ghost fs2 = fs1.push(w2);
    let ghost pre3 = routes@;
    let f3 = find_best_route(graph, db, tpi, origins, dests, max_hops, Profile::FewestTransfers);
    let ghost w3 = f3;
    keep_route(resolver, locale, &mut routes, f3);
    proof {
        lemma_keep_extend(
            *graph,
            *db,
            *tpi,
            resolver.stations@,
            origins@,
            dests@,
            max_hops,
            locale@,
            fs2,
            w3,
            pre3,
            routes@,
        );
    }
    let ghost fs3 = fs2.push(w3);
    let ghost pre4 = routes@;
    let f4 = find_best_route(graph, db, tpi, origins, dests, max_hops, Profile::Comfort);
    let ghost w4 = f4;
    keep_route(resolver, locale, &mut routes, f4);
    proof {
        lemma_keep_extend(
            *graph,
            *db,
            *tpi,
            resolver.stations@,
            origins@,
            dests@,
            max_hops,
            locale@,
            fs3,
            w4,
            pre4,
            routes@,
        );
    }
    let ghost fs4 = fs3.push(w4);
    proof {
        assert(fs4.len() == 4);
        assert(fs4[0] == w1 && fs4[1] == w2 && fs4[2] == w3 && fs4[3] == w4);
    }
    RouteRequestOutcome { routes, error: None, bad_request: false }
}

/// The candidate identifiers for one side of a request: explicit
/// identifiers win; otherwise free text is resolved, an identifier-shaped
/// text passing through unresolved.
pub fn resolve_station_query(
    resolver: &StationResolver,
    name_param: Option<&str>,
    id_param: Option<&str>,
) -> (r: (Vec<String>, Option<ResolvedStation>))
    ensures
        ({
            let explicit = match id_param {
                Some(ids) => spec_parse_ids(ids@),
                None => Seq::<Seq<char>>::empty(),
            };
            if explicit.len() > 0 {
                r.0.deep_view() == explicit && r.1 is None
            } else {
                match name_param {
                    Some(nm) => {
                        let t = spec_trim(nm@);
                        if t.len() == 0 {
                            r.0@.len() == 0 && r.1 is None
                        } else if spec_starts_with(t, "odpt.Station:"@) {
                            r.0.deep_view() == seq![t] && r.1 is None
                        } else {
                            exists|rs: Seq<ResolvedStation>|
                                {
                                    &&& #[trigger] spec_resolution_ok(
                                        resolver.stations@,
                                        t,
                                        3,
                                        rs,
                                    )
                                    &&& r.0@.len() == rs.len()
                                    &&& (forall|k: int|
                                        0 <= k < rs.len() ==> (#[trigger] r.0@[k])@
                                            == rs[k].matched_id@)
                                    &&& (rs.len() == 0 ==> r.1 is None)
                                    &&& (rs.len() > 0 ==> (r.1 matches Some(f)
                                        && f.matched_id@ == rs[0].matched_id@ && f.query@
                                        == rs[0].query@ && f.match_type == rs[0].match_type
                                        && f.confidence_num == rs[0].confidence_num
                                        && f.confidence_den == rs[0].confidence_den))
                                }
                        }
                    },
                    None => r.0@.len() == 0 && r.1 is None,
                }
            }
        }),
{
    if let Some(ids) = id_param {
        let parsed = parse_ids(Some(ids));
        if parsed.len() > 0 {
            return (parsed, None);
        }
    }
    if let Some(name) = name_param {
        let nc = chars_vec(name);
        let tc = trim_chars(&nc);
        if tc.len() == 0 {
            return (Vec::new(), None);
        }
        let trimmed = string_from_chars(&tc);
        let marker = chars_vec("odpt.Station:");
        if starts_with_chars(&tc, &marker) {
            let mut one: Vec<String> = Vec::new();
            one.push(trimmed);
            proof {
                assert(one.deep_view() =~~= seq![spec_trim(name@)]);
            }
            return (one, None);
        }
        let resolved = resolver.resolve(trimmed.as_str(), 3);
        let mut ids: Vec<String> = Vec::new();
        let mut k: usize = 0;
        while k < resolved.len()
            invariant
                k <= resolved@.len(),
                ids@.len() == k,
                forall|x: int| 0 <= x < k ==> (#[trigger] ids@[x])@ == resolved@[x].matched_id@,
            decreases resolved@.len() - k,
        {
            ids.push(resolved[k].matched_id.clone());
            k = k + 1;
        }
        if resolved.len() > 0 {
            let first = ResolvedStation {
                query: resolved[0].query.clone(),
                matched_id: resolved[0].matched_id.clone(),
                confidence_num: resolved[0].confidence_num,
                confidence_den: resolved[0].confidence_den,
                match_type: resolved[0].match_type,
            };
            return (ids, Some(first));
        }
        return (ids, None);
    }
    (Vec::new(), None)
}

} // verus!
