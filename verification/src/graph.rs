//! The graph store: an immutable directed multigraph of stations and
//! ride/transfer edges, built once at startup from plain adjacency data and
//! read-only afterwards.
//!
//! Station identifiers are interned to dense indices when the graph is
//! built; the search works on indices and maps back to identifiers in its
//! results.

use vstd::prelude::*;
use crate::text::{chars_vec, contains_chars, spec_contains, str_eq};

verus! {

/// One outgoing edge.  `cost` is riding time in 1/600-minute units; it is
/// ignored for transfer edges, whose cost the transfer model computes.  The
/// two flags cache what the railway identifier says: whether this is the
/// `transfer` sentinel, and whether the line carries the high-crowding
/// marker.
pub struct Edge {
    pub to: usize,
    pub cost: u64,
    pub railway_id: String,
    pub is_transfer: bool,
    pub crowded: bool,
}

/// The station graph: `ids` names each node, `adj` lists each node's
/// outgoing edges.
pub struct Graph {
    pub ids: Vec<String>,
    pub adj: Vec<Vec<Edge>>,
}

/// The node names as character sequences.
pub open spec fn ids_view(ids: Seq<String>) -> Seq<Seq<char>> {
    ids.map_values(|s: String| s@)
}

/// Index of the first node carrying `id`, or -1 when there is none.
pub open spec fn spec_node_index(v: Seq<Seq<char>>, id: Seq<char>) -> int
    decreases v.len(),
{
    if v.len() == 0 {
        -1
    } else if v[0] == id {
        0
    } else {
        let r = spec_node_index(v.drop_first(), id);
        if r < 0 {
            -1
        } else {
            r + 1
        }
    }
}

pub proof fn lemma_node_index_bounds(v: Seq<Seq<char>>, id: Seq<char>)
    ensures
        -1 <= spec_node_index(v, id) < v.len(),
        spec_node_index(v, id) >= 0 ==> v[spec_node_index(v, id)] == id,
        spec_node_index(v, id) >= 0 ==> forall|k: int| 0 <= k < spec_node_index(v, id) ==> v[k]
            != id,
        spec_node_index(v, id) == -1 ==> forall|k: int| 0 <= k < v.len() ==> v[k] != id,
    decreases v.len(),
{
    if v.len() > 0 && v[0] != id {
        lemma_node_index_bounds(v.drop_first(), id);
        assert(forall|k: int| 1 <= k < v.len() ==> v[k] == v.drop_first()[k - 1]);
    }
}

/// Appending a node keeps every present node's index, and gives a new node
/// the next index.
pub proof fn lemma_node_index_push(v: Seq<Seq<char>>, id: Seq<char>, x: Seq<char>)
    ensures
        spec_node_index(v, id) >= 0 ==> spec_node_index(v.push(x), id) == spec_node_index(v, id),
        spec_node_index(v, id) == -1 && x == id ==> spec_node_index(v.push(x), id) == v.len(),
        spec_node_index(v, id) == -1 && x != id ==> spec_node_index(v.push(x), id) == -1,
    decreases v.len(),
{
    let w = v.push(x);
    assert(w.len() == v.len() + 1);
    if v.len() == 0 {
        assert(w[0] == x);
        assert(w.drop_first() =~= Seq::<Seq<char>>::empty());
        if x == id {
            assert(spec_node_index(w, id) == 0);
        } else {
            assert(spec_node_index(w.drop_first(), id) == -1);
            assert(spec_node_index(w, id) == -1);
        }
    } else {
        lemma_node_index_push(v.drop_first(), id, x);
        assert(w.drop_first() =~= v.drop_first().push(x));
        assert(w[0] == v[0]);
        if v[0] == id {
            assert(spec_node_index(v, id) == 0);
            assert(spec_node_index(w, id) == 0);
        }
    }
}

/// Finds the node carrying `id`, if any.
#[verifier::loop_isolation(false)]
pub fn node_index(ids: &Vec<String>, id: &str) -> (r: Option<usize>)
    ensures
        spec_node_index(ids_view(ids@), id@) >= 0 ==> r == Some(
            spec_node_index(ids_view(ids@), id@) as usize,
        ),
        spec_node_index(ids_view(ids@), id@) == -1 ==> r is None,
{
    let v = ids;
    let mut i: usize = 0;
    proof {
        lemma_node_index_bounds(ids_view(ids@), id@);
    }
    while i < v.len()
        invariant
            i <= v@.len(),
            forall|k: int| 0 <= k < i ==> ids_view(ids@)[k] != id@,
        decreases v@.len() - i,
    {
        if str_eq(v[i].as_str(), id) {
            proof {
                let w = ids_view(ids@);
                let idx = spec_node_index(w, id@);
                assert(w[i as int] == id@);
                if idx == -1 {
                    assert(false);
                }
                if idx < i {
                    assert(w[idx] == id@);
                    assert(false);
                }
                if idx > i {
                    assert(w[i as int] != id@);
                    assert(false);
                }
            }
            return Some(i);
        }
        i = i + 1;
    }
    proof {
        let w = ids_view(ids@);
        let idx = spec_node_index(w, id@);
        if idx >= 0 {
            assert(w[idx] == id@);
            assert(false);
        }
    }
    None
}

impl Graph {
    /// Structural soundness: one adjacency row per node, every edge target
    /// in range, node names pairwise distinct, and each edge's cached flags
    /// agreeing with its railway identifier.
    pub open spec fn wf(self) -> bool {
        &&& self.adj@.len() == self.ids@.len()
        &&& (forall|i: int, j: int|
            0 <= i < self.ids@.len() && 0 <= j < ids_view(self.ids@).len() && i != j
                ==> ids_view(self.ids@)[i] != ids_view(self.ids@)[j])
        &&& (forall|i: int, e: int|
            0 <= i < self.adj@.len() && 0 <= e < self.adj@[i]@.len() ==> {
                let edge = #[trigger] self.adj@[i]@[e];
                &&& edge.to < self.ids@.len()
                &&& edge.is_transfer == (edge.railway_id@ == "transfer"@)
                &&& edge.crowded == (spec_contains(edge.railway_id@, "Yamanote"@)
                    || spec_contains(edge.railway_id@, "Chuo"@))
            })
    }

}

/// Interns `id` into the node table: returns its index, appending the name
/// when it is new.
#[verifier::loop_isolation(false)]
fn intern(ids: &mut Vec<String>, id: &str) -> (r: usize)
    ensures
        r < final(ids)@.len(),
        ids_view(final(ids)@)[r as int] == id@,
        spec_node_index(ids_view(final(ids)@), id@) == r,
        spec_node_index(ids_view(old(ids)@), id@) >= 0 ==> final(ids)@ == old(ids)@ && r
            == spec_node_index(ids_view(old(ids)@), id@),
        spec_node_index(ids_view(old(ids)@), id@) == -1 ==> final(ids)@ == old(ids)@.push(
            final(ids)@[r as int],
        ) && final(ids)@[r as int]@ == id@ && r == old(ids)@.len(),
{
    proof {
        lemma_node_index_bounds(ids_view(ids@), id@);
    }
    let n = ids.len();
    if let Some(i) = node_index(ids, id) {
        proof {
            let w = ids_view(ids@);
            let idx = spec_node_index(w, id@);
            assert(idx >= 0);
            assert(idx < n);
            assert(i == idx);
            assert(w[idx] == id@);
        }
        return i;
    }
    let r = ids.len();
    let owned = id.to_owned();
    ids.push(owned);
    proof {
        lemma_node_index_push(ids_view(old(ids)@), id@, id@);
        assert(ids_view(ids@) =~= ids_view(old(ids)@).push(id@));
    }
    r
}

/// Plain adjacency data: one entry per station, listing its outgoing edges
/// as (target station, riding cost in 1/600-minute units, railway
/// identifier).
pub type AdjData = Vec<(String, Vec<(String, u64, String)>)>;

/// Whether no data row names the station called `name`.
pub open spec fn spec_no_row_for_name(
    data: Seq<(String, Vec<(String, u64, String)>)>,
    name: Seq<char>,
) -> bool {
    forall|k: int| 0 <= k < data.len() ==> (#[trigger] data[k].0@) != name
}

/// Whether data row `k` is the last row for its station, so that it is the
/// one the graph keeps.
pub open spec fn spec_last_row_for_key(data: Seq<(String, Vec<(String, u64, String)>)>, k: int) -> bool {
    forall|k2: int| k < k2 < data.len() ==> data[k2].0@ != data[k].0@
}

impl Graph {
    /// Builds the graph from plain adjacency data.  Every station named in
    /// the data, as a source or as a target, becomes a node; for each
    /// station, the last data row for it supplies its outgoing edges, in
    /// order.
    pub fn build(data: &AdjData) -> (r: Graph)
        ensures
            r.wf(),
            forall|k: int|
                0 <= k < data@.len() ==> spec_node_index(
                    ids_view(r.ids@),
                    #[trigger] data@[k].0@,
                ) >= 0,
            forall|k: int, e: int|
                0 <= k < data@.len() && 0 <= e < data@[k].1@.len() ==> spec_node_index(
                    ids_view(r.ids@),
                    #[trigger] data@[k].1@[e].0@,
                ) >= 0,
            forall|k: int|
                0 <= k < data@.len() && spec_last_row_for_key(data@, k) ==> {
                    let i = spec_node_index(ids_view(r.ids@), #[trigger] data@[k].0@);
                    let row = data@[k].1@;
                    &&& r.adj@[i]@.len() == row.len()
                    &&& (forall|e: int|
                        0 <= e < row.len() ==> {
                            let edge = #[trigger] r.adj@[i]@[e];
                            &&& ids_view(r.ids@)[edge.to as int] == row[e].0@
                            &&& edge.cost == row[e].1
                            &&& edge.railway_id@ == row[e].2@
                        })
                },
            forall|i: int|
                0 <= i < r.ids@.len() && spec_no_row_for_name(
                    data@,
                    #[trigger] ids_view(r.ids@)[i],
                ) ==> r.adj@[i]@.len() == 0,
    {
        let mut ids: Vec<String> = Vec::new();
        let mut k: usize = 0;
        while k < data.len()
            invariant
                k <= data@.len(),
                forall|i: int, j: int|
                    0 <= i < ids_view(ids@).len() && 0 <= j < ids_view(ids@).len() && i != j
                        ==> ids_view(ids@)[i] != ids_view(ids@)[j],
                forall|k2: int|
                    0 <= k2 < k ==> spec_node_index(ids_view(ids@), #[trigger] data@[k2].0@) >= 0,
                forall|k2: int, e: int|
                    0 <= k2 < k && 0 <= e < data@[k2].1@.len() ==> spec_node_index(
                        ids_view(ids@),
                        #[trigger] data@[k2].1@[e].0@,
                    ) >= 0,
            decreases data@.len() - k,
        {
            let ghost pre = ids@;
            intern(&mut ids, data[k].0.as_str());
            proof {
                lemma_intern_props(pre, ids@, data@[k as int].0@);
            }
            let row = &data[k].1;
            let mut e: usize = 0;
            while e < row.len()
                invariant
                    k < data@.len(),
                    row == &data@[k as int].1,
                    e <= row@.len(),
                    forall|i: int, j: int|
                        0 <= i < ids_view(ids@).len() && 0 <= j < ids_view(ids@).len() && i != j
                            ==> ids_view(ids@)[i] != ids_view(ids@)[j],
                    forall|k2: int|
                        0 <= k2 <= k ==> spec_node_index(ids_view(ids@), #[trigger] data@[k2].0@)
                            >= 0,
                    forall|k2: int, e2: int|
                        0 <= k2 < k && 0 <= e2 < data@[k2].1@.len() ==> spec_node_index(
                            ids_view(ids@),
                            #[trigger] data@[k2].1@[e2].0@,
                        ) >= 0,
                    forall|e2: int|
                        0 <= e2 < e ==> spec_node_index(
                            ids_view(ids@),
                            #[trigger] data@[k as int].1@[e2].0@,
                        ) >= 0,
                decreases row@.len() - e,
            {
                let ghost pre = ids@;
                intern(&mut ids, row[e].0.as_str());
                proof {
                    lemma_intern_props(pre, ids@, row@[e as int].0@);
                }
                e = e + 1;
            }
            k = k + 1;
        }
        let graph = assemble_rows(data, ids);
        graph
    }
}

/// Interning one name keeps every present name present at its index, and
/// keeps the names pairwise distinct.
proof fn lemma_intern_props(pre: Seq<String>, post: Seq<String>, added: Seq<char>)
    requires
        forall|i: int, j: int|
            0 <= i < ids_view(pre).len() && 0 <= j < ids_view(pre).len() && i != j ==> ids_view(
                pre,
            )[i] != ids_view(pre)[j],
        post == pre || (spec_node_index(ids_view(pre), added) == -1 && post == pre.push(
            post.last(),
        ) && post.last()@ == added),
    ensures
        forall|id: Seq<char>|
            spec_node_index(ids_view(pre), id) >= 0 ==> #[trigger] spec_node_index(
                ids_view(post),
                id,
            ) == spec_node_index(ids_view(pre), id),
        forall|i: int, j: int|
            0 <= i < ids_view(post).len() && 0 <= j < ids_view(post).len() && i != j ==> ids_view(
                post,
            )[i] != ids_view(post)[j],
{
    if post != pre {
        assert forall|id: Seq<char>| spec_node_index(ids_view(pre), id) >= 0 implies #[trigger] spec_node_index(
            ids_view(post),
            id,
        ) == spec_node_index(ids_view(pre), id) by {
            lemma_node_index_push(ids_view(pre), id, added);
            assert(ids_view(post) =~= ids_view(pre).push(added));
        }
        lemma_node_index_bounds(ids_view(pre), added);
        assert(ids_view(post) =~= ids_view(pre).push(added));
        assert forall|i: int, j: int|
            0 <= i < ids_view(post).len() && 0 <= j < ids_view(post).len() && i
                != j implies ids_view(post)[i] != ids_view(post)[j] by {
            let n = ids_view(pre).len() as int;
            if i < n && j < n {
            } else if i == n {
                assert(ids_view(post)[j] == ids_view(pre)[j]);
                assert(ids_view(pre)[j] != added);
            } else {
                assert(ids_view(post)[i] == ids_view(pre)[i]);
                assert(ids_view(pre)[i] != added);
            }
        }
    }
}

/// Builds the adjacency rows for an interned node table: each node's row
/// comes from the last data entry carrying its name, and is empty when no
/// entry does.
#[verifier::loop_isolation(false)]
fn assemble_rows(data: &AdjData, ids: Vec<String>) -> (r: Graph)
    requires
        forall|i: int, j: int|
            0 <= i < ids_view(ids@).len() && 0 <= j < ids_view(ids@).len() && i != j ==> ids_view(
                ids@,
            )[i] != ids_view(ids@)[j],
        forall|k: int|
            0 <= k < data@.len() ==> spec_node_index(ids_view(ids@), #[trigger] data@[k].0@) >= 0,
        forall|k: int, e: int|
            0 <= k < data@.len() && 0 <= e < data@[k].1@.len() ==> spec_node_index(
                ids_view(ids@),
                #[trigger] data@[k].1@[e].0@,
            ) >= 0,
    ensures
        r.ids@ == ids@,
        r.wf(),
        forall|k: int|
            0 <= k < data@.len() && spec_last_row_for_key(data@, k) ==> {
                let i = spec_node_index(ids_view(r.ids@), #[trigger] data@[k].0@);
                let row = data@[k].1@;
                &&& r.adj@[i]@.len() == row.len()
                &&& (forall|e: int|
                    0 <= e < row.len() ==> {
                        let edge = #[trigger] r.adj@[i]@[e];
                        &&& ids_view(r.ids@)[edge.to as int] == row[e].0@
                        &&& edge.cost == row[e].1
                        &&& edge.railway_id@ == row[e].2@
                    })
            },
        forall|i: int|
            0 <= i < r.ids@.len() && spec_no_row_for_name(data@, #[trigger] ids_view(r.ids@)[i])
                ==> r.adj@[i]@.len() == 0,
{
    let transfer_marker = chars_vec("transfer");
    let yamanote_marker = chars_vec("Yamanote");
    let chuo_marker = chars_vec("Chuo");
    let mut adj: Vec<Vec<Edge>> = Vec::new();
    let mut ni: usize = 0;
    while ni < ids.len()
        invariant
            ni <= ids@.len(),
            adj@.len() == ni,
            transfer_marker@ == "transfer"@,
            yamanote_marker@ == "Yamanote"@,
            chuo_marker@ == "Chuo"@,
            forall|i: int, e: int|
                0 <= i < adj@.len() && 0 <= e < adj@[i]@.len() ==> {
                    let edge = #[trigger] adj@[i]@[e];
                    &&& edge.to < ids@.len()
                    &&& edge.is_transfer == (edge.railway_id@ == "transfer"@)
                    &&& edge.crowded == (spec_contains(edge.railway_id@, "Yamanote"@)
                        || spec_contains(edge.railway_id@, "Chuo"@))
                },
            forall|k: int|
                0 <= k < data@.len() && spec_last_row_for_key(data@, k) && spec_node_index(
                    ids_view(ids@),
                    #[trigger] data@[k].0@,
                ) < ni ==> {
                    let i = spec_node_index(ids_view(ids@), data@[k].0@);
                    let row = data@[k].1@;
                    &&& adj@[i]@.len() == row.len()
                    &&& (forall|e: int|
                        0 <= e < row.len() ==> {
                            let edge = #[trigger] adj@[i]@[e];
                            &&& ids_view(ids@)[edge.to as int] == row[e].0@
                            &&& edge.cost == row[e].1
                            &&& edge.railway_id@ == row[e].2@
                        })
                },
            forall|i2: int|
                0 <= i2 < ni && spec_no_row_for_name(data@, #[trigger] ids_view(ids@)[i2])
                    ==> adj@[i2]@.len() == 0,
        decreases ids@.len() - ni,
    {
        // Find the last data row for this node, if any.
        let mut found: Option<usize> = None;
        let mut k: usize = 0;
        while k < data.len()
            invariant
                ni < ids@.len(),
                k <= data@.len(),
                match found {
                    Some(f) => f < k && data@[f as int].0@ == ids_view(ids@)[ni as int] && forall|
                        k2: int,
                    |
                        f < k2 < k ==> data@[k2].0@ != ids_view(ids@)[ni as int],
                    None => forall|k2: int|
                        0 <= k2 < k ==> data@[k2].0@ != ids_view(ids@)[ni as int],
                },
            decreases data@.len() - k,
        {
            if str_eq(data[k].0.as_str(), ids[ni].as_str()) {
                found = Some(k);
            }
            k = k + 1;
        }
        let mut row_edges: Vec<Edge> = Vec::new();
        match found {
            None => {},
            Some(f) => {
                let row = &data[f].1;
                let mut e: usize = 0;
                while e < row.len()
                    invariant
                        f < data@.len(),
                        row == &data@[f as int].1,
                        e <= row@.len(),
                        row_edges@.len() == e,
                        transfer_marker@ == "transfer"@,
                        yamanote_marker@ == "Yamanote"@,
                        chuo_marker@ == "Chuo"@,
                        forall|e2: int|
                            0 <= e2 < e ==> {
                                let edge = #[trigger] row_edges@[e2];
                                &&& edge.to < ids@.len()
                                &&& ids_view(ids@)[edge.to as int] == row@[e2].0@
                                &&& edge.cost == row@[e2].1
                                &&& edge.railway_id@ == row@[e2].2@
                                &&& edge.is_transfer == (edge.railway_id@ == "transfer"@)
                                &&& edge.crowded == (spec_contains(edge.railway_id@, "Yamanote"@)
                                    || spec_contains(edge.railway_id@, "Chuo"@))
                            },
                    decreases row@.len() - e,
                {
                    proof {
                        lemma_node_index_bounds(ids_view(ids@), row@[e as int].0@);
                    }
                    let ti = match node_index(&ids, row[e].0.as_str()) {
                        Some(t) => t,
                        None => {
                            proof {
                                assert(false);
                            }
                            0
                        },
                    };
                    let rw_chars = chars_vec(row[e].2.as_str());
                    let is_transfer = crate::text::chars_eq(&rw_chars, &transfer_marker);
                    let crowded = contains_chars(&rw_chars, &yamanote_marker) || contains_chars(
                        &rw_chars,
                        &chuo_marker,
                    );
                    let railway_id = row[e].2.clone();
                    row_edges.push(
                        Edge { to: ti, cost: row[e].1, railway_id, is_transfer, crowded },
                    );
                    e = e + 1;
                }
            },
        }
        adj.push(row_edges);
        proof {
            if found is None {
                assert(adj@[ni as int]@.len() == 0);
            }
            if found is Some {
                let f = found->0 as int;
                assert(spec_node_index(ids_view(ids@), data@[f].0@) == ni) by {
                    lemma_node_index_bounds(ids_view(ids@), data@[f].0@);
                    let idx = spec_node_index(ids_view(ids@), data@[f].0@);
                    if idx != ni {
                        assert(ids_view(ids@)[ni as int] == data@[f].0@);
                        if idx == -1 {
                            assert(false);
                        } else {
                            assert(ids_view(ids@)[idx] == data@[f].0@);
                            assert(false);
                        }
                    }
                };
            }
            assert forall|k2: int|
                0 <= k2 < data@.len() && spec_last_row_for_key(data@, k2) && spec_node_index(
                    ids_view(ids@),
                    #[trigger] data@[k2].0@,
                ) < ni + 1 implies {
                let i = spec_node_index(ids_view(ids@), data@[k2].0@);
                let row = data@[k2].1@;
                &&& adj@[i]@.len() == row.len()
                &&& (forall|e: int|
                    0 <= e < row.len() ==> {
                        let edge = #[trigger] adj@[i]@[e];
                        &&& ids_view(ids@)[edge.to as int] == row[e].0@
                        &&& edge.cost == row[e].1
                        &&& edge.railway_id@ == row[e].2@
                    })
            } by {
                let i = spec_node_index(ids_view(ids@), data@[k2].0@);
                lemma_node_index_bounds(ids_view(ids@), data@[k2].0@);
                if i == ni {
                    assert(ids_view(ids@)[ni as int] == data@[k2].0@);
                    match found {
                        Some(f) => {
                            assert(data@[f as int].0@ == data@[k2].0@);
                            assert(f as int == k2);
                        },
                        None => {
                            assert(false);
                        },
                    }
                }
            }
        }
        ni = ni + 1;
    }
    proof {
        assert forall|k: int|
            0 <= k < data@.len() && spec_last_row_for_key(data@, k) implies {
            let i = spec_node_index(ids_view(ids@), #[trigger] data@[k].0@);
            let row = data@[k].1@;
            &&& adj@[i]@.len() == row.len()
            &&& (forall|e: int|
                0 <= e < row.len() ==> {
                    let edge = #[trigger] adj@[i]@[e];
                    &&& ids_view(ids@)[edge.to as int] == row[e].0@
                    &&& edge.cost == row[e].1
                    &&& edge.railway_id@ == row[e].2@
                })
        } by {
            lemma_node_index_bounds(ids_view(ids@), data@[k].0@);
        }
    }
    Graph { ids, adj }
}

} // verus!
