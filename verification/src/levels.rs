//! Parallel execution levels.
//!
//! On an acyclic graph, a bead with no predecessors sits at level 0;
//! otherwise its level is one more than the greatest level among its
//! predecessors.  Beads sharing a level have no path between them and
//! may run concurrently.

use vstd::prelude::*;
use crate::BeadNode;
use crate::graph::DepGraph;
use crate::graph::GraphError;
use crate::graph::GraphEdge;
use crate::graph::bead_edge;
use crate::graph::beads_valid;
use crate::graph::build_graph;
use crate::graph::distinct_ids;
use crate::topo::beads_acyclic;
use crate::topo::entries_below;
use crate::topo::kahn;
use crate::topo::lemma_acyclic_transfer;
use crate::topo::lemma_cycle_flag;
use crate::topo::respects_edges;

verus! {

/// Some declared edge enters `v`.
pub open spec fn has_pred(beads: Seq<BeadNode>, v: int) -> bool {
    exists|u: int| bead_edge(beads, u, v)
}

/// The level assignment equations at node `v`: zero without
/// predecessors, else one more than the attained predecessor maximum.
pub open spec fn level_eq(g: DepGraph, lv: Seq<usize>, v: int) -> bool {
    let ps = g.preds@[v]@;
    if ps.len() == 0 {
        lv[v] == 0
    } else {
        &&& exists|m: int| 0 <= m < ps.len() && lv[v] == lv[#[trigger] ps[m] as int] + 1
        &&& forall|m: int| 0 <= m < ps.len() ==> lv[v] >= lv[#[trigger] ps[m] as int] + 1
    }
}

/// A complete emission order places every predecessor of `ord[v_pos]`
/// at an earlier position.
proof fn lemma_pred_position(g: DepGraph, ord: Seq<usize>, v_pos: int, p: usize)
    requires
        g.wf(),
        ord.len() == g.n(),
        ord.no_duplicates(),
        entries_below(ord, g.n()),
        respects_edges(g, ord),
        forall|v: int| 0 <= v < g.n() ==> #[trigger] ord.contains(v as usize),
        0 <= v_pos < ord.len(),
        g.preds@[ord[v_pos] as int]@.contains(p),
    ensures
        exists|q: int| 0 <= q < v_pos && ord[q] == p,
{
    let v = ord[v_pos] as int;
    assert(g.preds@[v]@.contains(p));
    let mi = choose|mi: int| 0 <= mi < g.preds@[v]@.len() && g.preds@[v]@[mi] == p;
    assert((p as int) < g.n());
    assert(g.pred_has(v, p as int));
    assert(g.adj_has(p as int, v));
    assert(g.edge(p as int, v));
    assert(ord.contains((p as int) as usize));
    let q = choose|q: int| 0 <= q < ord.len() && ord[q] == p;
    if q >= v_pos {
        assert(!g.edge(ord[q] as int, ord[v_pos] as int));
    }
    assert(0 <= q < v_pos && ord[q] == p);
}

/// Rewriting one position that is neither an earlier node nor any of
/// its predecessors leaves the earlier equations intact.
proof fn lemma_level_update_preserves(
    g: DepGraph,
    ord: Seq<usize>,
    lv_old: Seq<usize>,
    lv_new: Seq<usize>,
    k: int,
)
    requires
        g.wf(),
        ord.len() == g.n(),
        ord.no_duplicates(),
        entries_below(ord, g.n()),
        respects_edges(g, ord),
        forall|v: int| 0 <= v < g.n() ==> #[trigger] ord.contains(v as usize),
        0 <= k < ord.len(),
        lv_old.len() == g.n(),
        lv_new.len() == g.n(),
        forall|x: int| 0 <= x < g.n() && x != ord[k] as int ==> lv_new[x] == lv_old[x],
        forall|k2: int| 0 <= k2 < k ==> lv_old[#[trigger] ord[k2] as int] <= k2,
        forall|k2: int| 0 <= k2 < k ==> level_eq(g, lv_old, #[trigger] ord[k2] as int),
    ensures
        forall|k2: int| 0 <= k2 < k ==> lv_new[#[trigger] ord[k2] as int] <= k2,
        forall|k2: int| 0 <= k2 < k ==> level_eq(g, lv_new, #[trigger] ord[k2] as int),
{
    assert forall|k2: int| 0 <= k2 < k implies lv_new[#[trigger] ord[k2] as int] <= k2 by {
        assert(ord[k2] != ord[k]);
    }
    assert forall|k2: int| 0 <= k2 < k implies level_eq(g, lv_new, #[trigger] ord[k2] as int) by {
        let v = ord[k2] as int;
        assert(ord[k2] != ord[k]);
        assert(lv_new[v] == lv_old[v]);
        let ps = g.preds@[v]@;
        assert forall|m: int| 0 <= m < ps.len() implies lv_new[#[trigger] ps[m] as int]
            == lv_old[ps[m] as int] by {
            assert(ps.contains(ps[m]));
            lemma_pred_position(g, ord, k2, ps[m]);
            let q = choose|q: int| 0 <= q < k2 && ord[q] == ps[m];
            assert(ord[q] != ord[k]);
        }
        if ps.len() > 0 {
            let m0 = choose|m: int| 0 <= m < ps.len() && lv_old[v] == lv_old[ps[m] as int] + 1;
            assert(lv_new[v] == lv_new[ps[m0] as int] + 1);
        }
    }
}

/// The level of every bead, paired with its id, in input order.
/// For every declared edge `(u, v)` the level of `v` strictly exceeds
/// the level of `u`; a bead without predecessors sits at level 0, and
/// every other bead exactly one above its highest predecessor.
#[verifier::rlimit(100)]
pub fn compute_levels(beads: &Vec<BeadNode>) -> (r: Result<Vec<(String, usize)>, GraphError>)
    requires
        distinct_ids(beads@),
    ensures
        match r {
            Ok(pairs) => {
                &&& beads_valid(beads@)
                &&& beads_acyclic(beads@)
                &&& pairs@.len() == beads@.len()
                &&& forall|i: int| 0 <= i < pairs@.len() ==> (#[trigger] pairs@[i]).0@ == beads@[i].id@
                &&& forall|v: int|
                    0 <= v < beads@.len() && !(#[trigger] has_pred(beads@, v)) ==> (pairs@[v]).1
                        == 0
                &&& forall|v: int|
                    0 <= v < beads@.len() && #[trigger] has_pred(beads@, v) ==> exists|u: int|
                        #[trigger] bead_edge(beads@, u, v) && (pairs@[v]).1 == (pairs@[u]).1 + 1
                &&& forall|u: int, v: int|
                    #[trigger] bead_edge(beads@, u, v) ==> (pairs@[v]).1 >= (pairs@[u]).1 + 1
                &&& forall|u: int, v: int|
                    #[trigger] bead_edge(beads@, u, v) ==> (pairs@[v]).1 > (pairs@[u]).1
            },
            Err(e) => (e == GraphError::UnknownNode && !beads_valid(beads@)) || (e
                == GraphError::CyclicGraph && beads_valid(beads@) && !beads_acyclic(beads@)),
        },
{
    let empty_edges: Vec<GraphEdge> = Vec::new();
    let g = match build_graph(beads, &empty_edges) {
        Ok(g) => g,
        Err(e) => {
            return Err(GraphError::UnknownNode);
        },
    };
    let n = beads.len();
    let (ord, hc) = kahn(&g);
    proof {
        assert forall|u: int, v: int| #[trigger] g.edge(u, v) <==> bead_edge(beads@, u, v) by {
            if crate::graph::edge_listed(empty_edges@, beads@, u, v) {
                let k = choose|k: int|
                    0 <= k < empty_edges@.len() && empty_edges@[k].from@ == beads@[u].id@
                        && empty_edges@[k].to@ == beads@[v].id@;
            }
        }
        lemma_cycle_flag(g, ord@);
        lemma_acyclic_transfer(g, beads@);
    }
    if hc {
        return Err(GraphError::CyclicGraph);
    }
    let mut lv: Vec<usize> = Vec::new();
    let mut t: usize = 0;
    while t < n
        invariant
            t <= n,
            lv@.len() == t,
        decreases n - t,
    {
        lv.push(0);
        t += 1;
    }
    let mut k: usize = 0;
    while k < n
        invariant
            g.wf(),
            n == g.n(),
            beads@.len() == n,
            ord@.len() == n,
            ord@.no_duplicates(),
            entries_below(ord@, g.n()),
            respects_edges(g, ord@),
            forall|v: int| 0 <= v < g.n() ==> #[trigger] ord@.contains(v as usize),
            k <= n,
            lv@.len() == n,
            forall|k2: int| 0 <= k2 < k ==> lv@[#[trigger] ord@[k2] as int] <= k2,
            forall|k2: int| 0 <= k2 < k ==> level_eq(g, lv@, #[trigger] ord@[k2] as int),
        decreases n - k,
    {
        let vv = ord[k];
        let ghost lv_old = lv@;
        let plen = g.preds[vv].len();
        if plen == 0 {
            lv[vv] = 0;
            proof {
                lemma_level_update_preserves(g, ord@, lv_old, lv@, k as int);
                assert(level_eq(g, lv@, vv as int));
            }
        } else {
            proof {
                assert(g.preds@[vv as int]@.contains(g.preds@[vv as int]@[0]));
                lemma_pred_position(g, ord@, k as int, g.preds@[vv as int]@[0]);
            }
            let mut best: usize = 0;
            let mut j: usize = 0;
            while j < plen
                invariant
                    g.wf(),
                    n == g.n(),
                    ord@.len() == n,
                    ord@.no_duplicates(),
                    entries_below(ord@, g.n()),
                    respects_edges(g, ord@),
                    forall|v: int| 0 <= v < g.n() ==> #[trigger] ord@.contains(v as usize),
                    k < n,
                    1 <= k,
                    (vv as int) < n,
                    vv == ord@[k as int],
                    plen == g.preds@[vv as int]@.len(),
                    j <= plen,
                    lv@.len() == n,
                    forall|k2: int| 0 <= k2 < k ==> lv@[#[trigger] ord@[k2] as int] <= k2,
                    forall|k2: int| 0 <= k2 < k ==> level_eq(g, lv@, #[trigger] ord@[k2] as int),
                    best <= k - 1,
                    forall|m: int|
                        0 <= m < j ==> lv@[#[trigger] g.preds@[vv as int]@[m] as int] <= best,
                    (exists|m: int|
                        0 <= m < j && best == lv@[#[trigger] g.preds@[vv as int]@[m] as int])
                        || best == 0,
                decreases plen - j,
            {
                let p = g.preds[vv][j];
                proof {
                    assert(g.preds@[vv as int]@.contains(p));
                    lemma_pred_position(g, ord@, k as int, p);
                    let q = choose|q: int| 0 <= q < k && ord@[q] == p;
                    assert(lv@[p as int] <= q);
                }
                let cand = lv[p];
                if cand > best {
                    best = cand;
                }
                j += 1;
            }
            lv[vv] = best + 1;
            proof {
                lemma_level_update_preserves(g, ord@, lv_old, lv@, k as int);
                assert(ord@.contains(vv));
                assert(!g.edge(vv as int, vv as int));
                assert(!g.preds@[vv as int]@.contains(vv)) by {
                    if g.preds@[vv as int]@.contains(vv) {
                        assert(g.pred_has(vv as int, vv as int));
                        assert(g.adj_has(vv as int, vv as int));
                    }
                }
                assert forall|m: int| 0 <= m < plen implies lv@[#[trigger] g.preds@[vv as int]@[m] as int]
                    == lv_old[g.preds@[vv as int]@[m] as int] by {
                    assert(g.preds@[vv as int]@[m] != vv) by {
                        assert(g.preds@[vv as int]@.contains(g.preds@[vv as int]@[m]));
                    }
                }
                if exists|m: int|
                    0 <= m < plen && best == lv_old[#[trigger] g.preds@[vv as int]@[m] as int] {
                    let m0 = choose|m: int|
                        0 <= m < plen && best == lv_old[#[trigger] g.preds@[vv as int]@[m] as int];
                    assert(lv@[vv as int] == lv@[g.preds@[vv as int]@[m0] as int] + 1);
                } else {
                    assert(best == 0);
                    assert(lv_old[g.preds@[vv as int]@[0] as int] == 0);
                    assert(lv@[vv as int] == lv@[g.preds@[vv as int]@[0] as int] + 1);
                }
                assert(level_eq(g, lv@, vv as int));
            }
        }
        k += 1;
    }
    proof {
        assert forall|v: int| 0 <= v < n implies level_eq(g, lv@, v) by {
            assert(ord@.contains(v as usize));
            let q = choose|q: int| 0 <= q < ord@.len() && ord@[q] == v as usize;
            assert(level_eq(g, lv@, ord@[q] as int));
        }
    }
    let mut pairs: Vec<(String, usize)> = Vec::new();
    let mut i: usize = 0;
    while i < n
        invariant
            beads@.len() == n,
            lv@.len() == n,
            i <= n,
            pairs@.len() == i,
            forall|m: int|
                0 <= m < i ==> (#[trigger] pairs@[m]).0@ == beads@[m].id@ && pairs@[m].1 == lv@[m],
        decreases n - i,
    {
        let idc = beads[i].id.clone();
        let lvi = lv[i];
        pairs.push((idc, lvi));
        i += 1;
    }
    proof {
        assert forall|u: int, v: int| #[trigger] bead_edge(beads@, u, v) implies (pairs@[v]).1
            >= (pairs@[u]).1 + 1 by {
            assert(g.edge(u, v));
            assert(g.pred_has(v, u));
            let m = choose|m: int| 0 <= m < g.preds@[v]@.len() && g.preds@[v]@[m] == u as usize;
            assert(level_eq(g, lv@, v));
            assert(lv@[v] >= lv@[g.preds@[v]@[m] as int] + 1);
        }
        assert forall|v: int|
            0 <= v < beads@.len() && !(#[trigger] has_pred(beads@, v)) implies (pairs@[v]).1
            == 0 by {
            assert(level_eq(g, lv@, v));
            if g.preds@[v]@.len() > 0 {
                let p = g.preds@[v]@[0];
                assert(g.preds@[v]@.contains(p));
                assert(g.pred_has(v, p as int));
                assert(g.adj_has(p as int, v));
                assert(g.edge(p as int, v));
                assert(bead_edge(beads@, p as int, v));
            }
        }
        assert forall|v: int|
            0 <= v < beads@.len() && #[trigger] has_pred(beads@, v) implies exists|u: int|
            #[trigger] bead_edge(beads@, u, v) && (pairs@[v]).1 == (pairs@[u]).1 + 1 by {
            let u0 = choose|u: int| #[trigger] bead_edge(beads@, u, v);
            assert(g.edge(u0, v));
            assert(g.adj_has(u0, v));
            assert(g.pred_has(v, u0));
            assert(g.preds@[v]@.contains(u0 as usize));
            assert(g.preds@[v]@.len() > 0);
            assert(level_eq(g, lv@, v));
            let m = choose|m: int|
                0 <= m < g.preds@[v]@.len() && lv@[v] == lv@[#[trigger] g.preds@[v]@[m] as int] + 1;
            let w = g.preds@[v]@[m] as int;
            assert(g.preds@[v]@.contains(g.preds@[v]@[m]));
            assert(g.pred_has(v, w));
            assert(g.adj_has(w, v));
            assert(g.edge(w, v));
            assert(bead_edge(beads@, w, v) && (pairs@[v]).1 == (pairs@[w]).1 + 1);
        }
    }
    Ok(pairs)
}

} // verus!
