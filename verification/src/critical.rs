//! Critical-path analysis on an acyclic bead graph.
//!
//! A forward pass over a topological order computes each bead's
//! earliest finish; the total duration is the greatest earliest finish
//! over the sinks; a backward pass computes each bead's latest finish,
//! whose distance from the earliest finish is the bead's slack.  The
//! critical path is reconstructed by backtracking from the earliest
//! sink of maximum earliest finish; its members all have slack zero.

use vstd::prelude::*;
use crate::BeadNode;
use crate::graph::DepGraph;
use crate::graph::GraphError;
use crate::graph::GraphEdge;
use crate::graph::bead_edge;
use crate::graph::bead_index;
use crate::graph::beads_valid;
use crate::graph::build_graph;
use crate::graph::distinct_ids;
use crate::graph::known_id;
use crate::levels::has_pred;
use crate::topo::beads_acyclic;
use crate::topo::entries_below;
use crate::topo::kahn;
use crate::topo::lemma_acyclic_transfer;
use crate::topo::lemma_bead_index_of;
use crate::topo::lemma_cycle_flag;
use crate::topo::respects_edges;

verus! {

/// A bead's duration, zero when absent.
pub open spec fn dur_of(b: BeadNode) -> int {
    match b.duration {
        Some(d) => d as int,
        None => 0,
    }
}

/// The durations of all beads, in input order.
pub open spec fn durs(beads: Seq<BeadNode>) -> Seq<int> {
    beads.map_values(|b: BeadNode| dur_of(b))
}

/// Sum of a sequence of integers.
pub open spec fn sum_int(ds: Seq<int>) -> int
    decreases ds.len(),
{
    if ds.len() == 0 {
        0
    } else {
        sum_int(ds.drop_last()) + ds.last()
    }
}

/// Sum of all durations.
pub open spec fn sum_durations(beads: Seq<BeadNode>) -> int {
    sum_int(durs(beads))
}

/// Sum of the values of `ds` selected by the index list `s`.
pub open spec fn sum_picked(ds: Seq<int>, s: Seq<usize>) -> int
    decreases s.len(),
{
    if s.len() == 0 {
        0
    } else {
        sum_picked(ds, s.drop_last()) + ds[s.last() as int]
    }
}

proof fn lemma_sum_picked_push(ds: Seq<int>, s: Seq<usize>, x: usize)
    ensures
        sum_picked(ds, s.push(x)) == sum_picked(ds, s) + ds[x as int],
{
    assert(s.push(x).drop_last() =~= s);
    assert(s.push(x).last() == x);
}

proof fn lemma_sum_picked_congr(ds1: Seq<int>, ds2: Seq<int>, s: Seq<usize>)
    requires
        forall|k: int|
            0 <= k < s.len() ==> (#[trigger] s[k] as int) < ds1.len() && (s[k] as int) < ds2.len()
                && ds1[s[k] as int] == ds2[s[k] as int],
    ensures
        sum_picked(ds1, s) == sum_picked(ds2, s),
    decreases s.len(),
{
    if s.len() > 0 {
        let s1 = s.drop_last();
        assert(forall|k: int| 0 <= k < s1.len() ==> #[trigger] s1[k] == s[k]);
        lemma_sum_picked_congr(ds1, ds2, s1);
    }
}

proof fn lemma_sum_picked_remove(ds: Seq<int>, s: Seq<usize>, p: int)
    requires
        0 <= p < s.len(),
    ensures
        sum_picked(ds, s) == sum_picked(ds, s.remove(p)) + ds[s[p] as int],
    decreases s.len(),
{
    s.remove_ensures(p);
    if p == s.len() - 1 {
        assert(s.remove(p) =~= s.drop_last());
    } else {
        let s1 = s.drop_last();
        lemma_sum_picked_remove(ds, s1, p);
        s1.remove_ensures(p);
        assert(s.remove(p).drop_last() =~= s1.remove(p));
        assert(s.remove(p).last() == s.last());
    }
}

proof fn lemma_sum_picked_le(ds: Seq<int>, s: Seq<usize>)
    requires
        ds.len() <= usize::MAX,
        s.no_duplicates(),
        forall|k: int| 0 <= k < s.len() ==> (#[trigger] s[k] as int) < ds.len(),
        forall|k: int| 0 <= k < ds.len() ==> #[trigger] ds[k] >= 0,
    ensures
        sum_picked(ds, s) <= sum_int(ds),
        sum_picked(ds, s) >= 0,
    decreases ds.len(),
{
    if ds.len() == 0 {
        assert(s.len() == 0) by {
            if s.len() > 0 {
                assert((s[0] as int) < 0);
            }
        }
    } else {
        let dd = ds.drop_last();
        let li = ds.len() - 1;
        assert(forall|k: int| 0 <= k < dd.len() ==> #[trigger] dd[k] == ds[k]);
        if s.contains(li as usize) {
            let p = choose|p: int| 0 <= p < s.len() && s[p] == li as usize;
            lemma_sum_picked_remove(ds, s, p);
            s.remove_ensures(p);
            let s1 = s.remove(p);
            assert(s1.no_duplicates()) by {
                assert forall|i: int, j: int| 0 <= i < j < s1.len() implies s1[i] != s1[j] by {
                    if i < p {
                        if j < p {
                            assert(s1[i] == s[i] && s1[j] == s[j]);
                        } else {
                            assert(s1[i] == s[i] && s1[j] == s[j + 1]);
                        }
                    } else {
                        assert(s1[i] == s[i + 1] && s1[j] == s[j + 1]);
                    }
                }
            }
            assert forall|k: int| 0 <= k < s1.len() implies (#[trigger] s1[k] as int) < dd.len() by {
                if k < p {
                    assert(s1[k] == s[k]);
                    assert(s[k] != s[p]);
                } else {
                    assert(s1[k] == s[k + 1]);
                    assert(s[k + 1] != s[p]);
                }
            }
            lemma_sum_picked_congr(ds, dd, s1);
            lemma_sum_picked_le(dd, s1);
            assert(((li as usize) as int) == li);
            assert(ds[s[p] as int] == ds[li]);
            assert(sum_int(ds) == sum_int(dd) + ds[li]);
        } else {
            assert forall|k: int| 0 <= k < s.len() implies (#[trigger] s[k] as int) < dd.len() by {
                assert(s[k] != li as usize) by {
                    if s[k] == li as usize {
                        assert(s.contains(li as usize));
                    }
                }
            }
            lemma_sum_picked_congr(ds, dd, s);
            lemma_sum_picked_le(dd, s);
            assert(sum_int(ds) == sum_int(dd) + ds[li]);
        }
    }
}

/// The earliest-finish equations at node `v`: its duration, plus the
/// attained maximum of its predecessors' earliest finishes.
spec fn ef_eq(g: DepGraph, ds: Seq<int>, ef: Seq<u32>, v: int) -> bool {
    let ps = g.preds@[v]@;
    if ps.len() == 0 {
        ef[v] as int == ds[v]
    } else {
        &&& exists|m: int|
            0 <= m < ps.len() && ef[v] as int == ds[v] + ef[#[trigger] ps[m] as int] as int
        &&& forall|m: int|
            0 <= m < ps.len() ==> ef[v] as int >= ds[v] + ef[#[trigger] ps[m] as int] as int
    }
}

/// The latest-finish equations at node `v`: the total for sinks, else
/// the attained minimum over successors of latest finish minus the
/// successor's duration.
spec fn lf_eq(g: DepGraph, ds: Seq<int>, lf: Seq<u32>, total: u32, v: int) -> bool {
    let ss = g.adj@[v]@;
    if ss.len() == 0 {
        lf[v] == total
    } else {
        &&& exists|m: int|
            0 <= m < ss.len() && lf[v] as int == lf[#[trigger] ss[m] as int] as int - ds[ss[m] as int]
        &&& forall|m: int|
            0 <= m < ss.len() ==> lf[v] as int <= lf[#[trigger] ss[m] as int] as int - ds[ss[m] as int]
    }
}

/// Every successor of `ord[v_pos]` sits at a later position of a
/// complete emission order.
proof fn lemma_succ_position(g: DepGraph, ord: Seq<usize>, v_pos: int, w: usize)
    requires
        g.wf(),
        ord.len() == g.n(),
        ord.no_duplicates(),
        entries_below(ord, g.n()),
        respects_edges(g, ord),
        forall|v: int| 0 <= v < g.n() ==> #[trigger] ord.contains(v as usize),
        0 <= v_pos < ord.len(),
        g.adj@[ord[v_pos] as int]@.contains(w),
    ensures
        exists|q: int| v_pos < q < ord.len() && ord[q] == w,
{
    let v = ord[v_pos] as int;
    let mi = choose|mi: int| 0 <= mi < g.adj@[v]@.len() && g.adj@[v]@[mi] == w;
    assert((w as int) < g.n());
    assert(g.adj_has(v, w as int));
    assert(g.edge(v, w as int));
    assert(ord.contains((w as int) as usize));
    let q = choose|q: int| 0 <= q < ord.len() && ord[q] == w;
    if q <= v_pos {
        assert(!g.edge(ord[v_pos] as int, ord[q] as int));
    }
    assert(v_pos < q < ord.len() && ord[q] == w);
}

/// As `lemma_pred_position` in the levels module: predecessors sit
/// earlier in a complete emission order.
proof fn pred_position(g: DepGraph, ord: Seq<usize>, v_pos: int, p: usize)
    requires
        g.wf(),
        ord.len() == g.n(),
        ord.no_duplicates(),
        entries_below(ord, g.n()),
        respects_edges(g, ord),
        forall|v: int| 0 <= v < g.n() ==> #[trigger] ord.contains(v as usize),
        0 <= v_pos < ord.len(),
        g.preds@[ord[v_pos] as int]@.contains(p),
    ensures
        exists|q: int| 0 <= q < v_pos && ord[q] == p,
{
    let v = ord[v_pos] as int;
    let mi = choose|mi: int| 0 <= mi < g.preds@[v]@.len() && g.preds@[v]@[mi] == p;
    assert((p as int) < g.n());
    assert(g.pred_has(v, p as int));
    assert(g.adj_has(p as int, v));
    assert(g.edge(p as int, v));
    assert(ord.contains((p as int) as usize));
    let q = choose|q: int| 0 <= q < ord.len() && ord[q] == p;
    if q >= v_pos {
        assert(!g.edge(ord[q] as int, ord[v_pos] as int));
    }
    assert(0 <= q < v_pos && ord[q] == p);
}

/// Rewriting one position leaves the earliest-finish equations of the
/// earlier positions intact.
proof fn lemma_ef_update_preserves(
    g: DepGraph,
    ds: Seq<int>,
    ord: Seq<usize>,
    ef_old: Seq<u32>,
    ef_new: Seq<u32>,
    k: int,
)
    requires
        g.wf(),
        ord.len() == g.n(),
        ord.no_duplicates(),
        entries_below(ord, g.n()),
        respects_edges(g, ord),
        forall|v: int| 0 <= v < g.n() ==> #[trigger] ord.contains(v as usize),
        0 <= k < ord.len(),
        ef_old.len() == g.n(),
        ef_new.len() == g.n(),
        forall|x: int| 0 <= x < g.n() && x != ord[k] as int ==> ef_new[x] == ef_old[x],
        forall|k2: int| 0 <= k2 < k ==> ef_eq(g, ds, ef_old, #[trigger] ord[k2] as int),
    ensures
        forall|k2: int| 0 <= k2 < k ==> ef_eq(g, ds, ef_new, #[trigger] ord[k2] as int),
{
    assert forall|k2: int| 0 <= k2 < k implies ef_eq(g, ds, ef_new, #[trigger] ord[k2] as int) by {
        let v = ord[k2] as int;
        assert(ord[k2] != ord[k]);
        assert(ef_new[v] == ef_old[v]);
        let ps = g.preds@[v]@;
        assert forall|m: int| 0 <= m < ps.len() implies ef_new[#[trigger] ps[m] as int]
            == ef_old[ps[m] as int] by {
            assert(ps.contains(ps[m]));
            pred_position(g, ord, k2, ps[m]);
            let q = choose|q: int| 0 <= q < k2 && ord[q] == ps[m];
            assert(ord[q] != ord[k]);
        }
        if ps.len() > 0 {
            let m0 = choose|m: int|
                0 <= m < ps.len() && ef_old[v] as int == ds[v] + ef_old[ps[m] as int] as int;
            assert(ef_new[v] as int == ds[v] + ef_new[ps[m0] as int] as int);
        }
    }
}

/// Rewriting one position leaves the latest-finish equations of the
/// later positions intact.
proof fn lemma_lf_update_preserves(
    g: DepGraph,
    ds: Seq<int>,
    ord: Seq<usize>,
    lf_old: Seq<u32>,
    lf_new: Seq<u32>,
    total: u32,
    k: int,
)
    requires
        g.wf(),
        ord.len() == g.n(),
        ord.no_duplicates(),
        entries_below(ord, g.n()),
        respects_edges(g, ord),
        forall|v: int| 0 <= v < g.n() ==> #[trigger] ord.contains(v as usize),
        0 <= k < ord.len(),
        lf_old.len() == g.n(),
        lf_new.len() == g.n(),
        forall|x: int| 0 <= x < g.n() && x != ord[k] as int ==> lf_new[x] == lf_old[x],
        forall|k2: int| k < k2 < ord.len() ==> lf_eq(g, ds, lf_old, total, #[trigger] ord[k2] as int),
    ensures
        forall|k2: int| k < k2 < ord.len() ==> lf_eq(g, ds, lf_new, total, #[trigger] ord[k2] as int),
{
    assert forall|k2: int| k < k2 < ord.len() implies lf_eq(
        g,
        ds,
        lf_new,
        total,
        #[trigger] ord[k2] as int,
    ) by {
        let v = ord[k2] as int;
        assert(ord[k2] != ord[k]);
        assert(lf_new[v] == lf_old[v]);
        let ss = g.adj@[v]@;
        assert forall|m: int| 0 <= m < ss.len() implies lf_new[#[trigger] ss[m] as int]
            == lf_old[ss[m] as int] by {
            assert(ss.contains(ss[m]));
            lemma_succ_position(g, ord, k2, ss[m]);
            let q = choose|q: int| k2 < q < ord.len() && ord[q] == ss[m];
            assert(ord[q] != ord[k]);
        }
        if ss.len() > 0 {
            let m0 = choose|m: int|
                0 <= m < ss.len() && lf_old[v] as int == lf_old[ss[m] as int] as int - ds[ss[m] as int];
            assert(lf_new[v] as int == lf_new[ss[m0] as int] as int - ds[ss[m0] as int]);
        }
    }
}

} // verus!

verus! {

/// A bead's duration as an executable value.
fn dur_at(beads: &Vec<BeadNode>, i: usize) -> (d: u32)
    requires
        i < beads@.len(),
    ensures
        d as int == durs(beads@)[i as int],
{
    match beads[i].duration {
        Some(d) => d,
        None => 0,
    }
}

proof fn lemma_prefix_mono(ds: Seq<int>, ord: Seq<usize>, t1: int, t2: int)
    requires
        0 <= t1 <= t2 <= ord.len(),
        forall|k: int| 0 <= k < ord.len() ==> (#[trigger] ord[k] as int) < ds.len(),
        forall|k: int| 0 <= k < ds.len() ==> #[trigger] ds[k] >= 0,
    ensures
        sum_picked(ds, ord.subrange(0, t1)) <= sum_picked(ds, ord.subrange(0, t2)),
    decreases t2 - t1,
{
    if t1 < t2 {
        lemma_prefix_mono(ds, ord, t1, t2 - 1);
        assert(ord.subrange(0, t2).drop_last() =~= ord.subrange(0, t2 - 1));
        assert(ord.subrange(0, t2).last() == ord[t2 - 1]);
        assert(ds[ord[t2 - 1] as int] >= 0);
    }
}

/// Forward pass: earliest finish of each bead, in topological order.
#[verifier::rlimit(100)]
#[verifier::loop_isolation(false)]
fn forward_pass(beads: &Vec<BeadNode>, g: &DepGraph, ord: &Vec<usize>) -> (ef: Vec<u32>)
    requires
        g.wf(),
        g.n() == beads@.len(),
        sum_durations(beads@) <= u32::MAX,
        ord@.len() == g.n(),
        ord@.no_duplicates(),
        entries_below(ord@, g.n()),
        respects_edges(*g, ord@),
        forall|v: int| 0 <= v < g.n() ==> #[trigger] ord@.contains(v as usize),
    ensures
        ef@.len() == g.n(),
        forall|v: int| 0 <= v < g.n() ==> #[trigger] ef_eq(*g, durs(beads@), ef@, v),
        forall|v: int| 0 <= v < g.n() ==> (#[trigger] ef@[v]) as int <= sum_durations(beads@),
{
    let ghost ds = durs(beads@);
    let n = beads.len();
    proof {
        assert(ds.len() == n);
        assert(forall|k: int| 0 <= k < ds.len() ==> #[trigger] ds[k] >= 0);
        lemma_sum_picked_le(ds, ord@);
        assert(ord@.subrange(0, n as int) =~= ord@);
    }
    let mut ef: Vec<u32> = Vec::new();
    let mut t: usize = 0;
    while t < n
        invariant
            t <= n,
            ef@.len() == t,
        decreases n - t,
    {
        ef.push(0);
        t += 1;
    }
    let mut k: usize = 0;
    while k < n
        invariant
            g.wf(),
            n == g.n(),
            beads@.len() == n,
            ds == durs(beads@),
            sum_durations(beads@) <= u32::MAX,
            ord@.len() == n,
            ord@.no_duplicates(),
            entries_below(ord@, g.n()),
            respects_edges(*g, ord@),
            forall|v: int| 0 <= v < g.n() ==> #[trigger] ord@.contains(v as usize),
            k <= n,
            ef@.len() == n,
            forall|k2: int| 0 <= k2 < k ==> ef_eq(*g, ds, ef@, #[trigger] ord@[k2] as int),
            forall|k2: int|
                0 <= k2 < k ==> (#[trigger] ef@[ord@[k2] as int]) as int <= sum_picked(
                    ds,
                    ord@.subrange(0, k2 + 1),
                ),
        decreases n - k,
    {
        let vv = ord[k];
        let ghost ef_old = ef@;
        let d = dur_at(beads, vv);
        let plen = g.preds[vv].len();
        proof {
            lemma_prefix_mono(ds, ord@, k + 1, n as int);
            assert(ord@.subrange(0, n as int) =~= ord@);
            assert(ord@.subrange(0, k + 1).drop_last() =~= ord@.subrange(0, k as int));
            assert(ord@.subrange(0, k + 1).last() == ord@[k as int]);
        }
        proof {
            lemma_prefix_mono(ds, ord@, 0, k as int);
            assert(ord@.subrange(0, 0) =~= Seq::<usize>::empty());
        }
        if plen == 0 {
            ef[vv] = d;
            proof {
                lemma_ef_update_preserves(*g, ds, ord@, ef_old, ef@, k as int);
                assert(ef_eq(*g, ds, ef@, vv as int));
                assert(ef@[vv as int] as int <= sum_picked(ds, ord@.subrange(0, k + 1)));
            }
        } else {
            let mut best: u32 = 0;
            let mut j: usize = 0;
            while j < plen
                invariant
                    g.wf(),
                    n == g.n(),
                    ds == durs(beads@),
                    ord@.len() == n,
                    ord@.no_duplicates(),
                    entries_below(ord@, g.n()),
                    respects_edges(*g, ord@),
                    forall|v: int| 0 <= v < g.n() ==> #[trigger] ord@.contains(v as usize),
                    k < n,
                    (vv as int) < n,
                    vv == ord@[k as int],
                    plen == g.preds@[vv as int]@.len(),
                    j <= plen,
                    ef@.len() == n,
                    forall|k2: int| 0 <= k2 < k ==> ef_eq(*g, ds, ef@, #[trigger] ord@[k2] as int),
                    forall|k2: int|
                        0 <= k2 < k ==> (#[trigger] ef@[ord@[k2] as int]) as int <= sum_picked(
                            ds,
                            ord@.subrange(0, k2 + 1),
                        ),
                    best as int <= sum_picked(ds, ord@.subrange(0, k as int)),
                    forall|m: int|
                        0 <= m < j ==> (ef@[#[trigger] g.preds@[vv as int]@[m] as int]) as int
                            <= best as int,
                    (exists|m: int|
                        0 <= m < j && best == ef@[#[trigger] g.preds@[vv as int]@[m] as int])
                        || best == 0,
                decreases plen - j,
            {
                let p = g.preds[vv][j];
                proof {
                    assert(g.preds@[vv as int]@.contains(p));
                    pred_position(*g, ord@, k as int, p);
                    let q = choose|q: int| 0 <= q < k && ord@[q] == p;
                    assert(ef@[p as int] as int <= sum_picked(ds, ord@.subrange(0, q + 1)));
                    lemma_prefix_mono(ds, ord@, q + 1, k as int);
                }
                let cand = ef[p];
                if cand > best {
                    best = cand;
                }
                j += 1;
            }
            ef[vv] = d + best;
            proof {
                lemma_ef_update_preserves(*g, ds, ord@, ef_old, ef@, k as int);
                assert(ord@.contains(vv));
                assert(!g.edge(vv as int, vv as int));
                assert(!g.preds@[vv as int]@.contains(vv)) by {
                    if g.preds@[vv as int]@.contains(vv) {
                        assert(g.pred_has(vv as int, vv as int));
                        assert(g.adj_has(vv as int, vv as int));
                    }
                }
                assert forall|m: int| 0 <= m < plen implies ef@[#[trigger] g.preds@[vv as int]@[m] as int]
                    == ef_old[g.preds@[vv as int]@[m] as int] by {
                    assert(g.preds@[vv as int]@[m] != vv) by {
                        assert(g.preds@[vv as int]@.contains(g.preds@[vv as int]@[m]));
                    }
                }
                if exists|m: int|
                    0 <= m < plen && best == ef_old[#[trigger] g.preds@[vv as int]@[m] as int] {
                    let m0 = choose|m: int|
                        0 <= m < plen && best == ef_old[#[trigger] g.preds@[vv as int]@[m] as int];
                    assert(ef@[vv as int] as int == ds[vv as int] + ef@[g.preds@[vv as int]@[m0] as int] as int);
                } else {
                    assert(best == 0);
                    assert(ef_old[g.preds@[vv as int]@[0] as int] == 0);
                    assert(ef@[vv as int] as int == ds[vv as int] + ef@[g.preds@[vv as int]@[0] as int] as int);
                }
                assert(ef_eq(*g, ds, ef@, vv as int));
                assert(ef@[vv as int] as int <= sum_picked(ds, ord@.subrange(0, k + 1)));
            }
        }
        k += 1;
    }
    proof {
        assert forall|v: int| 0 <= v < n implies #[trigger] ef_eq(*g, durs(beads@), ef@, v) by {
            assert(ord@.contains(v as usize));
            let q = choose|q: int| 0 <= q < ord@.len() && ord@[q] == v as usize;
            assert(ef_eq(*g, ds, ef@, ord@[q] as int));
        }
        assert forall|v: int| 0 <= v < n implies (#[trigger] ef@[v]) as int <= sum_durations(
            beads@,
        ) by {
            assert(ord@.contains(v as usize));
            let q = choose|q: int| 0 <= q < ord@.len() && ord@[q] == v as usize;
            assert(ef@[ord@[q] as int] as int <= sum_picked(ds, ord@.subrange(0, q + 1)));
            lemma_prefix_mono(ds, ord@, q + 1, n as int);
            assert(ord@.subrange(0, n as int) =~= ord@);
        }
    }
    ef
}

} // verus!

verus! {

proof fn lemma_ef_ge_dur(g: DepGraph, ds: Seq<int>, ef: Seq<u32>, v: int)
    requires
        g.wf(),
        0 <= v < g.n(),
        ef.len() == g.n(),
        ef_eq(g, ds, ef, v),
    ensures
        ef[v] as int >= ds[v],
{
    let ps = g.preds@[v]@;
    if ps.len() > 0 {
        let m0 = choose|m: int| 0 <= m < ps.len() && ef[v] as int == ds[v] + ef[ps[m] as int] as int;
    }
}

/// Backward pass: latest finish of each bead, in reverse topological
/// order; establishes that every earliest finish is bounded by the
/// total and by the latest finish.
#[verifier::rlimit(100)]
#[verifier::loop_isolation(false)]
fn backward_pass(beads: &Vec<BeadNode>, g: &DepGraph, ord: &Vec<usize>, ef: &Vec<u32>, total: u32) -> (lf: Vec<u32>)
    requires
        g.wf(),
        g.n() == beads@.len(),
        ord@.len() == g.n(),
        ord@.no_duplicates(),
        entries_below(ord@, g.n()),
        respects_edges(*g, ord@),
        forall|v: int| 0 <= v < g.n() ==> #[trigger] ord@.contains(v as usize),
        ef@.len() == g.n(),
        forall|v: int| 0 <= v < g.n() ==> #[trigger] ef_eq(*g, durs(beads@), ef@, v),
        forall|v: int|
            0 <= v < g.n() && g.adj@[v]@.len() == 0 ==> (#[trigger] ef@[v]) as int <= total as int,
    ensures
        lf@.len() == g.n(),
        forall|v: int| 0 <= v < g.n() ==> #[trigger] lf_eq(*g, durs(beads@), lf@, total, v),
        forall|v: int| 0 <= v < g.n() ==> (#[trigger] ef@[v]) as int <= total as int,
        forall|v: int| 0 <= v < g.n() ==> (#[trigger] lf@[v]) as int >= ef@[v] as int,
        forall|v: int| 0 <= v < g.n() ==> (#[trigger] lf@[v]) as int <= total as int,
{
    let ghost ds = durs(beads@);
    let n = beads.len();
    let mut lf: Vec<u32> = Vec::new();
    let mut t: usize = 0;
    while t < n
        invariant
            t <= n,
            lf@.len() == t,
        decreases n - t,
    {
        lf.push(0);
        t += 1;
    }
    let mut k: usize = n;
    while k > 0
        invariant
            k <= n,
            lf@.len() == n,
            forall|q: int|
                k <= q < n ==> #[trigger] lf_eq(*g, ds, lf@, total, ord@[q] as int),
            forall|q: int| k <= q < n ==> (#[trigger] ef@[ord@[q] as int]) as int <= total as int,
            forall|q: int|
                k <= q < n ==> (#[trigger] lf@[ord@[q] as int]) as int >= ef@[ord@[q] as int] as int,
            forall|q: int| k <= q < n ==> (#[trigger] lf@[ord@[q] as int]) as int <= total as int,
        decreases k,
    {
        k -= 1;
        let vv = ord[k];
        let ghost lf_old = lf@;
        let slen = g.adj[vv].len();
        if slen == 0 {
            lf[vv] = total;
            proof {
                lemma_lf_update_preserves(*g, ds, ord@, lf_old, lf@, total, k as int);
                assert(lf_eq(*g, ds, lf@, total, vv as int));
                assert(ef@[vv as int] as int <= total as int);
            }
        } else {
            proof {
                assert(g.adj@[vv as int]@.contains(g.adj@[vv as int]@[0]));
                lemma_succ_position(*g, ord@, k as int, g.adj@[vv as int]@[0]);
            }
            let w0 = g.adj[vv][0];
            proof {
                let q0 = choose|q: int| k < q < ord@.len() && ord@[q] == w0;
                lemma_ef_ge_dur(*g, ds, ef@, w0 as int);
                assert(lf@[w0 as int] as int >= ef@[w0 as int] as int);
                assert(g.adj_has(vv as int, w0 as int));
                assert(g.pred_has(w0 as int, vv as int));
                assert(g.preds@[w0 as int]@.contains(vv));
                let mp = choose|m: int|
                    0 <= m < g.preds@[w0 as int]@.len() && g.preds@[w0 as int]@[m] == vv;
                assert(ef_eq(*g, ds, ef@, w0 as int));
                assert(ef@[w0 as int] as int >= ds[w0 as int] + ef@[vv as int] as int);
            }
            let d0 = dur_at(beads, w0);
            let mut mn: u32 = lf[w0] - d0;
            let mut j: usize = 1;
            while j < slen
                invariant
                    k < n,
                    (vv as int) < n,
                    vv == ord@[k as int],
                    slen == g.adj@[vv as int]@.len(),
                    1 <= j <= slen,
                    lf@.len() == n,
                    forall|q: int|
                        k < q < n ==> #[trigger] lf_eq(*g, ds, lf@, total, ord@[q] as int),
                    forall|q: int|
                        k < q < n ==> (#[trigger] ef@[ord@[q] as int]) as int <= total as int,
                    forall|q: int|
                        k < q < n ==> (#[trigger] lf@[ord@[q] as int]) as int >= ef@[ord@[
                            q] as int] as int,
                    forall|q: int|
                        k < q < n ==> (#[trigger] lf@[ord@[q] as int]) as int <= total as int,
                    forall|m: int|
                        0 <= m < j ==> mn as int <= lf@[#[trigger] g.adj@[vv as int]@[m] as int] as int
                            - ds[g.adj@[vv as int]@[m] as int],
                    exists|m: int|
                        0 <= m < j && mn as int == lf@[#[trigger] g.adj@[vv as int]@[m] as int] as int
                            - ds[g.adj@[vv as int]@[m] as int],
                    mn as int >= ef@[vv as int] as int,
                    mn as int <= total as int,
                decreases slen - j,
            {
                proof {
                    assert(g.adj@[vv as int]@.contains(g.adj@[vv as int]@[j as int]));
                    lemma_succ_position(*g, ord@, k as int, g.adj@[vv as int]@[j as int]);
                }
                let w = g.adj[vv][j];
                proof {
                    let q1 = choose|q: int| k < q < ord@.len() && ord@[q] == w;
                    lemma_ef_ge_dur(*g, ds, ef@, w as int);
                    assert(lf@[w as int] as int >= ef@[w as int] as int);
                    assert(g.adj_has(vv as int, w as int));
                    assert(g.pred_has(w as int, vv as int));
                    assert(g.preds@[w as int]@.contains(vv));
                    let mp = choose|m: int|
                        0 <= m < g.preds@[w as int]@.len() && g.preds@[w as int]@[m] == vv;
                    assert(ef_eq(*g, ds, ef@, w as int));
                    assert(ef@[w as int] as int >= ds[w as int] + ef@[vv as int] as int);
                }
                let d = dur_at(beads, w);
                let cand = lf[w] - d;
                if cand < mn {
                    mn = cand;
                }
                j += 1;
            }
            lf[vv] = mn;
            proof {
                lemma_lf_update_preserves(*g, ds, ord@, lf_old, lf@, total, k as int);
                assert(ord@.contains(vv));
                assert(!g.edge(vv as int, vv as int));
                assert(!g.adj@[vv as int]@.contains(vv)) by {
                    if g.adj@[vv as int]@.contains(vv) {
                        assert(g.adj_has(vv as int, vv as int));
                    }
                }
                assert forall|m: int| 0 <= m < slen implies lf@[#[trigger] g.adj@[vv as int]@[m] as int]
                    == lf_old[g.adj@[vv as int]@[m] as int] by {
                    assert(g.adj@[vv as int]@[m] != vv) by {
                        assert(g.adj@[vv as int]@.contains(g.adj@[vv as int]@[m]));
                    }
                }
                let m0 = choose|m: int|
                    0 <= m < slen && mn as int == lf_old[#[trigger] g.adj@[vv as int]@[m] as int] as int
                        - ds[g.adj@[vv as int]@[m] as int];
                assert(lf@[vv as int] as int == lf@[g.adj@[vv as int]@[m0] as int] as int - ds[
                    g.adj@[vv as int]@[m0] as int]);
                assert(lf_eq(*g, ds, lf@, total, vv as int));
                assert(ef@[vv as int] as int <= total as int);
            }
        }
    }
    proof {
        assert forall|v: int| 0 <= v < n implies #[trigger] lf_eq(*g, durs(beads@), lf@, total, v) by {
            assert(ord@.contains(v as usize));
            let q = choose|q: int| 0 <= q < ord@.len() && ord@[q] == v as usize;
            assert(lf_eq(*g, ds, lf@, total, ord@[q] as int));
        }
        assert forall|v: int| 0 <= v < n implies (#[trigger] ef@[v]) as int <= total as int by {
            assert(ord@.contains(v as usize));
            let q = choose|q: int| 0 <= q < ord@.len() && ord@[q] == v as usize;
            assert((ef@[ord@[q] as int]) as int <= total as int);
        }
        assert forall|v: int| 0 <= v < n implies (#[trigger] lf@[v]) as int >= ef@[v] as int && (
        lf@[v]) as int <= total as int by {
            assert(ord@.contains(v as usize));
            let q = choose|q: int| 0 <= q < ord@.len() && ord@[q] == v as usize;
            assert((lf@[ord@[q] as int]) as int >= ef@[ord@[q] as int] as int);
            assert((lf@[ord@[q] as int]) as int <= total as int);
        }
    }
    lf
}

} // verus!

verus! {

/// Some declared edge leaves `v`.
pub open spec fn has_succ(beads: Seq<BeadNode>, v: int) -> bool {
    exists|w: int| bead_edge(beads, v, w)
}

/// The earliest-finish equations over the bead-declared graph.
pub open spec fn ef_ok(beads: Seq<BeadNode>, ef: Seq<u32>) -> bool {
    &&& ef.len() == beads.len()
    &&& forall|v: int|
        0 <= v < beads.len() && !(#[trigger] has_pred(beads, v)) ==> ef[v] as int == dur_of(
            beads[v],
        )
    &&& forall|v: int|
        0 <= v < beads.len() && #[trigger] has_pred(beads, v) ==> exists|u: int|
            #[trigger] bead_edge(beads, u, v) && ef[v] as int == dur_of(beads[v]) + ef[u] as int
    &&& forall|u: int, v: int|
        #[trigger] bead_edge(beads, u, v) ==> ef[v] as int >= dur_of(beads[v]) + ef[u] as int
}

/// The latest-finish equations over the bead-declared graph.
pub open spec fn lf_ok(beads: Seq<BeadNode>, lf: Seq<u32>, total: u32) -> bool {
    &&& lf.len() == beads.len()
    &&& forall|v: int| 0 <= v < beads.len() && !(#[trigger] has_succ(beads, v)) ==> lf[v] == total
    &&& forall|v: int|
        0 <= v < beads.len() && #[trigger] has_succ(beads, v) ==> exists|w: int|
            #[trigger] bead_edge(beads, v, w) && lf[v] as int == lf[w] as int - dur_of(beads[w])
    &&& forall|v: int, w: int|
        #[trigger] bead_edge(beads, v, w) ==> lf[v] as int <= lf[w] as int - dur_of(beads[w])
}

/// The full consistency statement tying earliest and latest finishes,
/// the total duration, the slack table and the critical path together.
pub open spec fn cp_consistent(
    beads: Seq<BeadNode>,
    ef: Seq<u32>,
    lf: Seq<u32>,
    total: u32,
    slack: Seq<(String, u32)>,
    path: Seq<String>,
) -> bool {
    &&& ef_ok(beads, ef)
    &&& lf_ok(beads, lf, total)
    &&& forall|v: int| 0 <= v < beads.len() ==> (#[trigger] ef[v]) as int <= total as int
    &&& forall|v: int| 0 <= v < beads.len() ==> (#[trigger] ef[v]) as int <= lf[v] as int
    &&& slack.len() == beads.len()
    &&& forall|i: int|
        0 <= i < beads.len() ==> (#[trigger] slack[i]).1 as int == lf[i] as int - ef[i] as int
    &&& (beads.len() > 0 ==> exists|v: int|
        0 <= v < beads.len() && !has_succ(beads, v) && (#[trigger] ef[v]) as int == total as int)
    &&& forall|m: int|
        0 <= m < path.len() ==> lf[bead_index(beads, #[trigger] path[m]@)] == ef[bead_index(
            beads,
            path[m]@,
        )]
    &&& (path.len() > 0 ==> !has_succ(beads, bead_index(beads, path[path.len() - 1]@)) && ef[
        bead_index(beads, path[path.len() - 1]@)] == total && !has_pred(
        beads,
        bead_index(beads, path[0]@),
    ))
}

/// Critical-path result: the longest-duration chain, the minimum total
/// completion time, and each bead's slack, in input order.
#[derive(Debug)]
pub struct CriticalPathResult {
    pub path: Vec<String>,
    pub total_duration: u32,
    pub slack: Vec<(String, u32)>,
}

/// Index-level earliest/latest equations translate to the bead-level
/// statements through the edge correspondence.
proof fn lemma_cp_translate(beads: Seq<BeadNode>, g: DepGraph, ef: Seq<u32>, lf: Seq<u32>, total: u32)
    requires
        g.wf(),
        g.n() == beads.len(),
        beads.len() <= usize::MAX,
        forall|u: int, v: int| #[trigger] g.edge(u, v) <==> bead_edge(beads, u, v),
        ef.len() == g.n(),
        lf.len() == g.n(),
        forall|v: int| 0 <= v < g.n() ==> #[trigger] ef_eq(g, durs(beads), ef, v),
        forall|v: int| 0 <= v < g.n() ==> #[trigger] lf_eq(g, durs(beads), lf, total, v),
    ensures
        ef_ok(beads, ef),
        lf_ok(beads, lf, total),
        forall|v: int|
            0 <= v < beads.len() ==> (g.adj@[v]@.len() == 0 <==> !(#[trigger] has_succ(beads, v))),
        forall|v: int|
            0 <= v < beads.len() ==> (g.preds@[v]@.len() == 0 <==> !(#[trigger] has_pred(
                beads,
                v,
            ))),
{
    let ds = durs(beads);
    assert forall|v: int| 0 <= v < beads.len() implies (g.preds@[v]@.len() == 0 <==> !(
    #[trigger] has_pred(beads, v))) by {
        if g.preds@[v]@.len() > 0 {
            let p = g.preds@[v]@[0];
            assert(g.preds@[v]@.contains(p));
            assert(g.pred_has(v, p as int));
            assert(g.adj_has(p as int, v));
            assert(g.edge(p as int, v));
            assert(bead_edge(beads, p as int, v));
        }
        if has_pred(beads, v) {
            let u = choose|u: int| bead_edge(beads, u, v);
            assert(g.edge(u, v));
            assert(g.adj_has(u, v));
            assert(g.pred_has(v, u));
            assert(g.preds@[v]@.contains(u as usize));
        }
    }
    assert forall|v: int| 0 <= v < beads.len() implies (g.adj@[v]@.len() == 0 <==> !(
    #[trigger] has_succ(beads, v))) by {
        if g.adj@[v]@.len() > 0 {
            let w = g.adj@[v]@[0];
            assert(g.adj@[v]@.contains(w));
            assert(g.adj_has(v, w as int));
            assert((w as int) < g.n());
            assert(g.edge(v, w as int));
            assert(bead_edge(beads, v, w as int));
        }
        if has_succ(beads, v) {
            let w = choose|w: int| bead_edge(beads, v, w);
            assert(g.edge(v, w));
            assert(g.adj_has(v, w));
            assert(g.adj@[v]@.contains(w as usize));
        }
    }
    assert forall|v: int|
        0 <= v < beads.len() && !(#[trigger] has_pred(beads, v)) implies ef[v] as int == dur_of(
        beads[v],
    ) by {
        assert(ef_eq(g, ds, ef, v));
    }
    assert forall|v: int| 0 <= v < beads.len() && #[trigger] has_pred(beads, v) implies exists|u: int|
        #[trigger] bead_edge(beads, u, v) && ef[v] as int == dur_of(beads[v]) + ef[u] as int by {
        assert(ef_eq(g, ds, ef, v));
        let ps = g.preds@[v]@;
        assert(ps.len() > 0);
        let m0 = choose|m: int| 0 <= m < ps.len() && ef[v] as int == ds[v] + ef[ps[m] as int] as int;
        let u = ps[m0] as int;
        assert(ps.contains(ps[m0]));
        assert(g.pred_has(v, u));
        assert(g.adj_has(u, v));
        assert(g.edge(u, v));
        assert(bead_edge(beads, u, v) && ef[v] as int == dur_of(beads[v]) + ef[u] as int);
    }
    assert forall|u: int, v: int| #[trigger] bead_edge(beads, u, v) implies ef[v] as int >= dur_of(
        beads[v],
    ) + ef[u] as int by {
        assert(g.edge(u, v));
        assert(g.adj_has(u, v));
        assert(g.pred_has(v, u));
        assert(g.preds@[v]@.contains(u as usize));
        let m = choose|m: int| 0 <= m < g.preds@[v]@.len() && g.preds@[v]@[m] == u as usize;
        assert(g.preds@[v]@.len() > 0);
        assert(ef_eq(g, ds, ef, v));
        assert(ef[v] as int >= ds[v] + ef[g.preds@[v]@[m] as int] as int);
        assert(g.preds@[v]@[m] as int == u);
    }
    assert forall|v: int|
        0 <= v < beads.len() && !(#[trigger] has_succ(beads, v)) implies lf[v] == total by {
        assert(lf_eq(g, ds, lf, total, v));
    }
    assert forall|v: int| 0 <= v < beads.len() && #[trigger] has_succ(beads, v) implies exists|w: int|
        #[trigger] bead_edge(beads, v, w) && lf[v] as int == lf[w] as int - dur_of(beads[w]) by {
        assert(lf_eq(g, ds, lf, total, v));
        let ss = g.adj@[v]@;
        assert(ss.len() > 0);
        let m0 = choose|m: int|
            0 <= m < ss.len() && lf[v] as int == lf[ss[m] as int] as int - ds[ss[m] as int];
        let w = ss[m0] as int;
        assert(ss.contains(ss[m0]));
        assert(g.adj_has(v, w));
        assert(g.edge(v, w));
        assert(bead_edge(beads, v, w) && lf[v] as int == lf[w] as int - dur_of(beads[w]));
    }
    assert forall|v: int, w: int| #[trigger] bead_edge(beads, v, w) implies lf[v] as int <= lf[
        w] as int - dur_of(beads[w]) by {
        assert(g.edge(v, w));
        assert(g.adj_has(v, w));
        assert(g.adj@[v]@.contains(w as usize));
        let m = choose|m: int| 0 <= m < g.adj@[v]@.len() && g.adj@[v]@[m] == w as usize;
        assert(g.adj@[v]@.len() > 0);
        assert(lf_eq(g, ds, lf, total, v));
        assert(lf[v] as int <= lf[g.adj@[v]@[m] as int] as int - ds[g.adj@[v]@[m] as int]);
        assert(g.adj@[v]@[m] as int == w);
    }
}

proof fn lemma_sum_int_nonneg(ds: Seq<int>)
    requires
        forall|k: int| 0 <= k < ds.len() ==> #[trigger] ds[k] >= 0,
    ensures
        sum_int(ds) >= 0,
    decreases ds.len(),
{
    if ds.len() > 0 {
        let dd = ds.drop_last();
        assert(forall|k: int| 0 <= k < dd.len() ==> #[trigger] dd[k] == ds[k]);
        lemma_sum_int_nonneg(dd);
    }
}

} // verus!

verus! {

proof fn lemma_sum_int_prefix_le(ds: Seq<int>, t: int)
    requires
        0 <= t <= ds.len(),
        forall|k: int| 0 <= k < ds.len() ==> #[trigger] ds[k] >= 0,
    ensures
        sum_int(ds.subrange(0, t)) <= sum_int(ds),
    decreases ds.len(),
{
    if t == ds.len() {
        assert(ds.subrange(0, t) =~= ds);
    } else {
        let dd = ds.drop_last();
        assert(forall|k: int| 0 <= k < dd.len() ==> #[trigger] dd[k] == ds[k]);
        lemma_sum_int_prefix_le(dd, t);
        assert(ds.subrange(0, t) =~= dd.subrange(0, t));
    }
}

/// Whether the sum of all durations fits the result type of the
/// critical-path analysis.
#[verifier::loop_isolation(false)]
pub fn durations_fit(beads: &Vec<BeadNode>) -> (r: bool)
    ensures
        r == (sum_durations(beads@) <= u32::MAX),
{
    let ghost ds = durs(beads@);
    proof {
        assert(forall|k: int| 0 <= k < ds.len() ==> #[trigger] ds[k] >= 0);
    }
    let n = beads.len();
    let mut acc: u64 = 0;
    let mut i: usize = 0;
    while i < n
        invariant
            i <= n,
            acc as int == sum_int(ds.subrange(0, i as int)),
            acc <= u32::MAX as u64,
        decreases n - i,
    {
        let d = dur_at(beads, i);
        proof {
            assert(ds.subrange(0, i + 1).drop_last() =~= ds.subrange(0, i as int));
            assert(ds.subrange(0, i + 1).last() == ds[i as int]);
        }
        acc = acc + d as u64;
        i += 1;
        if acc > u32::MAX as u64 {
            proof {
                lemma_sum_int_prefix_le(ds, i as int);
            }
            return false;
        }
    }
    proof {
        assert(ds.subrange(0, n as int) =~= ds);
    }
    true
}

/// Everything a successful critical-path result promises about
/// `beads`: the total never exceeds the durations' sum; the slack
/// table covers every bead in input order; the path is a chain of
/// declared edges from a predecessor-free bead to a successor-free
/// bead of maximal earliest finish, every member of which has zero
/// slack; and earliest/latest finish witnesses tie it all together.
pub open spec fn cp_ok(
    beads: Seq<BeadNode>,
    path: Seq<String>,
    total: u32,
    slack: Seq<(String, u32)>,
) -> bool {
    &&& total as int <= sum_durations(beads)
    &&& slack.len() == beads.len()
    &&& forall|i: int| 0 <= i < beads.len() ==> (#[trigger] slack[i]).0@ == beads[i].id@
    &&& (beads.len() == 0 ==> total == 0 && path.len() == 0)
    &&& (beads.len() > 0 ==> path.len() > 0)
    &&& forall|m: int| 0 <= m < path.len() ==> known_id(beads, #[trigger] path[m]@)
    &&& forall|m: int|
        0 <= m < path.len() - 1 ==> bead_edge(
            beads,
            bead_index(beads, #[trigger] path[m]@),
            bead_index(beads, path[m + 1]@),
        )
    &&& forall|m: int|
        0 <= m < path.len() ==> (#[trigger] slack[bead_index(beads, path[m]@)]).1 == 0
    &&& exists|ef: Seq<u32>, lf: Seq<u32>| cp_consistent(beads, ef, lf, total, slack, path)
}

/// Backtrack the critical path from `start`, following at each step
/// the first predecessor whose earliest finish accounts for the
/// current node's; returns the path ids and the ghost index chain in
/// reverse order.
#[verifier::rlimit(100)]
#[verifier::loop_isolation(false)]
fn build_path(
    beads: &Vec<BeadNode>,
    g: &DepGraph,
    ord: &Vec<usize>,
    ef: &Vec<u32>,
    lf: &Vec<u32>,
    total: u32,
    start: usize,
) -> (pr: (Vec<String>, Ghost<Seq<usize>>))
    requires
        g.wf(),
        g.n() == beads@.len(),
        ord@.len() == g.n(),
        ord@.no_duplicates(),
        entries_below(ord@, g.n()),
        respects_edges(*g, ord@),
        forall|v: int| 0 <= v < g.n() ==> #[trigger] ord@.contains(v as usize),
        ef@.len() == g.n(),
        lf@.len() == g.n(),
        forall|v: int| 0 <= v < g.n() ==> #[trigger] ef_eq(*g, durs(beads@), ef@, v),
        forall|v: int| 0 <= v < g.n() ==> #[trigger] lf_eq(*g, durs(beads@), lf@, total, v),
        forall|v: int| 0 <= v < g.n() ==> (#[trigger] lf@[v]) as int >= ef@[v] as int,
        (start as int) < g.n(),
        lf@[start as int] == ef@[start as int],
    ensures
        ({
            let path = pr.0@;
            let rev = pr.1@;
            &&& rev.len() >= 1
            &&& path.len() == rev.len()
            &&& forall|m: int| 0 <= m < rev.len() ==> (#[trigger] rev[m] as int) < g.n()
            &&& rev[0] == start
            &&& forall|m: int|
                0 <= m < rev.len() - 1 ==> g.edge(#[trigger] rev[m + 1] as int, rev[m] as int)
            &&& forall|m: int|
                0 <= m < rev.len() ==> lf@[#[trigger] rev[m] as int] == ef@[rev[m] as int]
            &&& g.preds@[rev[rev.len() - 1] as int]@.len() == 0
            &&& forall|m: int|
                0 <= m < path.len() ==> #[trigger] path[m]@ == beads@[rev[rev.len() - 1
                    - m] as int].id@
        }),
{
    let ghost ds = durs(beads@);
    let n = beads.len();
    let mut rev: Vec<usize> = Vec::new();
    rev.push(start);
    let mut cur: usize = start;
    proof {
        assert(ord@.contains((start as int) as usize));
    }
    let ghost mut kcur: int = choose|q: int| 0 <= q < ord@.len() && ord@[q] == start;
    proof {
        assert(0 <= kcur < n && ord@[kcur] == cur);
    }
    while g.preds[cur].len() > 0
        invariant
            (cur as int) < n,
            0 <= kcur < n,
            ord@[kcur] == cur,
            rev@.len() >= 1,
            rev@[rev@.len() - 1] == cur,
            rev@[0] == start,
            forall|m: int| 0 <= m < rev@.len() ==> (#[trigger] rev@[m] as int) < n,
            forall|m: int|
                0 <= m < rev@.len() - 1 ==> g.edge(#[trigger] rev@[m + 1] as int, rev@[m] as int),
            forall|m: int|
                0 <= m < rev@.len() ==> lf@[#[trigger] rev@[m] as int] == ef@[rev@[m] as int],
        decreases kcur,
    {
        let plen = g.preds[cur].len();
        let dcur = dur_at(beads, cur);
        proof {
            lemma_ef_ge_dur(*g, ds, ef@, cur as int);
        }
        let target = ef[cur] - dcur;
        let mut pick: usize = 0;
        let mut pfound = false;
        let mut j: usize = 0;
        while j < plen
            invariant
                (cur as int) < n,
                plen == g.preds@[cur as int]@.len(),
                j <= plen,
                target as int == ef@[cur as int] as int - ds[cur as int],
                pfound ==> g.preds@[cur as int]@.contains(pick) && ef@[pick as int] as int
                    == target as int && (pick as int) < n,
                !pfound ==> forall|m: int|
                    0 <= m < j ==> (ef@[#[trigger] g.preds@[cur as int]@[m] as int]) as int
                        != target as int,
            decreases plen - j,
        {
            if !pfound {
                let p = g.preds[cur][j];
                proof {
                    assert(g.preds@[cur as int]@.contains(p));
                }
                let e = ef[p];
                if e == target {
                    pick = p;
                    pfound = true;
                }
            }
            j += 1;
        }
        proof {
            assert(ef_eq(*g, ds, ef@, cur as int));
            if !pfound {
                let m0 = choose|m: int|
                    0 <= m < plen && ef@[cur as int] as int == ds[cur as int] + ef@[#[trigger] g.preds@[
                        cur as int]@[m] as int] as int;
                assert((ef@[g.preds@[cur as int]@[m0] as int]) as int == target as int);
            }
            assert(pfound);
            assert(g.pred_has(cur as int, pick as int));
            assert(g.adj_has(pick as int, cur as int));
            assert(g.edge(pick as int, cur as int));
            pred_position(*g, ord@, kcur, pick);
            let q = choose|q: int| 0 <= q < kcur && ord@[q] == pick;
            // the chosen predecessor also has zero slack
            assert(lf_eq(*g, ds, lf@, total, pick as int));
            assert(g.adj@[pick as int]@.contains(cur));
            let mc = choose|m: int|
                0 <= m < g.adj@[pick as int]@.len() && g.adj@[pick as int]@[m] == cur;
            assert(lf@[pick as int] as int <= lf@[g.adj@[pick as int]@[mc] as int] as int - ds[
                g.adj@[pick as int]@[mc] as int]);
            assert(lf@[pick as int] as int <= lf@[cur as int] as int - ds[cur as int]);
            assert(lf@[cur as int] == ef@[cur as int]);
            assert(lf@[pick as int] as int <= ef@[pick as int] as int);
            assert(lf@[pick as int] as int >= ef@[pick as int] as int);
            kcur = q;
        }
        rev.push(pick);
        cur = pick;
    }
    let rl = rev.len();
    let mut path: Vec<String> = Vec::new();
    let mut t: usize = rl;
    while t > 0
        invariant
            t <= rl,
            rl == rev@.len(),
            path@.len() == rl - t,
            forall|m: int|
                0 <= m < path@.len() ==> #[trigger] path@[m]@ == beads@[rev@[rl - 1 - m] as int].id@,
        decreases t,
    {
        t -= 1;
        let idx = rev[t];
        path.push(beads[idx].id.clone());
    }
    (path, Ghost(rev@))
}

/// Assembling the passes' guarantees into the public critical-path
/// statement.
#[verifier::rlimit(100)]
proof fn lemma_cp_finish(
    beads: Seq<BeadNode>,
    g: DepGraph,
    ef: Seq<u32>,
    lf: Seq<u32>,
    total: u32,
    slack: Seq<(String, u32)>,
    path: Seq<String>,
    rev: Seq<usize>,
)
    requires
        distinct_ids(beads),
        beads.len() <= usize::MAX,
        beads.len() > 0,
        g.wf(),
        g.n() == beads.len(),
        forall|u: int, v: int| #[trigger] g.edge(u, v) <==> bead_edge(beads, u, v),
        ef.len() == g.n(),
        lf.len() == g.n(),
        forall|v: int| 0 <= v < g.n() ==> #[trigger] ef_eq(g, durs(beads), ef, v),
        forall|v: int| 0 <= v < g.n() ==> #[trigger] lf_eq(g, durs(beads), lf, total, v),
        forall|v: int| 0 <= v < g.n() ==> (#[trigger] ef[v]) as int <= total as int,
        forall|v: int| 0 <= v < g.n() ==> (#[trigger] lf[v]) as int >= ef[v] as int,
        total as int <= sum_durations(beads),
        exists|v2: int| 0 <= v2 < g.n() && g.adj@[v2]@.len() == 0 && ef[v2] == total,
        slack.len() == beads.len(),
        forall|m: int|
            0 <= m < slack.len() ==> (#[trigger] slack[m]).0@ == beads[m].id@ && slack[m].1 as int
                == lf[m] as int - ef[m] as int,
        rev.len() >= 1,
        path.len() == rev.len(),
        forall|m: int| 0 <= m < rev.len() ==> (#[trigger] rev[m] as int) < g.n(),
        g.adj@[rev[0] as int]@.len() == 0,
        ef[rev[0] as int] == total,
        forall|m: int|
            0 <= m < rev.len() - 1 ==> g.edge(#[trigger] rev[m + 1] as int, rev[m] as int),
        forall|m: int| 0 <= m < rev.len() ==> lf[#[trigger] rev[m] as int] == ef[rev[m] as int],
        g.preds@[rev[rev.len() - 1] as int]@.len() == 0,
        forall|m: int|
            0 <= m < path.len() ==> #[trigger] path[m]@ == beads[rev[rev.len() - 1 - m] as int].id@,
    ensures
        cp_ok(beads, path, total, slack),
{
    let rl = rev.len() as int;
    lemma_cp_translate(beads, g, ef, lf, total);
    assert forall|m: int| 0 <= m < path.len() implies known_id(beads, #[trigger] path[m]@) by {
        assert(path[m]@ == beads[rev[rl - 1 - m] as int].id@);
    }
    assert forall|m: int| 0 <= m < path.len() implies bead_index(beads, #[trigger] path[m]@)
        == rev[rl - 1 - m] as int by {
        lemma_bead_index_of(beads, rev[rl - 1 - m] as int);
    }
    assert forall|m: int| 0 <= m < path.len() - 1 implies bead_edge(
        beads,
        bead_index(beads, #[trigger] path[m]@),
        bead_index(beads, path[m + 1]@),
    ) by {
        let m2 = rl - 2 - m;
        assert(g.edge(rev[m2 + 1] as int, rev[m2] as int));
        assert(bead_index(beads, path[m]@) == rev[rl - 1 - m] as int);
        assert(bead_index(beads, path[m + 1]@) == rev[rl - 2 - m] as int);
    }
    assert forall|m: int| 0 <= m < path.len() implies (#[trigger] slack[bead_index(
        beads,
        path[m]@,
    )]).1 == 0 by {
        let idx = rev[rl - 1 - m] as int;
        assert(lf[idx] == ef[idx]);
        assert(slack[idx].1 as int == lf[idx] as int - ef[idx] as int);
    }
    assert forall|m: int| 0 <= m < path.len() implies lf[bead_index(
        beads,
        #[trigger] path[m]@,
    )] == ef[bead_index(beads, path[m]@)] by {
        let idx = rev[rl - 1 - m] as int;
        assert(lf[idx] == ef[idx]);
    }
    let start = rev[0] as int;
    assert(bead_index(beads, path[path.len() - 1]@) == start);
    assert(!has_succ(beads, start)) by {
        if has_succ(beads, start) {
            let w = choose|w: int| bead_edge(beads, start, w);
            assert(g.edge(start, w));
            assert(g.adj_has(start, w));
            assert(g.adj@[start]@.contains(w as usize));
        }
    }
    let first = rev[rl - 1] as int;
    assert(bead_index(beads, path[0]@) == first);
    assert(!has_pred(beads, first)) by {
        if has_pred(beads, first) {
            let u = choose|u: int| bead_edge(beads, u, first);
            assert(g.edge(u, first));
            assert(g.adj_has(u, first));
            assert(g.pred_has(first, u));
            assert(g.preds@[first]@.contains(u as usize));
        }
    }
    assert(exists|v: int|
        0 <= v < beads.len() && !has_succ(beads, v) && (#[trigger] ef[v]) as int
            == total as int) by {
        assert(0 <= start < beads.len() && !has_succ(beads, start) && ef[start] as int
            == total as int);
    }
    assert(cp_consistent(beads, ef, lf, total, slack, path));
}

/// Critical-path analysis: the longest-duration chain through the
/// bead-declared graph, the total project duration, and every bead's
/// slack.  Fails with `CyclicGraph` on a cyclic graph and `UnknownNode`
/// on a dangling reference.
#[verifier::rlimit(100)]
#[verifier::loop_isolation(false)]
pub fn critical_path(beads: &Vec<BeadNode>) -> (r: Result<CriticalPathResult, GraphError>)
    requires
        distinct_ids(beads@),
        sum_durations(beads@) <= u32::MAX,
    ensures
        match r {
            Ok(res) => beads_valid(beads@) && beads_acyclic(beads@) && cp_ok(
                beads@,
                res.path@,
                res.total_duration,
                res.slack@,
            ),
            Err(e) => (e == GraphError::UnknownNode && !beads_valid(beads@)) || (e
                == GraphError::CyclicGraph && beads_valid(beads@) && !beads_acyclic(beads@)),
        },
{
    let empty_edges: Vec<GraphEdge> = Vec::new();
    let g = match build_graph(beads, &empty_edges) {
        Ok(g) => g,
        Err(e) => {
            return Err(GraphError::UnknownNode);
        },
    };
    let n = beads.len();
    let (ord, hc) = kahn(&g);
    proof {
        assert forall|u: int, v: int| #[trigger] g.edge(u, v) <==> bead_edge(beads@, u, v) by {
            if crate::graph::edge_listed(empty_edges@, beads@, u, v) {
                let k = choose|k: int|
                    0 <= k < empty_edges@.len() && empty_edges@[k].from@ == beads@[u].id@
                        && empty_edges@[k].to@ == beads@[v].id@;
            }
        }
        lemma_cycle_flag(g, ord@);
        lemma_acyclic_transfer(g, beads@);
        assert(forall|k: int| 0 <= k < durs(beads@).len() ==> #[trigger] durs(beads@)[k] >= 0);
        lemma_sum_int_nonneg(durs(beads@));
    }
    if hc {
        return Err(GraphError::CyclicGraph);
    }
    if n == 0 {
        let res = CriticalPathResult { path: Vec::new(), total_duration: 0, slack: Vec::new() };
        proof {
            let e0 = Seq::<u32>::empty();
            assert(cp_consistent(beads@, e0, e0, 0u32, res.slack@, res.path@));
            assert(cp_ok(beads@, res.path@, res.total_duration, res.slack@));
        }
        return Ok(res);
    }
    let ghost ds = durs(beads@);
    let ef = forward_pass(beads, &g, &ord);
    let mut total: u32 = 0;
    let mut v: usize = 0;
    while v < n
        invariant
            v <= n,
            forall|v2: int|
                0 <= v2 < v && g.adj@[v2]@.len() == 0 ==> (#[trigger] ef@[v2]) as int
                    <= total as int,
            (exists|v2: int| 0 <= v2 < v && g.adj@[v2]@.len() == 0 && ef@[v2] == total) || total
                == 0,
            total as int <= sum_durations(beads@),
        decreases n - v,
    {
        let slen = g.adj[v].len();
        if slen == 0 {
            let e = ef[v];
            if e > total {
                total = e;
            }
        }
        v += 1;
    }
    proof {
        // the last emitted node is always a sink
        let lastv = ord@[n - 1];
        if g.adj@[lastv as int]@.len() > 0 {
            assert(g.adj@[lastv as int]@.contains(g.adj@[lastv as int]@[0]));
            lemma_succ_position(g, ord@, n - 1, g.adj@[lastv as int]@[0]);
        }
        assert((lastv as int) < n);
        if !(exists|v2: int| 0 <= v2 < n && g.adj@[v2]@.len() == 0 && ef@[v2] == total) {
            assert(total == 0);
            assert(ef@[lastv as int] as int <= total as int);
            assert(ef@[lastv as int] == total);
            assert(false);
        }
    }
    let lf = backward_pass(beads, &g, &ord, &ef, total);
    let mut slack: Vec<(String, u32)> = Vec::new();
    let mut i: usize = 0;
    while i < n
        invariant
            i <= n,
            slack@.len() == i,
            forall|m: int|
                0 <= m < i ==> (#[trigger] slack@[m]).0@ == beads@[m].id@ && slack@[m].1 as int
                    == lf@[m] as int - ef@[m] as int,
        decreases n - i,
    {
        let idc = beads[i].id.clone();
        let sv = lf[i] - ef[i];
        slack.push((idc, sv));
        i += 1;
    }
    let mut start: usize = 0;
    let mut found = false;
    let mut v2: usize = 0;
    while v2 < n
        invariant
            v2 <= n,
            found ==> (start as int) < n && g.adj@[start as int]@.len() == 0 && ef@[start as int]
                == total,
            !found ==> forall|v3: int|
                0 <= v3 < v2 ==> !(g.adj@[v3]@.len() == 0 && (#[trigger] ef@[v3]) == total),
        decreases n - v2,
    {
        if !found {
            let slen = g.adj[v2].len();
            if slen == 0 {
                let e = ef[v2];
                if e == total {
                    start = v2;
                    found = true;
                }
            }
        }
        v2 += 1;
    }
    proof {
        if !found {
            let vw = choose|vw: int| 0 <= vw < n && g.adj@[vw]@.len() == 0 && ef@[vw] == total;
            assert(!(g.adj@[vw]@.len() == 0 && ef@[vw] == total));
        }
        assert(found);
        assert(lf@[start as int] == ef@[start as int]);
    }
    let (path, rev) = build_path(beads, &g, &ord, &ef, &lf, total, start);
    let res = CriticalPathResult { path, total_duration: total, slack };
    proof {
        lemma_cp_finish(beads@, g, ef@, lf@, total, res.slack@, res.path@, rev@);
    }
    Ok(res)
}

} // verus!
