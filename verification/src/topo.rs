//! Topological sorting by Kahn's algorithm, with cycle detection.
//!
//! The ready queue is seeded with all zero-in-degree nodes in input
//! order and processed first-in first-out; a successor is enqueued the
//! moment its in-degree reaches zero.  Ties among simultaneously ready
//! nodes are thus broken by input order, making the output a
//! deterministic function of the input.

use vstd::prelude::*;
use crate::BeadNode;
use crate::graph::DepGraph;
use crate::graph::GraphError;
use crate::graph::GraphEdge;
use crate::graph::bead_edge;
use crate::graph::bead_index;
use crate::graph::beads_valid;
use crate::graph::build_graph;
use crate::graph::distinct_ids;
use crate::graph::known_id;
use crate::graph::lists_id;

verus! {

/// Every entry of `s` is an index below `n`.
pub open spec fn entries_below(s: Seq<usize>, n: int) -> bool {
    forall|k: int| 0 <= k < s.len() ==> (#[trigger] s[k]) < n
}

/// No edge of `g` points from a later to an earlier (or the same)
/// position of `ord`; in particular no member of `ord` has a self-loop.
pub open spec fn respects_edges(g: DepGraph, ord: Seq<usize>) -> bool {
    forall|k1: int, k2: int|
        0 <= k1 <= k2 < ord.len() ==> !g.edge(#[trigger] ord[k2] as int, #[trigger] ord[k1] as int)
}

/// `ord` is a complete topological order of `g`.
pub open spec fn valid_order(g: DepGraph, ord: Seq<usize>) -> bool {
    &&& ord.no_duplicates()
    &&& ord.len() == g.n()
    &&& entries_below(ord, g.n())
    &&& respects_edges(g, ord)
}

/// A graph is acyclic exactly when some complete topological order of
/// it exists.
pub open spec fn is_acyclic(g: DepGraph) -> bool {
    exists|ord: Seq<usize>| valid_order(g, ord)
}

/// How many entries of `s` lie outside `em`.
pub open spec fn count_outside(s: Seq<usize>, em: Seq<usize>) -> nat
    decreases s.len(),
{
    if s.len() == 0 {
        0
    } else {
        count_outside(s.drop_last(), em) + if em.contains(s.last()) {
            0nat
        } else {
            1nat
        }
    }
}

proof fn lemma_count_outside_empty(s: Seq<usize>, em: Seq<usize>)
    requires
        em.len() == 0,
    ensures
        count_outside(s, em) == s.len(),
    decreases s.len(),
{
    if s.len() > 0 {
        lemma_count_outside_empty(s.drop_last(), em);
    }
}

proof fn lemma_count_outside_zero(s: Seq<usize>, em: Seq<usize>)
    ensures
        (count_outside(s, em) == 0) <==> (forall|i: int|
            0 <= i < s.len() ==> em.contains(#[trigger] s[i])),
    decreases s.len(),
{
    if s.len() > 0 {
        lemma_count_outside_zero(s.drop_last(), em);
        assert(forall|i: int| 0 <= i < s.len() - 1 ==> s[i] == #[trigger] s.drop_last()[i]);
        if count_outside(s, em) == 0 {
            assert forall|i: int| 0 <= i < s.len() implies em.contains(#[trigger] s[i]) by {
                if i < s.len() - 1 {
                    assert(em.contains(s.drop_last()[i]));
                } else {
                    assert(em.contains(s.last()));
                }
            }
        } else {
            if forall|i: int| 0 <= i < s.len() ==> em.contains(#[trigger] s[i]) {
                assert forall|i: int| 0 <= i < s.len() - 1 implies em.contains(
                    #[trigger] s.drop_last()[i],
                ) by {
                    assert(em.contains(s[i]));
                }
                assert(em.contains(s.last()));
                assert(count_outside(s, em) == 0);
            }
        }
    }
}

proof fn lemma_count_outside_push(s: Seq<usize>, em: Seq<usize>, u: usize)
    requires
        s.no_duplicates(),
        !em.contains(u),
    ensures
        s.contains(u) ==> count_outside(s, em.push(u)) + 1 == count_outside(s, em),
        !s.contains(u) ==> count_outside(s, em.push(u)) == count_outside(s, em),
    decreases s.len(),
{
    crate::graph::lemma_push_contains(em, u);
    if s.len() > 0 {
        let s1 = s.drop_last();
        let l = s.last();
        assert(s1.no_duplicates());
        lemma_count_outside_push(s1, em, u);
        assert(s =~= s1.push(l));
        crate::graph::lemma_push_contains(s1, l);
        if l == u {
            assert(s.contains(u)) by {
                assert(s[s.len() - 1] == u);
            }
            assert(!s1.contains(u)) by {
                if s1.contains(u) {
                    let m = choose|m: int| 0 <= m < s1.len() && s1[m] == u;
                    assert(s[m] == s[s.len() - 1]);
                }
            }
            assert(em.push(u).contains(l));
        } else {
            assert(em.push(u).contains(l) <==> em.contains(l));
            assert(s.contains(u) <==> s1.contains(u));
        }
    }
}

/// A duplicate-free sequence of indices below `n` has at most `n`
/// entries, and exactly `n` entries only when it holds every index.
proof fn lemma_pigeonhole(s: Seq<usize>, n: nat)
    requires
        s.no_duplicates(),
        entries_below(s, n as int),
    ensures
        s.len() <= n,
        s.len() == n ==> forall|v: int| 0 <= v < n ==> #[trigger] s.contains(v as usize),
{
    broadcast use vstd::seq_lib::seq_to_set_is_finite;

    let si = Seq::new(s.len(), |k: int| s[k] as int);
    assert(si.no_duplicates()) by {
        assert forall|i: int, j: int| 0 <= i < j < si.len() implies si[i] != si[j] by {
            assert(s[i] != s[j]);
        }
    }
    si.unique_seq_to_set();
    let range = vstd::set_lib::set_int_range(0, n as int);
    vstd::set_lib::lemma_int_range(0, n as int);
    assert(si.to_set().subset_of(range)) by {
        assert forall|x: int| si.to_set().contains(x) implies range.contains(x) by {
            let k = choose|k: int| 0 <= k < si.len() && si[k] == x;
            assert(s[k] < n);
        }
    }
    vstd::set_lib::lemma_len_subset(si.to_set(), range);
    if s.len() == n {
        vstd::set_lib::lemma_subset_equality(si.to_set(), range);
        assert forall|v: int| 0 <= v < n implies #[trigger] s.contains(v as usize) by {
            assert(range.contains(v));
            assert(si.to_set().contains(v));
            assert(si.contains(v));
            let k = choose|k: int| 0 <= k < si.len() && si[k] == v;
            assert(s[k] == v as usize);
        }
    }
}

/// A duplicate-free sequence of indices below `n` that misses some
/// index below `n` has fewer than `n` entries.
proof fn lemma_pigeonhole_missing(s: Seq<usize>, n: nat, w: usize)
    requires
        s.no_duplicates(),
        entries_below(s, n as int),
        (w as int) < n,
        !s.contains(w),
    ensures
        s.len() < n,
{
    broadcast use vstd::seq_lib::seq_to_set_is_finite;
    broadcast use vstd::set::axiom_set_remove_len;

    let si = Seq::new(s.len(), |k: int| s[k] as int);
    assert(si.no_duplicates()) by {
        assert forall|i: int, j: int| 0 <= i < j < si.len() implies si[i] != si[j] by {
            assert(s[i] != s[j]);
        }
    }
    si.unique_seq_to_set();
    let range = vstd::set_lib::set_int_range(0, n as int);
    vstd::set_lib::lemma_int_range(0, n as int);
    let small = range.remove(w as int);
    assert(small.len() == n - 1);
    assert(si.to_set().subset_of(small)) by {
        assert forall|x: int| si.to_set().contains(x) implies small.contains(x) by {
            let k = choose|k: int| 0 <= k < si.len() && si[k] == x;
            assert(s[k] < n);
            assert(s[k] != w);
        }
    }
    vstd::set_lib::lemma_len_subset(si.to_set(), small);
}

/// Kahn's algorithm on the canonical graph.  Returns the emission order
/// and the cycle flag.  The order is duplicate-free, respects every
/// edge, and is closed under predecessors; the flag is set exactly when
/// the order is incomplete, which happens exactly when some node is
/// left that still has an unemitted predecessor.
#[verifier::rlimit(100)]
pub fn kahn(g: &DepGraph) -> (r: (Vec<usize>, bool))
    requires
        g.wf(),
    ensures
        r.0@.no_duplicates(),
        entries_below(r.0@, g.n()),
        respects_edges(*g, r.0@),
        forall|u: int, v: int|
            #[trigger] g.edge(u, v) && r.0@.contains(v as usize) ==> r.0@.contains(u as usize),
        r.0@.len() <= g.n(),
        r.1 == (r.0@.len() != g.n()),
        !r.1 ==> forall|v: int| 0 <= v < g.n() ==> #[trigger] r.0@.contains(v as usize),
        forall|v: int|
            0 <= v < g.n() && !(#[trigger] r.0@.contains(v as usize)) ==> exists|u: int|
                0 <= u < g.n() && #[trigger] g.edge(u, v) && !r.0@.contains(u as usize),
{
    let n = g.adj.len();
    let mut indeg: Vec<usize> = Vec::new();
    let mut v: usize = 0;
    while v < n
        invariant
            g.wf(),
            n == g.n(),
            v <= n,
            indeg@.len() == v,
            forall|w: int| 0 <= w < v ==> indeg@[w] == g.preds@[w]@.len(),
        decreases n - v,
    {
        let d = g.preds[v].len();
        indeg.push(d);
        v += 1;
    }
    let mut queue: Vec<usize> = Vec::new();
    let mut head: usize = 0;
    let mut v: usize = 0;
    while v < n
        invariant
            g.wf(),
            n == g.n(),
            v <= n,
            indeg@.len() == n,
            forall|w: int| 0 <= w < n ==> indeg@[w] == g.preds@[w]@.len(),
            queue@.no_duplicates(),
            entries_below(queue@, v as int),
            forall|w: int| 0 <= w < v ==> (queue@.contains(w as usize) <==> indeg@[w] == 0),
        decreases n - v,
    {
        if indeg[v] == 0 {
            proof {
                crate::graph::lemma_push_contains(queue@, v);
                assert(!queue@.contains(v));
            }
            queue.push(v);
        } else {
            proof {
                assert(!queue@.contains(v));
            }
        }
        v += 1;
    }
    proof {
        lemma_pigeonhole(queue@, n as nat);
        assert forall|w: int| 0 <= w < n implies indeg@[w] == count_outside(
            g.preds@[w]@,
            queue@.subrange(0, head as int),
        ) by {
            lemma_count_outside_empty(g.preds@[w]@, queue@.subrange(0, head as int));
        }
        assert forall|k1: int, k2: int| 0 <= k1 <= k2 < queue@.len() implies !g.edge(
            queue@[k2] as int,
            queue@[k1] as int,
        ) by {
            let a = queue@[k2] as int;
            let b = queue@[k1] as int;
            if g.edge(a, b) {
                assert(g.adj_has(a, b));
                assert(g.pred_has(b, a));
                assert(indeg@[b] == 0);
                assert(g.preds@[b]@.len() > 0);
            }
        }
    }
    while head < queue.len()
        invariant
            g.wf(),
            n == g.n(),
            indeg@.len() == n,
            head <= queue@.len(),
            queue@.len() <= n,
            queue@.no_duplicates(),
            entries_below(queue@, n as int),
            forall|w: int|
                0 <= w < n ==> indeg@[w] == count_outside(
                    g.preds@[w]@,
                    queue@.subrange(0, head as int),
                ),
            forall|w: int| 0 <= w < n ==> (queue@.contains(w as usize) <==> indeg@[w] == 0),
            respects_edges(*g, queue@),
        decreases n - head,
    {
        let u = queue[head];
        let ghost em_old = queue@.subrange(0, head as int);
        head += 1;
        let ghost em = queue@.subrange(0, head as int);
        proof {
            assert(em =~= em_old.push(u));
            assert(!em_old.contains(u)) by {
                if em_old.contains(u) {
                    let m = choose|m: int| 0 <= m < em_old.len() && em_old[m] == u;
                    assert(queue@[m] == queue@[head - 1]);
                }
            }
            assert forall|w: int| 0 <= w < n implies indeg@[w] == count_outside(
                g.preds@[w]@,
                em,
            ) + (if g.adj@[u as int]@.subrange(0, g.adj@[u as int]@.len() as int).contains(
                w as usize,
            ) {
                1nat
            } else {
                0nat
            }) by {
                assert(g.adj@[u as int]@.subrange(0, g.adj@[u as int]@.len() as int) =~= g.adj@[
                    u as int]@);
                lemma_count_outside_push(g.preds@[w]@, em_old, u);
                if g.adj@[u as int]@.contains(w as usize) {
                    assert(g.adj_has(u as int, w));
                    assert(g.pred_has(w, u as int));
                    assert(g.preds@[w]@.contains(u));
                } else {
                    assert(!g.preds@[w]@.contains(u)) by {
                        if g.preds@[w]@.contains(u) {
                            assert(g.pred_has(w, u as int));
                            assert(g.adj_has(u as int, w));
                        }
                    }
                }
            }
        }
        let row_len = g.adj[u].len();
        let mut j: usize = 0;
        while j < row_len
            invariant
                g.wf(),
                n == g.n(),
                indeg@.len() == n,
                (u as int) < n,
                row_len == g.adj@[u as int]@.len(),
                j <= row_len,
                0 < head <= queue@.len(),
                queue@.len() <= n,
                queue@.no_duplicates(),
                entries_below(queue@, n as int),
                em == queue@.subrange(0, head as int),
                forall|w: int|
                    0 <= w < n ==> indeg@[w] == count_outside(g.preds@[w]@, em) + (if g.adj@[
                        u as int]@.subrange(j as int, row_len as int).contains(w as usize) {
                        1nat
                    } else {
                        0nat
                    }),
                forall|w: int| 0 <= w < n ==> (queue@.contains(w as usize) <==> indeg@[w] == 0),
                respects_edges(*g, queue@),
            decreases row_len - j,
        {
            let w = g.adj[u][j];
            let ghost pending = g.adj@[u as int]@.subrange(j as int, row_len as int);
            let ghost pending2 = g.adj@[u as int]@.subrange(j + 1, row_len as int);
            proof {
                assert((w as int) < n);
                assert(pending.contains(w)) by {
                    assert(pending[0] == w);
                }
                assert(indeg@[w as int] >= 1);
                assert forall|x: int| 0 <= x < n implies (#[trigger] pending.contains(x as usize)
                    <==> (pending2.contains(x as usize) || x == w as int)) by {
                    if pending.contains(x as usize) {
                        let m = choose|m: int| 0 <= m < pending.len() && pending[m] == x as usize;
                        if m > 0 {
                            assert(pending2[m - 1] == x as usize);
                        }
                    }
                    if pending2.contains(x as usize) {
                        let m = choose|m: int| 0 <= m < pending2.len() && pending2[m] == x as usize;
                        assert(pending[m + 1] == x as usize);
                    }
                }
                assert(!pending2.contains(w)) by {
                    if pending2.contains(w) {
                        let m = choose|m: int| 0 <= m < pending2.len() && pending2[m] == w;
                        assert(g.adj@[u as int]@[j + 1 + m] == g.adj@[u as int]@[j as int]);
                        assert(g.adj@[u as int]@.no_duplicates());
                    }
                }
            }
            let d = indeg[w] - 1;
            indeg[w] = d;
            if d == 0 {
                proof {
                    assert(!queue@.contains(w));
                    crate::graph::lemma_push_contains(queue@, w);
                    lemma_pigeonhole_missing(queue@, n as nat, w);
                    assert(count_outside(g.preds@[w as int]@, em) == 0);
                    lemma_count_outside_zero(g.preds@[w as int]@, em);
                    // every predecessor of w is already emitted, so no edge
                    // from w can reach a queue member, nor w itself
                    assert forall|k1: int, k2: int| 0 <= k1 <= k2 < queue@.push(w).len() implies !g.edge(
                        queue@.push(w)[k2] as int,
                        queue@.push(w)[k1] as int,
                    ) by {
                        let q2 = queue@.push(w);
                        if k2 == queue@.len() {
                            let b = q2[k1] as int;
                            if g.edge(w as int, b) {
                                assert(g.adj_has(w as int, b));
                                assert(g.pred_has(b, w as int));
                                assert(g.preds@[b]@.contains(w));
                                if k1 < queue@.len() {
                                    assert(queue@.contains(q2[k1]));
                                    assert(indeg@[b] == 0);
                                    lemma_count_outside_zero(g.preds@[b]@, em);
                                    assert(em.contains(w));
                                    let m = choose|m: int| 0 <= m < em.len() && em[m] == w;
                                    assert(queue@[m] == w);
                                    assert(queue@.contains(w));
                                } else {
                                    // self-loop on w: w would be its own
                                    // emitted predecessor
                                    assert(em.contains(w));
                                    let m = choose|m: int| 0 <= m < em.len() && em[m] == w;
                                    assert(queue@[m] == w);
                                    assert(queue@.contains(w));
                                }
                            }
                        } else {
                            assert(q2[k1] == queue@[k1]);
                            assert(q2[k2] == queue@[k2]);
                        }
                    }
                }
                queue.push(w);
                proof {
                    assert(queue@.subrange(0, head as int) =~= em);
                }
            }
            j += 1;
            proof {
                assert forall|x: int| 0 <= x < n implies indeg@[x] == count_outside(
                    g.preds@[x]@,
                    em,
                ) + (if g.adj@[u as int]@.subrange(j as int, row_len as int).contains(x as usize) {
                    1nat
                } else {
                    0nat
                }) by {
                    assert(pending2 == g.adj@[u as int]@.subrange(j as int, row_len as int));
                }
            }
        }
        proof {
            assert forall|w: int| 0 <= w < n implies indeg@[w] == count_outside(
                g.preds@[w]@,
                queue@.subrange(0, head as int),
            ) by {
                assert(g.adj@[u as int]@.subrange(row_len as int, row_len as int).len() == 0);
                assert(queue@.subrange(0, head as int) == em);
            }
        }
    }
    proof {
        assert(queue@.subrange(0, head as int) =~= queue@);
        lemma_pigeonhole(queue@, n as nat);
        assert forall|u: int, v: int|
            #[trigger] g.edge(u, v) && queue@.contains(v as usize) implies queue@.contains(
            u as usize,
        ) by {
            assert(indeg@[v] == 0);
            lemma_count_outside_zero(g.preds@[v]@, queue@);
            assert(g.adj_has(u, v));
            assert(g.pred_has(v, u));
            let m = choose|m: int| 0 <= m < g.preds@[v]@.len() && g.preds@[v]@[m] == u as usize;
            assert(queue@.contains(g.preds@[v]@[m]));
        }
        assert forall|v: int| 0 <= v < n && !(#[trigger] queue@.contains(v as usize)) implies exists|u: int|
            0 <= u < n && #[trigger] g.edge(u, v) && !queue@.contains(u as usize) by {
            assert(indeg@[v] != 0);
            lemma_count_outside_zero(g.preds@[v]@, queue@);
            let m = choose|m: int| 0 <= m < g.preds@[v]@.len() && !queue@.contains(g.preds@[v]@[m]);
            let u = g.preds@[v]@[m] as int;
            assert(g.preds@[v]@.contains(g.preds@[v]@[m]));
            assert(g.pred_has(v, u));
            assert(g.adj_has(u, v));
            assert((u as int) < n);
            assert(g.edge(u, v) && !queue@.contains(u as usize));
        }
    }
    let has_cycle = queue.len() != n;
    (queue, has_cycle)
}

} // verus!

verus! {

/// `ord` lists each bead index exactly once and never places the target
/// of a declared edge at or before its source.
pub open spec fn valid_bead_order(beads: Seq<BeadNode>, ord: Seq<int>) -> bool {
    &&& ord.no_duplicates()
    &&& ord.len() == beads.len()
    &&& forall|k: int| 0 <= k < ord.len() ==> 0 <= #[trigger] ord[k] < beads.len()
    &&& forall|k1: int, k2: int|
        0 <= k1 <= k2 < ord.len() ==> !bead_edge(beads, #[trigger] ord[k2], #[trigger] ord[k1])
}

/// The bead-declared graph is acyclic exactly when some complete
/// topological order of its indices exists.
pub open spec fn beads_acyclic(beads: Seq<BeadNode>) -> bool {
    exists|ord: Seq<int>| valid_bead_order(beads, ord)
}

/// The smallest position at or after `k` where `ord` holds a member of
/// `bad`.
proof fn first_bad_pos(ord: Seq<usize>, bad: Set<usize>, k: int) -> (j: int)
    requires
        0 <= k <= ord.len(),
        exists|m: int| k <= m < ord.len() && bad.contains(#[trigger] ord[m]),
    ensures
        k <= j < ord.len(),
        bad.contains(ord[j]),
        forall|m: int| k <= m < j ==> !bad.contains(#[trigger] ord[m]),
    decreases ord.len() - k,
{
    let m0 = choose|m: int| k <= m < ord.len() && bad.contains(#[trigger] ord[m]);
    if bad.contains(ord[k]) {
        k
    } else {
        assert(m0 >= k + 1);
        first_bad_pos(ord, bad, k + 1)
    }
}

/// A duplicate-free sequence of indices below `n` that is shorter than
/// `n` misses some index below `n`.
proof fn lemma_pigeonhole_find_missing(s: Seq<usize>, n: nat) -> (v: usize)
    requires
        s.no_duplicates(),
        entries_below(s, n as int),
        s.len() < n,
        n <= usize::MAX,
    ensures
        (v as int) < n,
        !s.contains(v),
{
    broadcast use vstd::seq_lib::seq_to_set_is_finite;

    let si = Seq::new(s.len(), |k: int| s[k] as int);
    assert(si.no_duplicates()) by {
        assert forall|i: int, j: int| 0 <= i < j < si.len() implies si[i] != si[j] by {
            assert(s[i] != s[j]);
        }
    }
    si.unique_seq_to_set();
    let range = vstd::set_lib::set_int_range(0, n as int);
    vstd::set_lib::lemma_int_range(0, n as int);
    if !(exists|x: int| #[trigger] range.contains(x) && !si.to_set().contains(x)) {
        assert(range.subset_of(si.to_set())) by {
            assert forall|x: int| range.contains(x) implies si.to_set().contains(x) by {
            }
        }
        vstd::set_lib::lemma_len_subset(range, si.to_set());
        assert(false);
    }
    let x = choose|x: int| #[trigger] range.contains(x) && !si.to_set().contains(x);
    assert(!s.contains(x as usize)) by {
        if s.contains(x as usize) {
            let m = choose|m: int| 0 <= m < s.len() && s[m] == x as usize;
            assert(si[m] == x);
            assert(si.contains(x));
        }
    }
    x as usize
}

/// When the emitted prefix is incomplete and every remaining node still
/// has a remaining predecessor, no complete topological order exists.
proof fn lemma_stuck_not_acyclic(g: DepGraph, done: Seq<usize>)
    requires
        g.wf(),
        done.no_duplicates(),
        entries_below(done, g.n()),
        done.len() < g.n(),
        g.n() <= usize::MAX,
        forall|v: int|
            0 <= v < g.n() && !(#[trigger] done.contains(v as usize)) ==> exists|u: int|
                0 <= u < g.n() && #[trigger] g.edge(u, v) && !done.contains(u as usize),
    ensures
        !is_acyclic(g),
{
    if is_acyclic(g) {
        let ord = choose|ord: Seq<usize>| valid_order(g, ord);
        let n = g.n();
        let w0 = lemma_pigeonhole_find_missing(done, n as nat);
        let v0 = w0 as int;
        assert(!done.contains(v0 as usize));
        let bad = Set::new(|x: usize| (x as int) < n && !done.contains(x));
        lemma_pigeonhole(ord, n as nat);
        assert(ord.contains(v0 as usize));
        let m0 = choose|m: int| 0 <= m < ord.len() && ord[m] == v0 as usize;
        assert(bad.contains(ord[m0]));
        let j = first_bad_pos(ord, bad, 0);
        let vi = ord[j] as int;
        assert(!done.contains(vi as usize));
        let u = choose|u: int| 0 <= u < n && g.edge(u, vi) && !done.contains(u as usize);
        assert(ord.contains(u as usize));
        let p = choose|p: int| 0 <= p < ord.len() && ord[p] == u as usize;
        assert(bad.contains(ord[p]));
        assert(p >= j);
        assert(!g.edge(ord[p] as int, ord[j] as int));
        assert(false);
    }
}

/// The incompleteness of an emission order with the closure properties
/// that `kahn` guarantees decides acyclicity.
pub proof fn lemma_cycle_flag(g: DepGraph, ord: Seq<usize>)
    requires
        g.wf(),
        g.n() <= usize::MAX,
        ord.no_duplicates(),
        entries_below(ord, g.n()),
        respects_edges(g, ord),
        ord.len() <= g.n(),
        forall|v: int|
            0 <= v < g.n() && !(#[trigger] ord.contains(v as usize)) ==> exists|u: int|
                0 <= u < g.n() && #[trigger] g.edge(u, v) && !ord.contains(u as usize),
    ensures
        (ord.len() == g.n()) <==> is_acyclic(g),
{
    if ord.len() == g.n() {
        assert(valid_order(g, ord));
    } else {
        lemma_stuck_not_acyclic(g, ord);
    }
}

/// Acyclicity of the canonical graph coincides with acyclicity of the
/// bead-declared relation it represents.
pub proof fn lemma_acyclic_transfer(g: DepGraph, beads: Seq<BeadNode>)
    requires
        g.wf(),
        g.n() == beads.len(),
        beads.len() <= usize::MAX,
        forall|u: int, v: int| #[trigger] g.edge(u, v) <==> bead_edge(beads, u, v),
    ensures
        is_acyclic(g) <==> beads_acyclic(beads),
{
    let n = beads.len() as int;
    if is_acyclic(g) {
        let ord = choose|ord: Seq<usize>| valid_order(g, ord);
        let ordi = Seq::new(ord.len(), |k: int| ord[k] as int);
        assert(ordi.no_duplicates()) by {
            assert forall|i: int, j: int| 0 <= i < j < ordi.len() implies ordi[i] != ordi[j] by {
                assert(ord[i] != ord[j]);
            }
        }
        assert forall|k: int| 0 <= k < ordi.len() implies 0 <= #[trigger] ordi[k] < n by {
            assert(ord[k] < g.n());
        }
        assert forall|k1: int, k2: int| 0 <= k1 <= k2 < ordi.len() implies !bead_edge(
            beads,
            #[trigger] ordi[k2],
            #[trigger] ordi[k1],
        ) by {
            assert(!g.edge(ord[k2] as int, ord[k1] as int));
        }
        assert(valid_bead_order(beads, ordi));
    }
    if beads_acyclic(beads) {
        let ordi = choose|o: Seq<int>| valid_bead_order(beads, o);
        let ord = Seq::new(ordi.len(), |k: int| ordi[k] as usize);
        assert(ord.no_duplicates()) by {
            assert forall|i: int, j: int| 0 <= i < j < ord.len() implies ord[i] != ord[j] by {
                assert(0 <= ordi[i] < n);
                assert(0 <= ordi[j] < n);
            }
        }
        assert(entries_below(ord, g.n())) by {
            assert forall|k: int| 0 <= k < ord.len() implies (#[trigger] ord[k]) < g.n() by {
                assert(0 <= ordi[k] < n);
            }
        }
        assert forall|k1: int, k2: int| 0 <= k1 <= k2 < ord.len() implies !g.edge(
            #[trigger] ord[k2] as int,
            #[trigger] ord[k1] as int,
        ) by {
            assert(0 <= ordi[k1] < n);
            assert(0 <= ordi[k2] < n);
            assert(!bead_edge(beads, ordi[k2], ordi[k1]));
        }
        assert(valid_order(g, ord));
    }
}

} // verus!

verus! {

/// Result of a topological sort: the emission order as bead ids, the
/// cycle flag, and — under the Kahn-residue policy — the ids of every
/// node on a cycle or downstream of one, in input order.
#[derive(Debug)]
pub struct TopoSortResult {
    pub sorted: Vec<String>,
    pub has_cycle: bool,
    pub cycle_nodes: Vec<String>,
}

/// Everything a topological-sort result promises about `beads`:
/// the flag decides acyclicity; the order lists distinct declared ids,
/// never places an edge target at or before its source, is closed under
/// predecessors, and is complete exactly when acyclic; the cycle nodes
/// are exactly the ids left out of the order, kept in input order.
pub open spec fn topo_result_ok(
    beads: Seq<BeadNode>,
    sorted: Seq<String>,
    has_cycle: bool,
    cycle_nodes: Seq<String>,
) -> bool {
    &&& sorted.len() <= beads.len()
    &&& has_cycle == (sorted.len() != beads.len())
    &&& has_cycle == !beads_acyclic(beads)
    &&& forall|k: int| 0 <= k < sorted.len() ==> known_id(beads, #[trigger] sorted[k]@)
    &&& forall|k1: int, k2: int| 0 <= k1 < k2 < sorted.len() ==> sorted[k1]@ != sorted[k2]@
    &&& forall|k1: int, k2: int|
        0 <= k1 <= k2 < sorted.len() ==> !bead_edge(
            beads,
            bead_index(beads, #[trigger] sorted[k2]@),
            bead_index(beads, #[trigger] sorted[k1]@),
        )
    &&& forall|u: int, v: int|
        #[trigger] bead_edge(beads, u, v) && lists_id(sorted, beads[v].id@) ==> lists_id(
            sorted,
            beads[u].id@,
        )
    &&& (!has_cycle ==> forall|i: int|
        0 <= i < beads.len() ==> lists_id(sorted, #[trigger] beads[i].id@))
    &&& forall|i: int|
        0 <= i < beads.len() ==> (lists_id(cycle_nodes, #[trigger] beads[i].id@) <==> !lists_id(
            sorted,
            beads[i].id@,
        ))
    &&& forall|k: int| 0 <= k < cycle_nodes.len() ==> known_id(beads, #[trigger] cycle_nodes[k]@)
    &&& forall|k1: int, k2: int|
        0 <= k1 < k2 < cycle_nodes.len() ==> bead_index(beads, #[trigger] cycle_nodes[k1]@)
            < bead_index(beads, #[trigger] cycle_nodes[k2]@)
    &&& sorted.len() + cycle_nodes.len() == beads.len()
}

/// With distinct ids, `bead_index` recovers a bead's own position.
pub proof fn lemma_bead_index_of(beads: Seq<BeadNode>, i: int)
    requires
        distinct_ids(beads),
        0 <= i < beads.len(),
    ensures
        bead_index(beads, beads[i].id@) == i,
{
    assert(exists|k: int| 0 <= k < beads.len() && beads[k].id@ == beads[i].id@) by {
        assert(0 <= i < beads.len() && beads[i].id@ == beads[i].id@);
    }
    let j = bead_index(beads, beads[i].id@);
    assert(0 <= j < beads.len() && beads[j].id@ == beads[i].id@);
}

/// A bead's id occurs among the mapped ids of `ord` exactly when its
/// index occurs in `ord`.
proof fn lemma_mapped_membership(beads: Seq<BeadNode>, ord: Seq<usize>, sorted: Seq<String>, i: int)
    requires
        distinct_ids(beads),
        beads.len() <= usize::MAX,
        entries_below(ord, beads.len() as int),
        sorted.len() == ord.len(),
        forall|k: int| 0 <= k < sorted.len() ==> #[trigger] sorted[k]@ == beads[ord[k] as int].id@,
        0 <= i < beads.len(),
    ensures
        lists_id(sorted, beads[i].id@) <==> ord.contains(i as usize),
{
    if lists_id(sorted, beads[i].id@) {
        let k = choose|k: int| 0 <= k < sorted.len() && sorted[k]@ == beads[i].id@;
        assert(beads[ord[k] as int].id@ == beads[i].id@);
        assert(ord[k] as int == i);
        assert(ord.contains(i as usize)) by {
            assert(ord[k] == i as usize);
        }
    }
    if ord.contains(i as usize) {
        let k = choose|k: int| 0 <= k < ord.len() && ord[k] == i as usize;
        assert(sorted[k]@ == beads[i].id@);
        assert(lists_id(sorted, beads[i].id@));
    }
}

/// A duplicate-free sequence of `em.len()` indices below `n` leaves
/// exactly `n - em.len()` of the indices `0 .. n` outside itself.
proof fn lemma_count_all_outside(n: nat, em: Seq<usize>)
    requires
        em.no_duplicates(),
        entries_below(em, n as int),
        n <= usize::MAX,
    ensures
        count_outside(Seq::new(n, |k: int| k as usize), em) + em.len() == n,
    decreases em.len(),
{
    let all = Seq::new(n, |k: int| k as usize);
    if em.len() == 0 {
        lemma_count_outside_empty(all, em);
    } else {
        let em1 = em.drop_last();
        let u = em.last();
        assert(em1.no_duplicates());
        assert(entries_below(em1, n as int)) by {
            assert forall|k: int| 0 <= k < em1.len() implies (#[trigger] em1[k]) < n by {
                assert(em[k] < n);
            }
        }
        lemma_count_all_outside(n, em1);
        assert(all.no_duplicates()) by {
            assert forall|i: int, j: int| 0 <= i < j < all.len() implies all[i] != all[j] by {
                assert(all[i] == i as usize && all[j] == j as usize);
            }
        }
        assert(!em1.contains(u)) by {
            if em1.contains(u) {
                let m = choose|m: int| 0 <= m < em1.len() && em1[m] == u;
                assert(em[m] == em[em.len() - 1]);
            }
        }
        assert(em =~= em1.push(u));
        assert(all.contains(u)) by {
            assert((em[em.len() - 1] as int) < n);
            assert(all[u as int] == u);
        }
        lemma_count_outside_push(all, em1, u);
    }
}

/// Clone out the ids at the given indices, in order.
fn map_ids(beads: &Vec<BeadNode>, ord: &Vec<usize>) -> (sorted: Vec<String>)
    requires
        entries_below(ord@, beads@.len() as int),
    ensures
        sorted@.len() == ord@.len(),
        forall|m: int| 0 <= m < ord@.len() ==> #[trigger] sorted@[m]@ == beads@[ord@[m] as int].id@,
{
    let mut sorted: Vec<String> = Vec::new();
    let mut k: usize = 0;
    while k < ord.len()
        invariant
            entries_below(ord@, beads@.len() as int),
            k <= ord@.len(),
            sorted@.len() == k,
            forall|m: int| 0 <= m < k ==> #[trigger] sorted@[m]@ == beads@[ord@[m] as int].id@,
        decreases ord@.len() - k,
    {
        let idx = ord[k];
        sorted.push(beads[idx].id.clone());
        k += 1;
    }
    sorted
}

/// Clone out, in input order, the ids of the beads whose index does not
/// occur in `ord`, together with the ghost list of those indices.
fn residue_ids(beads: &Vec<BeadNode>, ord: &Vec<usize>) -> (r: (Vec<String>, Ghost<Seq<usize>>))
    ensures
        ({
            let cyc = r.0@;
            let idxs = r.1@;
            &&& idxs.len() == cyc.len()
            &&& forall|m: int| 0 <= m < idxs.len() ==> (#[trigger] idxs[m] as int) < beads@.len()
            &&& forall|m1: int, m2: int| 0 <= m1 < m2 < idxs.len() ==> idxs[m1] < idxs[m2]
            &&& forall|m: int|
                0 <= m < idxs.len() ==> #[trigger] cyc[m]@ == beads@[idxs[m] as int].id@
            &&& forall|m: int| 0 <= m < idxs.len() ==> !ord@.contains(#[trigger] idxs[m])
            &&& forall|i: int|
                0 <= i < beads@.len() && !(#[trigger] ord@.contains(i as usize)) ==> idxs.contains(
                    i as usize,
                )
            &&& cyc.len() == count_outside(
                Seq::new(beads@.len() as nat, |q: int| q as usize),
                ord@,
            )
        }),
{
    let n = beads.len();
    let mut cyc: Vec<String> = Vec::new();
    let ghost mut idxs: Seq<usize> = Seq::empty();
    let mut v: usize = 0;
    while v < n
        invariant
            beads@.len() == n,
            v <= n,
            idxs.len() == cyc@.len(),
            forall|m: int| 0 <= m < idxs.len() ==> (#[trigger] idxs[m] as int) < v,
            forall|m1: int, m2: int| 0 <= m1 < m2 < idxs.len() ==> idxs[m1] < idxs[m2],
            forall|m: int| 0 <= m < idxs.len() ==> #[trigger] cyc@[m]@ == beads@[idxs[m] as int].id@,
            forall|m: int| 0 <= m < idxs.len() ==> !ord@.contains(#[trigger] idxs[m]),
            forall|i: int|
                0 <= i < v && !(#[trigger] ord@.contains(i as usize)) ==> idxs.contains(i as usize),
            cyc@.len() == count_outside(Seq::new(v as nat, |q: int| q as usize), ord@),
        decreases n - v,
    {
        let ghost pre = Seq::new(v as nat, |q: int| q as usize);
        let inq = crate::graph::vec_contains(&ord, v);
        if !inq {
            cyc.push(beads[v].id.clone());
            proof {
                let old_idxs = idxs;
                idxs = idxs.push(v);
                assert(idxs[idxs.len() - 1] == v);
                crate::graph::lemma_push_contains(old_idxs, v);
            }
        }
        v += 1;
        proof {
            let cur = Seq::new(v as nat, |q: int| q as usize);
            assert(cur.drop_last() =~= pre);
            assert(cur.last() == (v - 1) as usize);
            assert(cyc@.len() == count_outside(cur, ord@));
        }
    }
    proof {
        assert(Seq::new(beads@.len() as nat, |q: int| q as usize) =~= Seq::new(
            v as nat,
            |q: int| q as usize,
        ));
    }
    (cyc, Ghost(idxs))
}

/// From the guarantees of `kahn` and the two id-mapping passes, the
/// assembled result satisfies the full topological-sort contract.
#[verifier::rlimit(100)]
proof fn lemma_topo_result(
    beads: Seq<BeadNode>,
    g: DepGraph,
    ord: Seq<usize>,
    sorted: Seq<String>,
    cyc: Seq<String>,
    idxs: Seq<usize>,
    has_cycle: bool,
)
    requires
        distinct_ids(beads),
        beads.len() <= usize::MAX,
        g.wf(),
        g.n() == beads.len(),
        forall|u: int, v: int| #[trigger] g.edge(u, v) <==> bead_edge(beads, u, v),
        ord.no_duplicates(),
        entries_below(ord, g.n()),
        respects_edges(g, ord),
        ord.len() <= g.n(),
        forall|u: int, v: int|
            #[trigger] g.edge(u, v) && ord.contains(v as usize) ==> ord.contains(u as usize),
        forall|v: int|
            0 <= v < g.n() && !(#[trigger] ord.contains(v as usize)) ==> exists|u: int|
                0 <= u < g.n() && #[trigger] g.edge(u, v) && !ord.contains(u as usize),
        has_cycle == (ord.len() != g.n()),
        sorted.len() == ord.len(),
        forall|k: int| 0 <= k < sorted.len() ==> #[trigger] sorted[k]@ == beads[ord[k] as int].id@,
        idxs.len() == cyc.len(),
        forall|m: int| 0 <= m < idxs.len() ==> (#[trigger] idxs[m] as int) < beads.len(),
        forall|m1: int, m2: int| 0 <= m1 < m2 < idxs.len() ==> idxs[m1] < idxs[m2],
        forall|m: int| 0 <= m < idxs.len() ==> #[trigger] cyc[m]@ == beads[idxs[m] as int].id@,
        forall|m: int| 0 <= m < idxs.len() ==> !ord.contains(#[trigger] idxs[m]),
        forall|i: int|
            0 <= i < beads.len() && !(#[trigger] ord.contains(i as usize)) ==> idxs.contains(
                i as usize,
            ),
        cyc.len() + ord.len() == beads.len(),
    ensures
        topo_result_ok(beads, sorted, has_cycle, cyc),
{
    lemma_cycle_flag(g, ord);
    lemma_acyclic_transfer(g, beads);
    assert forall|m: int| 0 <= m < sorted.len() implies known_id(beads, #[trigger] sorted[m]@) by {
        assert(sorted[m]@ == beads[ord[m] as int].id@);
    }
    assert forall|k1: int, k2: int| 0 <= k1 < k2 < sorted.len() implies sorted[k1]@
        != sorted[k2]@ by {
        assert(ord[k1] != ord[k2]);
    }
    assert forall|k1: int, k2: int| 0 <= k1 <= k2 < sorted.len() implies !bead_edge(
        beads,
        bead_index(beads, #[trigger] sorted[k2]@),
        bead_index(beads, #[trigger] sorted[k1]@),
    ) by {
        lemma_bead_index_of(beads, ord[k1] as int);
        lemma_bead_index_of(beads, ord[k2] as int);
        assert(!g.edge(ord[k2] as int, ord[k1] as int));
    }
    assert forall|u: int, v2: int|
        #[trigger] bead_edge(beads, u, v2) && lists_id(sorted, beads[v2].id@) implies lists_id(
        sorted,
        beads[u].id@,
    ) by {
        lemma_mapped_membership(beads, ord, sorted, v2);
        lemma_mapped_membership(beads, ord, sorted, u);
        assert(g.edge(u, v2));
        assert(ord.contains(v2 as usize));
    }
    if !has_cycle {
        assert forall|i: int| 0 <= i < beads.len() implies lists_id(
            sorted,
            #[trigger] beads[i].id@,
        ) by {
            lemma_mapped_membership(beads, ord, sorted, i);
            assert(ord.contains(i as usize));
        }
    }
    assert forall|i: int| 0 <= i < beads.len() implies (lists_id(cyc, #[trigger] beads[i].id@)
        <==> !lists_id(sorted, beads[i].id@)) by {
        lemma_mapped_membership(beads, ord, sorted, i);
        if lists_id(cyc, beads[i].id@) {
            let m = choose|m: int| 0 <= m < cyc.len() && cyc[m]@ == beads[i].id@;
            assert(cyc[m]@ == beads[idxs[m] as int].id@);
            assert(idxs[m] as int == i);
            assert(!ord.contains(i as usize)) by {
                assert(idxs[m] == i as usize);
            }
        }
        if !lists_id(sorted, beads[i].id@) {
            assert(!ord.contains(i as usize));
            assert(idxs.contains(i as usize));
            let m = choose|m: int| 0 <= m < idxs.len() && idxs[m] == i as usize;
            assert(cyc[m]@ == beads[i].id@);
            assert(lists_id(cyc, beads[i].id@));
        }
    }
    assert forall|m: int| 0 <= m < cyc.len() implies known_id(beads, #[trigger] cyc[m]@) by {
        assert(cyc[m]@ == beads[idxs[m] as int].id@);
    }
    assert forall|k1: int, k2: int| 0 <= k1 < k2 < cyc.len() implies bead_index(
        beads,
        #[trigger] cyc[k1]@,
    ) < bead_index(beads, #[trigger] cyc[k2]@) by {
        lemma_bead_index_of(beads, idxs[k1] as int);
        lemma_bead_index_of(beads, idxs[k2] as int);
        assert(cyc[k1]@ == beads[idxs[k1] as int].id@);
        assert(cyc[k2]@ == beads[idxs[k2] as int].id@);
    }
}

/// Topological sort of the bead-declared graph, with cycle detection.
/// The emitted order is complete exactly when the graph is acyclic;
/// otherwise `cycle_nodes` holds, in input order, the Kahn residue: the
/// ids of every node on a cycle or transitively blocked by one.
pub fn topo_sort(beads: &Vec<BeadNode>) -> (r: Result<TopoSortResult, GraphError>)
    requires
        distinct_ids(beads@),
    ensures
        match r {
            Ok(res) => beads_valid(beads@) && topo_result_ok(
                beads@,
                res.sorted@,
                res.has_cycle,
                res.cycle_nodes@,
            ),
            Err(e) => e == GraphError::UnknownNode && !beads_valid(beads@),
        },
{
    let empty_edges: Vec<GraphEdge> = Vec::new();
    let g = match build_graph(beads, &empty_edges) {
        Ok(g) => g,
        Err(e) => {
            return Err(GraphError::UnknownNode);
        },
    };
    let n = beads.len();
    let (ord, has_cycle) = kahn(&g);
    proof {
        assert forall|u: int, v: int| #[trigger] g.edge(u, v) <==> bead_edge(beads@, u, v) by {
            if crate::graph::edge_listed(empty_edges@, beads@, u, v) {
                let k = choose|k: int|
                    0 <= k < empty_edges@.len() && empty_edges@[k].from@ == beads@[u].id@
                        && empty_edges@[k].to@ == beads@[v].id@;
            }
        }
    }
    let sorted = map_ids(beads, &ord);
    let (cyc, idxs) = residue_ids(beads, &ord);
    proof {
        lemma_count_all_outside(n as nat, ord@);
        lemma_topo_result(beads@, g, ord@, sorted@, cyc@, idxs@, has_cycle);
    }
    Ok(TopoSortResult { sorted, has_cycle, cycle_nodes: cyc })
}

/// Whether the bead-declared graph contains a dependency cycle.
pub fn has_cycle(beads: &Vec<BeadNode>) -> (r: Result<bool, GraphError>)
    requires
        distinct_ids(beads@),
    ensures
        match r {
            Ok(b) => beads_valid(beads@) && b == !beads_acyclic(beads@),
            Err(e) => e == GraphError::UnknownNode && !beads_valid(beads@),
        },
{
    match topo_sort(beads) {
        Ok(res) => Ok(res.has_cycle),
        Err(e) => Err(e),
    }
}

/// The ids of every node on a cycle or transitively blocked by one
/// (Kahn-residue policy), in input order; empty exactly when the graph
/// is acyclic.
pub fn find_cycle_nodes(beads: &Vec<BeadNode>) -> (r: Result<Vec<String>, GraphError>)
    requires
        distinct_ids(beads@),
    ensures
        match r {
            Ok(cn) => {
                &&& beads_valid(beads@)
                &&& (cn@.len() == 0 <==> beads_acyclic(beads@))
                &&& exists|sorted: Seq<String>, hc: bool|
                    topo_result_ok(beads@, sorted, hc, cn@)
            },
            Err(e) => e == GraphError::UnknownNode && !beads_valid(beads@),
        },
{
    match topo_sort(beads) {
        Ok(res) => {
            proof {
                assert(topo_result_ok(beads@, res.sorted@, res.has_cycle, res.cycle_nodes@));
            }
            Ok(res.cycle_nodes)
        },
        Err(e) => Err(e),
    }
}

} // verus!
