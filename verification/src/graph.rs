//! Graph construction: from a flat bead list (and an optional explicit
//! edge list) to a canonical adjacency representation.
//!
//! Edges are the union of both declared directions: bead `x` listing `y`
//! in `blocked_by` yields the edge `(y, x)`; `x` listing `y` in `blocks`
//! yields `(x, y)`; an explicit `GraphEdge { from, to }` yields
//! `(from, to)`.  Duplicate edges are merged.  An edge endpoint that
//! names no declared bead fails construction atomically with
//! `GraphError::UnknownNode`.  Self-loops are kept; they surface later
//! as one-node cycles.

use vstd::prelude::*;
use crate::BeadNode;

verus! {

/// An explicit edge given as an alternative graph-definition input.
#[derive(Debug)]
pub struct GraphEdge {
    pub from: String,
    pub to: String,
    pub weight: u32,
}

/// The recoverable failures of the engine.
#[derive(Debug, Clone, Copy, PartialEq, Eq, Structural)]
pub enum GraphError {
    /// An edge endpoint references an undeclared bead.
    UnknownNode,
    /// Critical-path or leveling analysis was requested on a cyclic graph.
    CyclicGraph,
}

/// No two beads share an identifier.
pub open spec fn distinct_ids(beads: Seq<BeadNode>) -> bool {
    forall|i: int, j: int| 0 <= i < j < beads.len() ==> beads[i].id@ != beads[j].id@
}

/// Some bead carries the identifier `id`.
pub open spec fn known_id(beads: Seq<BeadNode>, id: Seq<char>) -> bool {
    exists|i: int| 0 <= i < beads.len() && beads[i].id@ == id
}

/// The index of the bead carrying `id` (unique when ids are distinct).
pub open spec fn bead_index(beads: Seq<BeadNode>, id: Seq<char>) -> int {
    choose|i: int| 0 <= i < beads.len() && beads[i].id@ == id
}

/// The string list `l` contains the identifier `id`.
pub open spec fn lists_id(l: Seq<String>, id: Seq<char>) -> bool {
    exists|j: int| 0 <= j < l.len() && l[j]@ == id
}

/// The edge `(u, v)` is declared by the beads themselves: bead `v` lists
/// bead `u` in `blocked_by`, or bead `u` lists bead `v` in `blocks`.
pub open spec fn bead_edge(beads: Seq<BeadNode>, u: int, v: int) -> bool {
    &&& 0 <= u < beads.len()
    &&& 0 <= v < beads.len()
    &&& (lists_id(beads[v].blocked_by@, beads[u].id@) || lists_id(
        beads[u].blocks@,
        beads[v].id@,
    ))
}

/// The edge `(u, v)` is declared by the explicit edge list.
pub open spec fn edge_listed(edges: Seq<GraphEdge>, beads: Seq<BeadNode>, u: int, v: int) -> bool {
    &&& 0 <= u < beads.len()
    &&& 0 <= v < beads.len()
    &&& exists|k: int|
        0 <= k < edges.len() && edges[k].from@ == beads[u].id@ && edges[k].to@ == beads[v].id@
}

/// The full edge relation of the input: both bead-declared directions
/// united with the explicit edge list.
pub open spec fn input_edge(beads: Seq<BeadNode>, edges: Seq<GraphEdge>, u: int, v: int) -> bool {
    bead_edge(beads, u, v) || edge_listed(edges, beads, u, v)
}

/// Every identifier in every `blocked_by` list names a bead.
pub open spec fn refs_known(beads: Seq<BeadNode>) -> bool {
    forall|i: int, j: int|
        0 <= i < beads.len() && 0 <= j < beads[i].blocked_by@.len() ==> known_id(
            beads,
            #[trigger] beads[i].blocked_by@[j]@,
        )
}

/// Every identifier in every `blocks` list names a bead.
pub open spec fn blocks_refs_known(beads: Seq<BeadNode>) -> bool {
    forall|i: int, j: int|
        0 <= i < beads.len() && 0 <= j < beads[i].blocks@.len() ==> known_id(
            beads,
            #[trigger] beads[i].blocks@[j]@,
        )
}

/// Both endpoints of every explicit edge name a bead.
pub open spec fn edges_refs_known(edges: Seq<GraphEdge>, beads: Seq<BeadNode>) -> bool {
    forall|k: int|
        0 <= k < edges.len() ==> known_id(beads, #[trigger] edges[k].from@) && known_id(
            beads,
            edges[k].to@,
        )
}

/// All edge endpoints of the whole input are declared beads.
pub open spec fn input_valid(beads: Seq<BeadNode>, edges: Seq<GraphEdge>) -> bool {
    refs_known(beads) && blocks_refs_known(beads) && edges_refs_known(edges, beads)
}

/// Every identifier referenced by the beads themselves names a bead.
pub open spec fn beads_valid(beads: Seq<BeadNode>) -> bool {
    refs_known(beads) && blocks_refs_known(beads)
}

/// Canonical adjacency representation: beads as indices `0 .. n`, the
/// deduplicated successor and predecessor lists of each index.
pub struct DepGraph {
    pub adj: Vec<Vec<usize>>,
    pub preds: Vec<Vec<usize>>,
}

impl DepGraph {
    /// Number of nodes.
    pub open spec fn n(self) -> int {
        self.adj@.len() as int
    }

    /// The successor list of `u` holds `v`.
    pub open spec fn adj_has(self, u: int, v: int) -> bool {
        self.adj@[u]@.contains(v as usize)
    }

    /// The predecessor list of `v` holds `u`.
    pub open spec fn pred_has(self, v: int, u: int) -> bool {
        self.preds@[v]@.contains(u as usize)
    }

    /// The directed edge `(u, v)` is present.
    pub open spec fn edge(self, u: int, v: int) -> bool {
        &&& 0 <= u < self.n()
        &&& 0 <= v < self.n()
        &&& self.adj_has(u, v)
    }

    /// Well-formedness: successor and predecessor lists agree, hold only
    /// in-range indices, and are free of duplicates.
    pub open spec fn wf(self) -> bool {
        &&& self.preds@.len() == self.n()
        &&& forall|u: int| 0 <= u < self.n() ==> (#[trigger] self.adj@[u])@.no_duplicates()
        &&& forall|v: int| 0 <= v < self.n() ==> (#[trigger] self.preds@[v])@.no_duplicates()
        &&& forall|u: int, k: int|
            0 <= u < self.n() && 0 <= k < self.adj@[u]@.len() ==> (#[trigger] self.adj@[u]@[k])
                < self.n()
        &&& forall|v: int, k: int|
            0 <= v < self.n() && 0 <= k < self.preds@[v]@.len() ==> (#[trigger] self.preds@[v]@[k])
                < self.n()
        &&& forall|u: int, v: int|
            0 <= u < self.n() && 0 <= v < self.n() ==> (#[trigger] self.adj_has(u, v)
                <==> #[trigger] self.pred_has(v, u))
    }
}

/// Appending to a sequence extends its membership by exactly the new
/// element, and keeps it duplicate-free when the element is fresh.
pub proof fn lemma_push_contains<A>(s: Seq<A>, x: A)
    ensures
        forall|y: A| #[trigger] s.push(x).contains(y) <==> s.contains(y) || y == x,
        !s.contains(x) && s.no_duplicates() ==> s.push(x).no_duplicates(),
{
    assert forall|y: A| #[trigger] s.push(x).contains(y) implies s.contains(y) || y == x by {
        let m = choose|m: int| 0 <= m < s.push(x).len() && s.push(x)[m] == y;
        if m < s.len() {
            assert(s[m] == y);
        }
    }
    assert forall|y: A| s.contains(y) || y == x implies #[trigger] s.push(x).contains(y) by {
        if s.contains(y) {
            let m = choose|m: int| 0 <= m < s.len() && s[m] == y;
            assert(s.push(x)[m] == y);
        } else {
            assert(s.push(x)[s.len() as int] == y);
        }
    }
    if !s.contains(x) && s.no_duplicates() {
        assert forall|i: int, j: int| 0 <= i < j < s.push(x).len() implies s.push(x)[i] != s.push(
            x,
        )[j] by {
            if j == s.len() {
                assert(s.contains(s[i]));
            }
        }
    }
}

/// Whether `v` holds `x`.
pub(crate) fn vec_contains(v: &Vec<usize>, x: usize) -> (b: bool)
    ensures
        b == v@.contains(x),
{
    let mut k: usize = 0;
    while k < v.len()
        invariant
            k <= v@.len(),
            forall|m: int| 0 <= m < k ==> v@[m] != x,
        decreases v@.len() - k,
    {
        if v[k] == x {
            return true;
        }
        k += 1;
    }
    false
}

/// The index of the bead whose id equals `id`, if any.
pub(crate) fn find_bead(beads: &Vec<BeadNode>, id: &String) -> (r: Option<usize>)
    ensures
        match r {
            Some(i) => i < beads@.len() && beads@[i as int].id@ == id@,
            None => !known_id(beads@, id@),
        },
{
    let mut i: usize = 0;
    while i < beads.len()
        invariant
            i <= beads@.len(),
            forall|m: int| 0 <= m < i ==> beads@[m].id@ != id@,
        decreases beads@.len() - i,
    {
        if beads[i].id == *id {
            return Some(i);
        }
        i += 1;
    }
    None
}

/// Partial edge relation while the first `i` beads have been processed.
spec fn bead_edge_upto(beads: Seq<BeadNode>, i: int, u: int, v: int) -> bool {
    &&& 0 <= u < beads.len()
    &&& 0 <= v < beads.len()
    &&& ((0 <= v < i && lists_id(beads[v].blocked_by@, beads[u].id@)) || (0 <= u < i && lists_id(
        beads[u].blocks@,
        beads[v].id@,
    )))
}

/// `lists_id` restricted to the first `j` entries of the list.
spec fn lists_id_upto(l: Seq<String>, j: int, id: Seq<char>) -> bool {
    exists|m: int| 0 <= m < j && l[m]@ == id
}

/// `edge_listed` restricted to the first `k` explicit edges.
spec fn edge_listed_upto(
    edges: Seq<GraphEdge>,
    k: int,
    beads: Seq<BeadNode>,
    u: int,
    v: int,
) -> bool {
    &&& 0 <= u < beads.len()
    &&& 0 <= v < beads.len()
    &&& exists|m: int| 0 <= m < k && edges[m].from@ == beads[u].id@ && edges[m].to@ == beads[v].id@
}

/// Insert the edge `(u, v)` unless it is already present, keeping the
/// successor and predecessor lists in step.
fn add_edge(g: &mut DepGraph, u: usize, v: usize)
    requires
        old(g).wf(),
        u < old(g).n(),
        v < old(g).n(),
    ensures
        final(g).wf(),
        final(g).n() == old(g).n(),
        forall|a: int, b: int|
            final(g).edge(a, b) <==> (old(g).edge(a, b) || (a == u as int && b == v as int)),
{
    let ghost n = old(g).n();
    let nn = g.adj.len();
    proof {
        assert(nn as int == n);
    }
    let present = vec_contains(&g.adj[u], v);
    if !present {
        let ghost oa = g.adj@[u as int]@;
        let ghost op = g.preds@[v as int]@;
        proof {
            assert(old(g).adj_has(u as int, v as int) <==> old(g).pred_has(v as int, u as int));
            assert(!op.contains(u));
            lemma_push_contains(oa, v);
            lemma_push_contains(op, u);
        }
        g.adj[u].push(v);
        g.preds[v].push(u);
        proof {
            assert(g.adj@[u as int]@ == oa.push(v));
            assert(g.preds@[v as int]@ == op.push(u));
            assert forall|a: int, b: int| 0 <= a < n && 0 <= b < n implies (#[trigger] g.adj_has(
                a,
                b,
            ) <==> #[trigger] g.pred_has(b, a)) by {
                assert(old(g).adj_has(a, b) <==> old(g).pred_has(b, a));
                if a == u as int && b == v as int {
                    assert(oa.push(v).contains(v));
                    assert(op.push(u).contains(u));
                } else if a == u as int {
                    assert(oa.push(v).contains(b as usize) <==> oa.contains(b as usize) || (
                    b as usize) == v);
                    assert((b as usize) != v);
                    assert(g.preds@[b]@ == old(g).preds@[b]@);
                } else if b == v as int {
                    assert(op.push(u).contains(a as usize) <==> op.contains(a as usize) || (
                    a as usize) == u);
                    assert((a as usize) != u);
                    assert(g.adj@[a]@ == old(g).adj@[a]@);
                } else {
                    assert(g.adj@[a]@ == old(g).adj@[a]@);
                    assert(g.preds@[b]@ == old(g).preds@[b]@);
                }
            }
            assert forall|a: int, b: int| #[trigger] final(g).edge(a, b) implies (old(g).edge(a, b)
                || (a == u as int && b == v as int)) by {
                if a == u as int {
                    assert(oa.push(v).contains(b as usize) <==> oa.contains(b as usize) || (
                    b as usize) == v);
                } else {
                    assert(g.adj@[a]@ == old(g).adj@[a]@);
                }
            }
            assert forall|a: int, b: int| old(g).edge(a, b) || (a == u as int && b
                == v as int) implies #[trigger] final(g).edge(a, b) by {
                if a == u as int {
                    assert(g.adj@[a]@ == oa.push(v));
                    assert(oa.push(v).contains(b as usize) <==> oa.contains(b as usize) || (
                    b as usize) == v);
                } else {
                    assert(g.adj@[a]@ == old(g).adj@[a]@);
                }
            }
        }
    } else {
        proof {
            assert forall|a: int, b: int| #[trigger] final(g).edge(a, b) <==> (old(g).edge(a, b)
                || (a == u as int && b == v as int)) by {
                assert(g.adj@[u as int]@.contains(v));
            }
        }
    }
}

/// Build the canonical graph from the bead list and an explicit edge
/// list.  Fails atomically with `UnknownNode` when any referenced
/// identifier names no bead; otherwise the result holds exactly the
/// deduplicated union of all declared edges.
#[verifier::rlimit(100)]
pub fn build_graph(beads: &Vec<BeadNode>, edges: &Vec<GraphEdge>) -> (r: Result<
    DepGraph,
    GraphError,
>)
    requires
        distinct_ids(beads@),
    ensures
        match r {
            Ok(g) => {
                &&& input_valid(beads@, edges@)
                &&& g.wf()
                &&& g.n() == beads@.len()
                &&& forall|u: int, v: int|
                    #[trigger] g.edge(u, v) <==> input_edge(beads@, edges@, u, v)
            },
            Err(e) => e == GraphError::UnknownNode && !input_valid(beads@, edges@),
        },
{
    let n = beads.len();
    let mut g = DepGraph { adj: Vec::new(), preds: Vec::new() };
    let mut t: usize = 0;
    while t < n
        invariant
            t <= n,
            g.adj@.len() == t,
            g.preds@.len() == t,
            forall|w: int| 0 <= w < t ==> g.adj@[w]@.len() == 0 && g.preds@[w]@.len() == 0,
        decreases n - t,
    {
        g.adj.push(Vec::new());
        g.preds.push(Vec::new());
        t += 1;
    }
    proof {
        assert forall|u: int, v: int| 0 <= u < n && 0 <= v < n implies (!g.adj_has(u, v)
            && !g.pred_has(v, u)) by {
            assert(g.adj@[u]@.len() == 0);
            assert(g.preds@[v]@.len() == 0);
        }
        assert(g.wf());
    }
    let mut i: usize = 0;
    while i < n
        invariant
            beads@.len() == n,
            i <= n,
            distinct_ids(beads@),
            g.wf(),
            g.n() == n,
            forall|u: int, v: int| #[trigger] g.edge(u, v) <==> bead_edge_upto(beads@, i as int, u, v),
            forall|a: int, b: int|
                0 <= a < i && 0 <= b < beads@[a].blocked_by@.len() ==> known_id(
                    beads@,
                    #[trigger] beads@[a].blocked_by@[b]@,
                ),
            forall|a: int, b: int|
                0 <= a < i && 0 <= b < beads@[a].blocks@.len() ==> known_id(
                    beads@,
                    #[trigger] beads@[a].blocks@[b]@,
                ),
        decreases n - i,
    {
        let mut j: usize = 0;
        while j < beads[i].blocked_by.len()
            invariant
                i < n,
                beads@.len() == n,
                distinct_ids(beads@),
                g.wf(),
                g.n() == n,
                j <= beads@[i as int].blocked_by@.len(),
                forall|u: int, v: int|
                    #[trigger] g.edge(u, v) <==> (bead_edge_upto(beads@, i as int, u, v) || (0 <= u
                        < n && v == i as int && lists_id_upto(
                        beads@[i as int].blocked_by@,
                        j as int,
                        beads@[u].id@,
                    ))),
                forall|b: int|
                    0 <= b < j ==> known_id(beads@, #[trigger] beads@[i as int].blocked_by@[b]@),
                forall|a: int, b: int|
                    0 <= a < i && 0 <= b < beads@[a].blocked_by@.len() ==> known_id(
                        beads@,
                        #[trigger] beads@[a].blocked_by@[b]@,
                    ),
                forall|a: int, b: int|
                    0 <= a < i && 0 <= b < beads@[a].blocks@.len() ==> known_id(
                        beads@,
                        #[trigger] beads@[a].blocks@[b]@,
                    ),
            decreases beads@[i as int].blocked_by@.len() - j,
        {
            let p = match find_bead(beads, &beads[i].blocked_by[j]) {
                Some(p) => p,
                None => {
                    proof {
                        assert(!refs_known(beads@));
                    }
                    return Err(GraphError::UnknownNode);
                },
            };
            proof {
                assert(beads@[p as int].id@ == beads@[i as int].blocked_by@[j as int]@);
                assert(known_id(beads@, beads@[i as int].blocked_by@[j as int]@));
            }
            add_edge(&mut g, p, i);
            proof {
                assert forall|u: int, v: int| #[trigger] g.edge(u, v) implies (bead_edge_upto(
                    beads@,
                    i as int,
                    u,
                    v,
                ) || (0 <= u < n && v == i as int && lists_id_upto(
                    beads@[i as int].blocked_by@,
                    j + 1,
                    beads@[u].id@,
                ))) by {
                    if u == p as int && v == i as int {
                        assert(beads@[i as int].blocked_by@[j as int]@ == beads@[u].id@);
                    }
                }
                assert forall|u: int, v: int| (bead_edge_upto(beads@, i as int, u, v) || (0 <= u < n
                    && v == i as int && lists_id_upto(
                    beads@[i as int].blocked_by@,
                    j + 1,
                    beads@[u].id@,
                ))) implies #[trigger] g.edge(u, v) by {
                    if !(bead_edge_upto(beads@, i as int, u, v) || (0 <= u < n && v == i as int
                        && lists_id_upto(beads@[i as int].blocked_by@, j as int, beads@[u].id@))) {
                        let m = choose|m: int|
                            0 <= m < j + 1 && beads@[i as int].blocked_by@[m]@ == beads@[u].id@;
                        assert(m == j);
                        assert(beads@[u].id@ == beads@[p as int].id@);
                        assert(u == p as int);
                    }
                }
            }
            j += 1;
        }
        let mut j: usize = 0;
        while j < beads[i].blocks.len()
            invariant
                i < n,
                beads@.len() == n,
                distinct_ids(beads@),
                g.wf(),
                g.n() == n,
                j <= beads@[i as int].blocks@.len(),
                forall|u: int, v: int|
                    #[trigger] g.edge(u, v) <==> (bead_edge_upto(beads@, i as int, u, v) || (0 <= v
                        < n && u == i as int && lists_id_upto(
                        beads@[i as int].blocks@,
                        j as int,
                        beads@[v].id@,
                    )) || (0 <= u < n && v == i as int && lists_id(
                        beads@[i as int].blocked_by@,
                        beads@[u].id@,
                    ))),
                forall|b: int|
                    0 <= b < j ==> known_id(beads@, #[trigger] beads@[i as int].blocks@[b]@),
                forall|a: int, b: int|
                    0 <= a <= i && a < n && 0 <= b < beads@[a].blocked_by@.len() ==> known_id(
                        beads@,
                        #[trigger] beads@[a].blocked_by@[b]@,
                    ),
                forall|a: int, b: int|
                    0 <= a < i && 0 <= b < beads@[a].blocks@.len() ==> known_id(
                        beads@,
                        #[trigger] beads@[a].blocks@[b]@,
                    ),
            decreases beads@[i as int].blocks@.len() - j,
        {
            let q = match find_bead(beads, &beads[i].blocks[j]) {
                Some(q) => q,
                None => {
                    proof {
                        assert(!blocks_refs_known(beads@));
                    }
                    return Err(GraphError::UnknownNode);
                },
            };
            proof {
                assert(beads@[q as int].id@ == beads@[i as int].blocks@[j as int]@);
                assert(known_id(beads@, beads@[i as int].blocks@[j as int]@));
            }
            add_edge(&mut g, i, q);
            proof {
                assert forall|u: int, v: int| #[trigger] g.edge(u, v) implies (bead_edge_upto(
                    beads@,
                    i as int,
                    u,
                    v,
                ) || (0 <= v < n && u == i as int && lists_id_upto(
                    beads@[i as int].blocks@,
                    j + 1,
                    beads@[v].id@,
                )) || (0 <= u < n && v == i as int && lists_id(
                    beads@[i as int].blocked_by@,
                    beads@[u].id@,
                ))) by {
                    if u == i as int && v == q as int {
                        assert(beads@[i as int].blocks@[j as int]@ == beads@[v].id@);
                    }
                }
                assert forall|u: int, v: int| (bead_edge_upto(beads@, i as int, u, v) || (0 <= v < n
                    && u == i as int && lists_id_upto(
                    beads@[i as int].blocks@,
                    j + 1,
                    beads@[v].id@,
                )) || (0 <= u < n && v == i as int && lists_id(
                    beads@[i as int].blocked_by@,
                    beads@[u].id@,
                ))) implies #[trigger] g.edge(u, v) by {
                    if !(bead_edge_upto(beads@, i as int, u, v) || (0 <= v < n && u == i as int
                        && lists_id_upto(beads@[i as int].blocks@, j as int, beads@[v].id@)) || (0
                        <= u < n && v == i as int && lists_id(
                        beads@[i as int].blocked_by@,
                        beads@[u].id@,
                    ))) {
                        let m = choose|m: int|
                            0 <= m < j + 1 && beads@[i as int].blocks@[m]@ == beads@[v].id@;
                        assert(m == j);
                        assert(beads@[v].id@ == beads@[q as int].id@);
                        assert(v == q as int);
                    }
                }
            }
            j += 1;
        }
        i += 1;
    }
    let mut k: usize = 0;
    while k < edges.len()
        invariant
            beads@.len() == n,
            distinct_ids(beads@),
            g.wf(),
            g.n() == n,
            k <= edges@.len(),
            refs_known(beads@),
            blocks_refs_known(beads@),
            forall|u: int, v: int|
                #[trigger] g.edge(u, v) <==> (bead_edge(beads@, u, v) || edge_listed_upto(
                    edges@,
                    k as int,
                    beads@,
                    u,
                    v,
                )),
            forall|m: int| 0 <= m < k ==> known_id(beads@, #[trigger] edges@[m].from@),
            forall|m: int| 0 <= m < k ==> known_id(beads@, #[trigger] edges@[m].to@),
        decreases edges@.len() - k,
    {
        let f = match find_bead(beads, &edges[k].from) {
            Some(f) => f,
            None => {
                proof {
                    assert(!edges_refs_known(edges@, beads@));
                }
                return Err(GraphError::UnknownNode);
            },
        };
        let d = match find_bead(beads, &edges[k].to) {
            Some(d) => d,
            None => {
                proof {
                    assert(!edges_refs_known(edges@, beads@));
                }
                return Err(GraphError::UnknownNode);
            },
        };
        proof {
            assert(beads@[f as int].id@ == edges@[k as int].from@);
            assert(known_id(beads@, edges@[k as int].from@));
            assert(beads@[d as int].id@ == edges@[k as int].to@);
            assert(known_id(beads@, edges@[k as int].to@));
        }
        add_edge(&mut g, f, d);
        proof {
            assert forall|u: int, v: int| #[trigger] g.edge(u, v) implies (bead_edge(beads@, u, v)
                || edge_listed_upto(edges@, k + 1, beads@, u, v)) by {
                if u == f as int && v == d as int {
                    assert(edges@[k as int].from@ == beads@[u].id@ && edges@[k as int].to@
                        == beads@[v].id@);
                }
            }
            assert forall|u: int, v: int| (bead_edge(beads@, u, v) || edge_listed_upto(
                edges@,
                k + 1,
                beads@,
                u,
                v,
            )) implies #[trigger] g.edge(u, v) by {
                if !(bead_edge(beads@, u, v) || edge_listed_upto(edges@, k as int, beads@, u, v)) {
                    let m = choose|m: int|
                        0 <= m < k + 1 && edges@[m].from@ == beads@[u].id@ && edges@[m].to@
                            == beads@[v].id@;
                    assert(m == k);
                    assert(u == f as int && v == d as int);
                }
            }
            assert forall|m: int| 0 <= m < k + 1 implies known_id(
                beads@,
                #[trigger] edges@[m].from@,
            ) by {
                if m == k {
                    assert((f as int) < beads@.len() && beads@[f as int].id@ == edges@[m].from@);
                }
            }
            assert forall|m: int| 0 <= m < k + 1 implies known_id(
                beads@,
                #[trigger] edges@[m].to@,
            ) by {
                if m == k {
                    assert((d as int) < beads@.len() && beads@[d as int].id@ == edges@[m].to@);
                }
            }
        }
        k += 1;
    }
    Ok(g)
}

} // verus!

verus! {

/// The canonical id-level dependency graph: every declared bead id, in
/// input order, and every declared edge exactly once as an id pair.
#[derive(Debug)]
pub struct BeadGraph {
    pub nodes: Vec<String>,
    pub edges: Vec<(String, String)>,
}

/// Build the id-level adjacency representation: the node list in input
/// order and the deduplicated directed edges as id pairs.
#[verifier::rlimit(100)]
#[verifier::loop_isolation(false)]
pub fn build_adjacency(beads: &Vec<BeadNode>) -> (r: Result<BeadGraph, GraphError>)
    requires
        distinct_ids(beads@),
    ensures
        match r {
            Ok(bg) => {
                &&& beads_valid(beads@)
                &&& bg.nodes@.len() == beads@.len()
                &&& forall|i: int|
                    0 <= i < beads@.len() ==> #[trigger] bg.nodes@[i]@ == beads@[i].id@
                &&& forall|u: int, v: int|
                    0 <= u < beads@.len() && 0 <= v < beads@.len() ==> (#[trigger] bead_edge(
                        beads@,
                        u,
                        v,
                    ) <==> exists|k: int|
                        0 <= k < bg.edges@.len() && (#[trigger] bg.edges@[k]).0@ == beads@[u].id@
                            && bg.edges@[k].1@ == beads@[v].id@)
                &&& forall|k: int|
                    0 <= k < bg.edges@.len() ==> known_id(beads@, (#[trigger] bg.edges@[k]).0@)
                        && known_id(beads@, bg.edges@[k].1@)
                &&& forall|k1: int, k2: int|
                    0 <= k1 < k2 < bg.edges@.len() ==> !((#[trigger] bg.edges@[k1]).0@ == (
                    #[trigger] bg.edges@[k2]).0@ && bg.edges@[k1].1@ == bg.edges@[k2].1@)
            },
            Err(e) => e == GraphError::UnknownNode && !beads_valid(beads@),
        },
{
    let empty_edges: Vec<GraphEdge> = Vec::new();
    let g = match build_graph(beads, &empty_edges) {
        Ok(g) => g,
        Err(e) => {
            return Err(GraphError::UnknownNode);
        },
    };
    let n = beads.len();
    proof {
        assert forall|u: int, v: int| #[trigger] g.edge(u, v) <==> bead_edge(beads@, u, v) by {
            if edge_listed(empty_edges@, beads@, u, v) {
                let k = choose|k: int|
                    0 <= k < empty_edges@.len() && empty_edges@[k].from@ == beads@[u].id@
                        && empty_edges@[k].to@ == beads@[v].id@;
            }
        }
    }
    let mut nodes: Vec<String> = Vec::new();
    let mut i: usize = 0;
    while i < n
        invariant
            i <= n,
            nodes@.len() == i,
            forall|m: int| 0 <= m < i ==> #[trigger] nodes@[m]@ == beads@[m].id@,
        decreases n - i,
    {
        nodes.push(beads[i].id.clone());
        i += 1;
    }
    let mut edges: Vec<(String, String)> = Vec::new();
    let ghost mut pairs: Seq<(int, int)> = Seq::empty();
    let mut u: usize = 0;
    while u < n
        invariant
            u <= n,
            pairs.len() == edges@.len(),
            forall|k: int|
                0 <= k < pairs.len() ==> 0 <= (#[trigger] pairs[k]).0 < n && 0 <= pairs[k].1 < n,
            forall|k: int|
                0 <= k < pairs.len() ==> (#[trigger] edges@[k]).0@ == beads@[pairs[k].0].id@
                    && edges@[k].1@ == beads@[pairs[k].1].id@,
            forall|k: int| 0 <= k < pairs.len() ==> g.edge((#[trigger] pairs[k]).0, pairs[k].1),
            forall|k1: int, k2: int| 0 <= k1 < k2 < pairs.len() ==> pairs[k1] != pairs[k2],
            forall|a: int, b: int|
                #[trigger] g.edge(a, b) && a < u ==> pairs.contains((a, b)),
            forall|k: int| 0 <= k < pairs.len() ==> (#[trigger] pairs[k]).0 < u,
        decreases n - u,
    {
        let row_len = g.adj[u].len();
        let mut m: usize = 0;
        while m < row_len
            invariant
                u < n,
                row_len == g.adj@[u as int]@.len(),
                m <= row_len,
                pairs.len() == edges@.len(),
                forall|k: int|
                    0 <= k < pairs.len() ==> 0 <= (#[trigger] pairs[k]).0 < n && 0 <= pairs[k].1
                        < n,
                forall|k: int|
                    0 <= k < pairs.len() ==> (#[trigger] edges@[k]).0@ == beads@[pairs[k].0].id@
                        && edges@[k].1@ == beads@[pairs[k].1].id@,
                forall|k: int| 0 <= k < pairs.len() ==> g.edge((#[trigger] pairs[k]).0, pairs[k].1),
                forall|k1: int, k2: int| 0 <= k1 < k2 < pairs.len() ==> pairs[k1] != pairs[k2],
                forall|a: int, b: int|
                    #[trigger] g.edge(a, b) && a < u ==> pairs.contains((a, b)),
                forall|mm: int|
                    0 <= mm < m ==> pairs.contains(
                        (u as int, #[trigger] g.adj@[u as int]@[mm] as int),
                    ),
                forall|k: int|
                    0 <= k < pairs.len() ==> ((#[trigger] pairs[k]).0 < u || (pairs[k].0 == u as int
                        && g.adj@[u as int]@.subrange(0, m as int).contains(
                        pairs[k].1 as usize,
                    ))),
            decreases row_len - m,
        {
            let w = g.adj[u][m];
            proof {
                assert(g.adj@[u as int]@.contains(w));
                assert(g.edge(u as int, w as int));
            }
            edges.push((beads[u].id.clone(), beads[w].id.clone()));
            proof {
                let old_pairs = pairs;
                pairs = pairs.push((u as int, w as int));
                assert(pairs[pairs.len() - 1] == (u as int, w as int));
                crate::graph::lemma_push_contains(old_pairs, (u as int, w as int));
                assert forall|k1: int, k2: int| 0 <= k1 < k2 < pairs.len() implies pairs[k1]
                    != pairs[k2] by {
                    if k2 == pairs.len() - 1 {
                        if pairs[k1] == (u as int, w as int) {
                            assert(old_pairs[k1].0 == u as int);
                            assert(g.adj@[u as int]@.subrange(0, m as int).contains(
                                old_pairs[k1].1 as usize,
                            ));
                            let mm = choose|mm: int|
                                0 <= mm < m && g.adj@[u as int]@.subrange(0, m as int)[mm]
                                    == old_pairs[k1].1 as usize;
                            assert(g.adj@[u as int]@[mm] == g.adj@[u as int]@[m as int]);
                            assert(g.adj@[u as int]@.no_duplicates());
                        }
                    }
                }
                assert forall|k: int| 0 <= k < pairs.len() implies ((#[trigger] pairs[k]).0 < u || (
                pairs[k].0 == u as int && g.adj@[u as int]@.subrange(0, m + 1).contains(
                    pairs[k].1 as usize,
                ))) by {
                    if k < pairs.len() - 1 {
                        if old_pairs[k].0 == u as int {
                            let mm = choose|mm: int|
                                0 <= mm < m && g.adj@[u as int]@.subrange(0, m as int)[mm]
                                    == old_pairs[k].1 as usize;
                            assert(g.adj@[u as int]@.subrange(0, m + 1)[mm] == old_pairs[
                                k].1 as usize);
                        }
                    } else {
                        assert(g.adj@[u as int]@.subrange(0, m + 1)[m as int] == w);
                    }
                }
                assert forall|mm: int| 0 <= mm < m + 1 implies pairs.contains(
                    (u as int, #[trigger] g.adj@[u as int]@[mm] as int),
                ) by {
                    if mm < m {
                        assert(old_pairs.contains((u as int, g.adj@[u as int]@[mm] as int)));
                        let k = choose|k: int|
                            0 <= k < old_pairs.len() && old_pairs[k] == (
                            u as int,
                            g.adj@[u as int]@[mm] as int,
                            );
                        assert(pairs[k] == (u as int, g.adj@[u as int]@[mm] as int));
                    }
                }
            }
            m += 1;
        }
        u += 1;
        proof {
            assert forall|a: int, b: int| #[trigger] g.edge(a, b) && a < u implies pairs.contains(
                (a, b),
            ) by {
                if a == u - 1 {
                    let mm = choose|mm: int|
                        0 <= mm < g.adj@[a]@.len() && g.adj@[a]@[mm] == b as usize;
                    assert(pairs.contains((a, g.adj@[a]@[mm] as int)));
                }
            }
        }
    }
    let bg = BeadGraph { nodes, edges };
    proof {
        assert forall|a: int, b: int| #[trigger] bead_edge(beads@, a, b) implies exists|k: int|
            0 <= k < bg.edges@.len() && (#[trigger] bg.edges@[k]).0@ == beads@[a].id@
                && bg.edges@[k].1@ == beads@[b].id@ by {
            assert(g.edge(a, b));
            assert(pairs.contains((a, b)));
            let k = choose|k: int| 0 <= k < pairs.len() && pairs[k] == (a, b);
            assert((bg.edges@[k]).0@ == beads@[a].id@ && bg.edges@[k].1@ == beads@[b].id@);
        }
        assert forall|a: int, b: int|
            (exists|k: int|
                0 <= k < bg.edges@.len() && (#[trigger] bg.edges@[k]).0@ == beads@[a].id@
                    && bg.edges@[k].1@ == beads@[b].id@) && 0 <= a < n && 0 <= b
            < n implies bead_edge(beads@, a, b) by {
            let k = choose|k: int|
                0 <= k < bg.edges@.len() && (bg.edges@[k]).0@ == beads@[a].id@ && bg.edges@[k].1@
                    == beads@[b].id@;
            assert(beads@[pairs[k].0].id@ == beads@[a].id@);
            assert(beads@[pairs[k].1].id@ == beads@[b].id@);
            assert(pairs[k].0 == a && pairs[k].1 == b);
            assert(g.edge(a, b));
        }
        assert forall|k: int| 0 <= k < bg.edges@.len() implies known_id(
            beads@,
            (#[trigger] bg.edges@[k]).0@,
        ) && known_id(beads@, bg.edges@[k].1@) by {
            assert(bg.edges@[k].0@ == beads@[pairs[k].0].id@);
            assert(bg.edges@[k].1@ == beads@[pairs[k].1].id@);
        }
        assert forall|k1: int, k2: int| 0 <= k1 < k2 < bg.edges@.len() implies !((
        #[trigger] bg.edges@[k1]).0@ == (#[trigger] bg.edges@[k2]).0@ && bg.edges@[k1].1@
            == bg.edges@[k2].1@) by {
            if bg.edges@[k1].0@ == bg.edges@[k2].0@ && bg.edges@[k1].1@ == bg.edges@[k2].1@ {
                assert(beads@[pairs[k1].0].id@ == beads@[pairs[k2].0].id@);
                assert(beads@[pairs[k1].1].id@ == beads@[pairs[k2].1].id@);
                assert(pairs[k1].0 == pairs[k2].0 && pairs[k1].1 == pairs[k2].1);
                assert(pairs[k1] == pairs[k2]);
            }
        }
    }
    Ok(bg)
}

} // verus!
