//! Readiness: which beads may start immediately.
//!
//! A bead is ready when its `blocked_by` set is empty, or when every
//! identifier in it names a bead whose status is the terminal "done".

use vstd::prelude::*;
use crate::BeadNode;
use crate::graph::GraphError;
use crate::graph::GraphEdge;
use crate::graph::bead_index;
use crate::graph::beads_valid;
use crate::graph::build_graph;
use crate::graph::distinct_ids;
use crate::graph::find_bead;
use crate::graph::known_id;
use crate::graph::lists_id;
use crate::graph::refs_known;

verus! {

/// The terminal status value.
pub open spec fn done_status() -> Seq<char> {
    "done"@
}

/// Bead `i` is ready: every entry of its `blocked_by` list names a bead
/// whose status equals the terminal "done" (vacuously so when empty).
pub open spec fn is_ready(beads: Seq<BeadNode>, i: int) -> bool {
    forall|j: int|
        0 <= j < beads[i].blocked_by@.len() ==> beads[bead_index(
            beads,
            #[trigger] beads[i].blocked_by@[j]@,
        )].status@ == done_status()
}

/// The ids of exactly the ready beads, in input order.
pub fn get_ready_beads(beads: &Vec<BeadNode>) -> (r: Result<Vec<String>, GraphError>)
    requires
        distinct_ids(beads@),
    ensures
        match r {
            Ok(ready) => {
                &&& beads_valid(beads@)
                &&& forall|i: int|
                    0 <= i < beads@.len() ==> (lists_id(ready@, #[trigger] beads@[i].id@)
                        <==> is_ready(beads@, i))
                &&& forall|k: int| 0 <= k < ready@.len() ==> known_id(beads@, #[trigger] ready@[k]@)
                &&& forall|k1: int, k2: int|
                    0 <= k1 < k2 < ready@.len() ==> bead_index(beads@, #[trigger] ready@[k1]@)
                        < bead_index(beads@, #[trigger] ready@[k2]@)
            },
            Err(e) => e == GraphError::UnknownNode && !beads_valid(beads@),
        },
{
    let empty_edges: Vec<GraphEdge> = Vec::new();
    let _g = match build_graph(beads, &empty_edges) {
        Ok(g) => g,
        Err(e) => {
            return Err(GraphError::UnknownNode);
        },
    };
    let n = beads.len();
    let done_word: String = "done".to_owned();
    let mut ready: Vec<String> = Vec::new();
    let ghost mut idxs: Seq<usize> = Seq::empty();
    let mut i: usize = 0;
    while i < n
        invariant
            beads@.len() == n,
            distinct_ids(beads@),
            refs_known(beads@),
            done_word@ == done_status(),
            i <= n,
            idxs.len() == ready@.len(),
            forall|m: int| 0 <= m < idxs.len() ==> (#[trigger] idxs[m] as int) < i,
            forall|m1: int, m2: int| 0 <= m1 < m2 < idxs.len() ==> idxs[m1] < idxs[m2],
            forall|m: int|
                0 <= m < idxs.len() ==> #[trigger] ready@[m]@ == beads@[idxs[m] as int].id@,
            forall|m: int| 0 <= m < idxs.len() ==> is_ready(beads@, #[trigger] idxs[m] as int),
            forall|q: int| 0 <= q < i && is_ready(beads@, q) ==> idxs.contains(q as usize),
        decreases n - i,
    {
        let mut ok = true;
        let mut j: usize = 0;
        let blocked_len = beads[i].blocked_by.len();
        while j < blocked_len
            invariant
                beads@.len() == n,
                distinct_ids(beads@),
                refs_known(beads@),
                done_word@ == done_status(),
                i < n,
                j <= blocked_len,
                blocked_len == beads@[i as int].blocked_by@.len(),
                ok == (forall|j2: int|
                    0 <= j2 < j ==> beads@[bead_index(
                        beads@,
                        #[trigger] beads@[i as int].blocked_by@[j2]@,
                    )].status@ == done_status()),
            decreases blocked_len - j,
        {
            let p = match find_bead(beads, &beads[i].blocked_by[j]) {
                Some(p) => p,
                None => {
                    proof {
                        assert(known_id(beads@, beads@[i as int].blocked_by@[j as int]@));
                        assert(false);
                    }
                    return Err(GraphError::UnknownNode);
                },
            };
            proof {
                assert(beads@[p as int].id@ == beads@[i as int].blocked_by@[j as int]@);
                crate::topo::lemma_bead_index_of(beads@, p as int);
                assert(bead_index(beads@, beads@[i as int].blocked_by@[j as int]@) == p as int);
            }
            let this_done = beads[p].status == done_word;
            let ghost old_ok = ok;
            if !this_done {
                ok = false;
            }
            j += 1;
            proof {
                assert forall|j2: int| 0 <= j2 < j implies (beads@[bead_index(
                    beads@,
                    #[trigger] beads@[i as int].blocked_by@[j2]@,
                )].status@ == done_status()) == (if j2 < j - 1 {
                    true
                } else {
                    this_done
                }) || !old_ok by {}
            }
        }
        proof {
            if ok {
                assert(is_ready(beads@, i as int));
            } else {
                assert(!is_ready(beads@, i as int));
            }
        }
        if ok {
            ready.push(beads[i].id.clone());
            proof {
                let old_idxs = idxs;
                idxs = idxs.push(i);
                crate::graph::lemma_push_contains(old_idxs, i);
            }
        }
        i += 1;
    }
    proof {
        assert forall|i2: int| 0 <= i2 < beads@.len() implies (lists_id(
            ready@,
            #[trigger] beads@[i2].id@,
        ) <==> is_ready(beads@, i2)) by {
            if lists_id(ready@, beads@[i2].id@) {
                let m = choose|m: int| 0 <= m < ready@.len() && ready@[m]@ == beads@[i2].id@;
                assert(ready@[m]@ == beads@[idxs[m] as int].id@);
                assert(idxs[m] as int == i2);
                assert(is_ready(beads@, i2));
            }
            if is_ready(beads@, i2) {
                assert(idxs.contains(i2 as usize));
                let m = choose|m: int| 0 <= m < idxs.len() && idxs[m] == i2 as usize;
                assert(ready@[m]@ == beads@[i2].id@);
                assert(lists_id(ready@, beads@[i2].id@));
            }
        }
        assert forall|k: int| 0 <= k < ready@.len() implies known_id(
            beads@,
            #[trigger] ready@[k]@,
        ) by {
            assert(ready@[k]@ == beads@[idxs[k] as int].id@);
        }
        assert forall|k1: int, k2: int| 0 <= k1 < k2 < ready@.len() implies bead_index(
            beads@,
            #[trigger] ready@[k1]@,
        ) < bead_index(beads@, #[trigger] ready@[k2]@) by {
            crate::topo::lemma_bead_index_of(beads@, idxs[k1] as int);
            crate::topo::lemma_bead_index_of(beads@, idxs[k2] as int);
            assert(ready@[k1]@ == beads@[idxs[k1] as int].id@);
            assert(ready@[k2]@ == beads@[idxs[k2] as int].id@);
        }
    }
    Ok(ready)
}

} // verus!
