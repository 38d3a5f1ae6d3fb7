//! The ordered-edge search component.
//!
//! Given one node's sibling edges, [`arrange`] performs the one-time
//! reorganization that repeated lookups rely on — sorting the edges by
//! label — and [`find`] locates, in `O(log n)` comparisons by binary
//! search, the one edge whose label is a prefix of the probed path, or
//! reports that none is.  Sibling labels never share a first byte, so
//! sorting by first byte is sorting lexicographically, and at most one
//! label can be a prefix of the path.

use vstd::prelude::*;

use crate::bytes::{is_prefix, starts_with};
use crate::path::{
    edge_for, edges_ok, edges_sorted, has_edge, lemma_edge_for, lemma_edges_push,
    lemma_edges_remove, remove_at, PathEdge,
};

verus! {

/// The index of an edge with the smallest first byte.
fn find_min(es: &Vec<PathEdge>) -> (m: usize)
    requires
        es@.len() > 0,
        edges_ok(es@),
    ensures
        m < es@.len(),
        forall|t: int| 0 <= t < es@.len() ==> es@[m as int].prefix@[0] <= es@[t].prefix@[0],
{
    let mut m: usize = 0;
    let mut k: usize = 1;
    while k < es.len()
        invariant
            edges_ok(es@),
            0 <= m < k <= es@.len(),
            es@.len() > 0,
            forall|t: int| 0 <= t < k ==> es@[m as int].prefix@[0] <= es@[t].prefix@[0],
        decreases es@.len() - k,
    {
        if es[k].prefix[0] < es[m].prefix[0] {
            m = k;
        }
        k = k + 1;
    }
    m
}

/// One-time reorganization of a label-sorted lookup sequence: sorts the
/// edges by label (selection sort on first bytes, which sibling edges
/// never share).  Which edge each byte selects is unchanged.
pub fn arrange(edges: &mut Vec<PathEdge>)
    requires
        edges_ok(old(edges)@),
    ensures
        edges_ok(final(edges)@),
        edges_sorted(final(edges)@),
        final(edges)@.len() == old(edges)@.len(),
        forall|b: u8| #[trigger] has_edge(final(edges)@, b) == has_edge(old(edges)@, b),
        forall|b: u8|
            has_edge(old(edges)@, b) ==> #[trigger] edge_for(final(edges)@, b) == edge_for(
                old(edges)@,
                b,
            ),
{
    let ghost g = old(edges)@;
    let mut out: Vec<PathEdge> = Vec::new();
    while edges.len() > 0
        invariant
            edges_ok(edges@),
            edges_ok(out@),
            edges_sorted(out@),
            out@.len() + edges@.len() == g.len(),
            forall|b: u8| #[trigger] has_edge(g, b) == (has_edge(out@, b) || has_edge(edges@, b)),
            forall|b: u8| !(#[trigger] has_edge(out@, b) && has_edge(edges@, b)),
            forall|b: u8|
                has_edge(out@, b) ==> #[trigger] edge_for(out@, b) == edge_for(g, b),
            forall|b: u8|
                has_edge(edges@, b) ==> #[trigger] edge_for(edges@, b) == edge_for(g, b),
            forall|k1: int, k2: int|
                0 <= k1 < out@.len() && 0 <= k2 < edges@.len() ==> out@[k1].prefix@[0]
                    < edges@[k2].prefix@[0],
        decreases edges@.len(),
    {
        let m = find_min(edges);
        let ghost before = edges@;
        let ghost mb = before[m as int].prefix@[0];
        proof {
            lemma_edge_for(before, mb, m as int);
            lemma_edges_remove(before, m as int);
        }
        let e = edges.swap_remove(m);
        proof {
            assert(edges@ == remove_at(before, m as int));
            assert(!has_edge(out@, mb));
            lemma_edges_push(out@, e);
        }
        out.push(e);
        proof {
            assert forall|b: u8| has_edge(edges@, b) implies #[trigger] edge_for(edges@, b)
                == edge_for(g, b) by {
                assert(!has_edge(edges@, mb));
                assert(b != mb);
                assert(has_edge(before, b));
                assert(edge_for(edges@, b) == edge_for(before, b));
            }
            let ob = out@.drop_last();
            assert(out@ == ob.push(e));
            assert forall|k1: int, k2: int|
                0 <= k1 < out@.len() && 0 <= k2 < edges@.len() implies out@[k1].prefix@[0]
                < edges@[k2].prefix@[0] by {
                let cb = edges@[k2].prefix@[0];
                assert(edges@[k2] == (if k2 == m {
                    before[before.len() - 1]
                } else {
                    before[k2]
                }));
                assert(cb != mb);
                if k1 < out@.len() - 1 {
                    assert(out@[k1] == ob[k1]);
                } else {
                    assert(out@[k1] == e);
                    assert(mb <= cb);
                }
            }
            assert(edges_sorted(out@)) by {
                assert forall|k1: int, k2: int| 0 <= k1 < k2 < out@.len() implies out@[k1].prefix@[0]
                    < out@[k2].prefix@[0] by {
                    if k2 == out@.len() - 1 {
                        assert(out@[k1] == ob[k1]);
                        assert(out@[k2] == e);
                        assert(before[m as int] == e);
                    }
                }
            }
        }
    }
    *edges = out;
}

/// Finds the edge whose label is a prefix of `path`, by binary search over
/// the sorted labels.  The three-way comparison treats a label that
/// prefixes the path as equal to it and orders any other label against the
/// path by its (distinct) first byte.
pub fn find(edges: &Vec<PathEdge>, path: &[u8]) -> (r: Option<usize>)
    requires
        edges_ok(edges@),
        edges_sorted(edges@),
    ensures
        match r {
            Some(j) => j < edges@.len() && is_prefix(edges@[j as int].prefix@, path@),
            None => forall|k: int|
                0 <= k < edges@.len() ==> !is_prefix((#[trigger] edges@[k]).prefix@, path@),
        },
{
    if path.len() == 0 {
        return None;
    }
    let b0 = *vstd::slice::slice_index_get(path, 0);
    let mut lo: usize = 0;
    let mut hi: usize = edges.len();
    while lo < hi
        invariant
            edges_ok(edges@),
            edges_sorted(edges@),
            0 <= lo <= hi <= edges@.len(),
            path@.len() > 0,
            b0 == path@[0],
            forall|k: int| 0 <= k < lo ==> (#[trigger] edges@[k]).prefix@[0] < b0,
            forall|k: int| hi <= k < edges@.len() ==> (#[trigger] edges@[k]).prefix@[0] > b0,
        decreases hi - lo,
    {
        let mid = lo + (hi - lo) / 2;
        let bm = edges[mid].prefix[0];
        if bm == b0 {
            if starts_with(path, edges[mid].prefix.as_slice()) {
                return Some(mid);
            } else {
                proof {
                    assert forall|k: int| 0 <= k < edges@.len() implies !is_prefix(
                        (#[trigger] edges@[k]).prefix@,
                        path@,
                    ) by {
                        if k != mid as int {
                            assert(edges@[k].prefix@[0] != b0);
                        }
                    }
                }
                return None;
            }
        } else if bm < b0 {
            lo = mid + 1;
        } else {
            hi = mid;
        }
    }
    proof {
        assert forall|k: int| 0 <= k < edges@.len() implies !is_prefix(
            (#[trigger] edges@[k]).prefix@,
            path@,
        ) by {
            assert(edges@[k].prefix@[0] != b0);
        }
    }
    None
}

} // verus!
