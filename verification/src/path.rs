//! The compressed path trie.
//!
//! A [`PathNode`] stores the [`FlagSet`](crate::flags::FlagSet) of pairs
//! granted for "path ends exactly here" and a list of labelled edges to
//! child nodes.  No two sibling edges start with the same byte and no edge
//! label is empty, so every byte string descends along at most one edge.
//!
//! The mathematical model is the total function [`grants`]: the accumulated
//! grant bits stored for each exact (normalized) path, zero for paths that
//! have no node.  [`covers`] then states what a lookup means: some prefix of
//! the probed path has both probe bits granted.

use vstd::prelude::*;
use vstd::string::StringSliceAdditionalSpecFns;

use crate::bytes::{is_prefix, lcp, lcp_ok, lemma_eq_from_parts, lemma_prefix_same_len, lemma_prefix_split, lemma_skip_skip, norm, norm_slice, subrange_vec};
use crate::flags::{flag_bits, flags_contain, lemma_flag_nonzero, FlagSet, ReqType};

verus! {

/// An edge of the path trie: an owned path sub-segment label and the node
/// it leads to.
#[derive(Debug)]
pub struct PathEdge {
    pub prefix: Vec<u8>,
    pub node: PathNode,
}

/// One point in the compressed path trie.
#[derive(Debug)]
pub struct PathNode {
    pub flags: FlagSet,
    pub children: Vec<PathEdge>,
}

/// The edge `e` is the one a remaining path starting with byte `b` would
/// descend along.
pub open spec fn edge_matches(e: PathEdge, b: u8) -> bool {
    e.prefix@.len() > 0 && e.prefix@[0] == b
}

/// Some edge of `es` starts with byte `b`.
pub open spec fn has_edge(es: Seq<PathEdge>, b: u8) -> bool {
    exists|i: int| 0 <= i < es.len() && edge_matches(#[trigger] es[i], b)
}

/// The edge of `es` that starts with byte `b` (unique when [`edges_ok`]).
pub open spec fn edge_for(es: Seq<PathEdge>, b: u8) -> PathEdge {
    es[choose|i: int| 0 <= i < es.len() && edge_matches(#[trigger] es[i], b)]
}

/// Local well-formedness of one node's edge list: labels are non-empty and
/// sibling labels are prefix-disjoint because they differ in their first
/// byte.
pub open spec fn edges_ok(es: Seq<PathEdge>) -> bool {
    &&& forall|i: int| 0 <= i < es.len() ==> (#[trigger] es[i]).prefix@.len() > 0
    &&& forall|i: int, j: int|
        0 <= i < j < es.len() ==> es[i].prefix@[0] != es[j].prefix@[0]
}

/// Well-formedness of a whole path trie.
pub open spec fn wf_path(n: PathNode) -> bool
    decreases n,
{
    &&& edges_ok(n.children@)
    &&& forall|i: int|
        0 <= i < n.children@.len() ==> wf_path((#[trigger] n.children@[i]).node)
}

/// The model of a path trie: the grant bits accumulated at the node reached
/// by descending along exactly the byte string `p`, or zero when no such
/// node exists.
pub open spec fn grants(n: PathNode, p: Seq<u8>) -> u32
    decreases p.len(),
{
    if p.len() == 0 {
        n.flags.0
    } else if has_edge(n.children@, p[0]) {
        let e = edge_for(n.children@, p[0]);
        if e.prefix@.len() <= p.len() && is_prefix(e.prefix@, p) {
            grants(e.node, p.skip(e.prefix@.len() as int))
        } else {
            0u32
        }
    } else {
        0u32
    }
}

/// What a lookup means: the probe `f` is covered when some prefix of `p`
/// leads to a node whose accumulated grants contain both probe bits.
pub open spec fn covers(n: PathNode, f: u32, p: Seq<u8>) -> bool {
    exists|i: int| 0 <= i <= p.len() && flags_contain(grants(n, #[trigger] p.take(i)), f)
}

/// Sibling edges are kept sorted by label after [`PathNode::arrange`];
/// with distinct first bytes, lexicographic order is first-byte order.
pub open spec fn edges_sorted(es: Seq<PathEdge>) -> bool {
    forall|i: int, j: int|
        0 <= i < j < es.len() ==> es[i].prefix@[0] < es[j].prefix@[0]
}

/// Every edge list of the trie is sorted, the state [`PathNode::arrange`]
/// establishes and lookups rely on.
pub open spec fn path_arranged(n: PathNode) -> bool
    decreases n,
{
    &&& edges_sorted(n.children@)
    &&& forall|i: int|
        0 <= i < n.children@.len() ==> path_arranged((#[trigger] n.children@[i]).node)
}

/// Under [`edges_ok`], the edge matching a byte is unique, so [`edge_for`]
/// returns exactly the matching entry.
pub proof fn lemma_edge_for(es: Seq<PathEdge>, b: u8, i: int)
    requires
        edges_ok(es),
        0 <= i < es.len(),
        edge_matches(es[i], b),
    ensures
        has_edge(es, b),
        edge_for(es, b) == es[i],
{
    let j = choose|j: int| 0 <= j < es.len() && edge_matches(#[trigger] es[j], b);
    if i != j {
        assert(es[i].prefix@[0] != es[j].prefix@[0]);
    }
}

/// The edge list after removing the entry at `j` (by swapping in the last
/// entry, as `Vec::swap_remove` does) and pushing a replacement `e2`.
pub open spec fn replace_at(es: Seq<PathEdge>, j: int, e2: PathEdge) -> Seq<PathEdge> {
    es.update(j, es.last()).drop_last().push(e2)
}

/// Replacing the edge at `j` by one with the same first byte preserves
/// local well-formedness and leaves every other byte's edge untouched.
pub proof fn lemma_edges_replace(es: Seq<PathEdge>, j: int, e2: PathEdge)
    requires
        edges_ok(es),
        0 <= j < es.len(),
        e2.prefix@.len() > 0,
        e2.prefix@[0] == es[j].prefix@[0],
    ensures
        ({
            let new = replace_at(es, j, e2);
            &&& new.len() == es.len()
            &&& edges_ok(new)
            &&& has_edge(new, e2.prefix@[0])
            &&& edge_for(new, e2.prefix@[0]) == e2
            &&& forall|b: u8| b != e2.prefix@[0] ==> has_edge(new, b) == has_edge(es, b)
            &&& forall|b: u8|
                b != e2.prefix@[0] && has_edge(es, b) ==> edge_for(new, b) == edge_for(es, b)
            &&& forall|k: int|
                0 <= k < new.len() ==> (#[trigger] new[k] == e2 || exists|m: int|
                    0 <= m < es.len() && m != j && new[k] == es[m])
        }),
{
    let new = replace_at(es, j, e2);
    let n = es.len();
    assert(new.len() == n);
    // Where each entry of `new` comes from in `es`.
    assert forall|k: int| 0 <= k < n - 1 implies new[k] == (if k == j {
        es[n - 1]
    } else {
        es[k]
    }) by {}
    assert(new[n - 1] == e2);
    assert forall|k: int| 0 <= k < new.len() implies (#[trigger] new[k] == e2 || exists|m: int|
        0 <= m < es.len() && m != j && new[k] == es[m]) by {
        if k < n - 1 {
            if k == j {
                if j != n - 1 {
                    assert(new[k] == es[n - 1] && n - 1 != j);
                }
            } else {
                assert(new[k] == es[k] && k != j);
            }
        }
    }
    assert(edges_ok(new)) by {
        assert forall|k1: int, k2: int| 0 <= k1 < k2 < new.len() implies new[k1].prefix@[0]
            != new[k2].prefix@[0] by {
            if k2 == n - 1 {
                // new[k2] == e2; new[k1] is es[m] for some m != j
                if k1 == j {
                    assert(j != n - 1 ==> new[k1] == es[n - 1]);
                } else {
                    assert(new[k1] == es[k1]);
                }
            }
        }
    }
    assert(edge_matches(new[n - 1], e2.prefix@[0]));
    lemma_edge_for(new, e2.prefix@[0], n - 1);
    assert forall|b: u8| b != e2.prefix@[0] implies has_edge(new, b) == has_edge(es, b) by {
        if has_edge(new, b) {
            let k = choose|k: int| 0 <= k < new.len() && edge_matches(#[trigger] new[k], b);
            if k < n - 1 {
                if k == j {
                    assert(j != n - 1 ==> edge_matches(es[n - 1], b));
                } else {
                    assert(edge_matches(es[k], b));
                }
            }
            assert(has_edge(es, b));
        }
        if has_edge(es, b) {
            let m = choose|m: int| 0 <= m < es.len() && edge_matches(#[trigger] es[m], b);
            assert(m != j);
            if m == n - 1 {
                if j < n - 1 {
                    assert(new[j] == es[n - 1]);
                    assert(edge_matches(new[j], b));
                }
            } else {
                assert(new[m] == es[m]);
                assert(edge_matches(new[m], b));
            }
            assert(has_edge(new, b));
        }
    }
    assert forall|b: u8| b != e2.prefix@[0] && has_edge(es, b) implies edge_for(new, b)
        == edge_for(es, b) by {
        let m = choose|m: int| 0 <= m < es.len() && edge_matches(#[trigger] es[m], b);
        lemma_edge_for(es, b, m);
        assert(m != j);
        if m == n - 1 {
            if j < n - 1 {
                lemma_edge_for(new, b, j);
            } else {
                // j == n - 1 and m == n - 1 contradict m != j
                assert(false);
            }
        } else {
            lemma_edge_for(new, b, m);
        }
    }
}

/// Appending an edge whose first byte is fresh preserves local
/// well-formedness and leaves every other byte's edge untouched.
pub proof fn lemma_edges_push(es: Seq<PathEdge>, e2: PathEdge)
    requires
        edges_ok(es),
        e2.prefix@.len() > 0,
        !has_edge(es, e2.prefix@[0]),
    ensures
        ({
            let new = es.push(e2);
            &&& edges_ok(new)
            &&& has_edge(new, e2.prefix@[0])
            &&& edge_for(new, e2.prefix@[0]) == e2
            &&& forall|b: u8| b != e2.prefix@[0] ==> has_edge(new, b) == has_edge(es, b)
            &&& forall|b: u8|
                b != e2.prefix@[0] && has_edge(es, b) ==> edge_for(new, b) == edge_for(es, b)
        }),
{
    let new = es.push(e2);
    let n = es.len();
    assert(edges_ok(new)) by {
        assert forall|k1: int, k2: int| 0 <= k1 < k2 < new.len() implies new[k1].prefix@[0]
            != new[k2].prefix@[0] by {
            if k2 == n {
                assert(new[k1] == es[k1]);
                assert(!edge_matches(es[k1], e2.prefix@[0]));
            }
        }
    }
    lemma_edge_for(new, e2.prefix@[0], n as int);
    assert forall|b: u8| b != e2.prefix@[0] implies has_edge(new, b) == has_edge(es, b) by {
        if has_edge(new, b) {
            let k = choose|k: int| 0 <= k < new.len() && edge_matches(#[trigger] new[k], b);
            assert(k < n);
            assert(edge_matches(es[k], b));
        }
        if has_edge(es, b) {
            let m = choose|m: int| 0 <= m < es.len() && edge_matches(#[trigger] es[m], b);
            assert(edge_matches(new[m], b));
        }
    }
    assert forall|b: u8| b != e2.prefix@[0] && has_edge(es, b) implies edge_for(new, b)
        == edge_for(es, b) by {
        let m = choose|m: int| 0 <= m < es.len() && edge_matches(#[trigger] es[m], b);
        lemma_edge_for(es, b, m);
        lemma_edge_for(new, b, m);
    }
}

/// The edge list after removing the entry at `m` by swapping in the last
/// entry, as `Vec::swap_remove` does.
pub open spec fn remove_at(es: Seq<PathEdge>, m: int) -> Seq<PathEdge> {
    es.update(m, es.last()).drop_last()
}

/// Removing the edge at `m` (by swapping in the last entry, as
/// `Vec::swap_remove` does) keeps the list well formed, removes exactly
/// that edge's byte, and leaves every other byte's edge untouched.
pub proof fn lemma_edges_remove(es: Seq<PathEdge>, m: int)
    requires
        edges_ok(es),
        0 <= m < es.len(),
    ensures
        remove_at(es, m).len() == es.len() - 1,
        edges_ok(remove_at(es, m)),
        !has_edge(remove_at(es, m), es[m].prefix@[0]),
        forall|b: u8|
            b != es[m].prefix@[0] ==> has_edge(remove_at(es, m), b) == has_edge(es, b),
        forall|b: u8|
            b != es[m].prefix@[0] && has_edge(es, b) ==> edge_for(remove_at(es, m), b)
                == edge_for(es, b),
        forall|k: int|
            #![trigger remove_at(es, m)[k]]
            0 <= k < es.len() - 1 ==> remove_at(es, m)[k] == (if k == m {
                es[es.len() - 1]
            } else {
                es[k]
            }),
{
    let res = remove_at(es, m);
    let n = es.len();
    assert forall|k: int| 0 <= k < n - 1 implies res[k] == (if k == m {
        es[n - 1]
    } else {
        es[k]
    }) by {}

    assert(edges_ok(res)) by {
        assert forall|k1: int, k2: int| 0 <= k1 < k2 < res.len() implies res[k1].prefix@[0]
            != res[k2].prefix@[0] by {
            if k1 == m {
                assert(res[k1] == es[n - 1] && res[k2] == es[k2]);
            } else if k2 == m {
                assert(res[k2] == es[n - 1] && res[k1] == es[k1]);
            }
        }
    }
    assert(!has_edge(res, es[m].prefix@[0])) by {
        if has_edge(res, es[m].prefix@[0]) {
            let k = choose|k: int|
                0 <= k < res.len() && edge_matches(#[trigger] res[k], es[m].prefix@[0]);
            if k == m {
                assert(res[k] == es[n - 1]);
                assert(es[m].prefix@[0] != es[n - 1].prefix@[0]);
            } else {
                assert(res[k] == es[k]);
                assert(es[m].prefix@[0] != es[k].prefix@[0]);
            }
        }
    }
    assert forall|b: u8| b != es[m].prefix@[0] implies has_edge(res, b) == has_edge(es, b) by {
        if has_edge(res, b) {
            let k = choose|k: int| 0 <= k < res.len() && edge_matches(#[trigger] res[k], b);
            if k == m {
                assert(edge_matches(es[n - 1], b));
            } else {
                assert(edge_matches(es[k], b));
            }
            assert(has_edge(es, b));
        }
        if has_edge(es, b) {
            let i = choose|i: int| 0 <= i < es.len() && edge_matches(#[trigger] es[i], b);
            assert(i != m);
            if i == n - 1 {
                if m < n - 1 {
                    assert(res[m] == es[n - 1]);
                    assert(edge_matches(res[m], b));
                } else {
                    assert(false);
                }
            } else {
                assert(res[i] == es[i]);
                assert(edge_matches(res[i], b));
            }
            assert(has_edge(res, b));
        }
    }
    assert forall|b: u8| b != es[m].prefix@[0] && has_edge(es, b) implies edge_for(res, b)
        == edge_for(es, b) by {
        let i = choose|i: int| 0 <= i < es.len() && edge_matches(#[trigger] es[i], b);
        lemma_edge_for(es, b, i);
        assert(i != m);
        if i == n - 1 {
            assert(m < n - 1);
            lemma_edge_for(res, b, m);
        } else {
            lemma_edge_for(res, b, i);
        }
    }
}

/// Two edges are interchangeable for lookups: same label, and their
/// subtrees grant the same bits to every path.
pub open spec fn edge_equiv(e1: PathEdge, e2: PathEdge) -> bool {
    &&& e1.prefix@ == e2.prefix@
    &&& forall|q: Seq<u8>| #[trigger] grants(e1.node, q) == grants(e2.node, q)
}

/// Grants are preserved when every edge is replaced by an interchangeable
/// one: lookups cannot tell the difference.
pub proof fn lemma_grants_equiv(n1: PathNode, n2: PathNode, q: Seq<u8>)
    requires
        n1.flags == n2.flags,
        forall|b: u8| #[trigger] has_edge(n1.children@, b) == has_edge(n2.children@, b),
        forall|b: u8|
            has_edge(n1.children@, b) ==> edge_equiv(
                #[trigger] edge_for(n1.children@, b),
                edge_for(n2.children@, b),
            ),
    ensures
        grants(n1, q) == grants(n2, q),
{
    if q.len() > 0 && has_edge(n1.children@, q[0]) {
        let e1 = edge_for(n1.children@, q[0]);
        let e2 = edge_for(n2.children@, q[0]);
        assert(edge_equiv(e1, e2));
        if e1.prefix@.len() <= q.len() && is_prefix(e1.prefix@, q) {
            assert(grants(e1.node, q.skip(e1.prefix@.len() as int)) == grants(
                e2.node,
                q.skip(e1.prefix@.len() as int),
            ));
        }
    }
}

/// The grants of a non-empty path only depend on the edge that its first
/// byte selects: two nodes that agree there agree on the path's grants.
pub proof fn lemma_grants_frame(n1: PathNode, n2: PathNode, q: Seq<u8>)
    requires
        q.len() > 0,
        has_edge(n2.children@, q[0]) == has_edge(n1.children@, q[0]),
        has_edge(n1.children@, q[0]) ==> edge_for(n2.children@, q[0]) == edge_for(
            n1.children@,
            q[0],
        ),
    ensures
        grants(n1, q) == grants(n2, q),
{
    if has_edge(n1.children@, q[0]) {
        let e = edge_for(n1.children@, q[0]);
        assert(grants(n1, q) == if e.prefix@.len() <= q.len() && is_prefix(e.prefix@, q) {
            grants(e.node, q.skip(e.prefix@.len() as int))
        } else {
            0u32
        });
    }
}

/// Finds the index of the edge starting with byte `b0`, if any.
fn find_child(es: &Vec<PathEdge>, b0: u8) -> (r: Option<usize>)
    ensures
        match r {
            Some(j) => j < es@.len() && edge_matches(es@[j as int], b0),
            None => !has_edge(es@, b0),
        },
{
    let n = es.len();
    let mut j: usize = 0;
    while j < n
        invariant
            n == es@.len(),
            0 <= j <= n,
            forall|k: int| 0 <= k < j ==> !edge_matches(es@[k], b0),
        decreases n - j,
    {
        if es[j].prefix.len() > 0 && es[j].prefix[0] == b0 {
            return Some(j);
        }
        j = j + 1;
    }
    None
}

/// The pointwise effect on [`grants`] of splitting the edge at `j` at the
/// longest common prefix `li` of its label and the inserted suffix `p`:
/// `p` gains the bits `f`, every other path keeps its grants.
proof fn lemma_split_case(n1: PathNode, n2: PathNode, j: int, li: int, p: Seq<u8>, f: u32, q: Seq<u8>)
    requires
        wf_path(n1),
        0 <= j < n1.children@.len(),
        p.len() > 0,
        edge_matches(n1.children@[j], p[0]),
        lcp_ok(n1.children@[j].prefix@, p, li),
        1 <= li < n1.children@[j].prefix@.len(),
        n2.flags == n1.flags,
        n2.children@ == replace_at(n1.children@, j, n2.children@.last()),
        ({
            let e2 = n2.children@.last();
            let pre = n1.children@[j].prefix@;
            let midn = e2.node;
            &&& e2.prefix@ == pre.take(li)
            &&& midn.children@.len() >= 1
            &&& midn.children@[0].prefix@ == pre.skip(li)
            &&& midn.children@[0].node == n1.children@[j].node
            &&& (li < p.len() ==> midn.flags.0 == 0 && midn.children@.len() == 2
                && midn.children@[1].prefix@ == p.skip(li) && midn.children@[1].node.flags.0 == f
                && midn.children@[1].node.children@.len() == 0)
            &&& (li == p.len() ==> midn.flags.0 == f && midn.children@.len() == 1)
        }),
    ensures
        grants(n2, q) == (if q == p {
            grants(n1, q) | f
        } else {
            grants(n1, q)
        }),
{
    let es = n1.children@;
    let new = n2.children@;
    let e2 = new.last();
    let e_old = es[j];
    let pre = e_old.prefix@;
    let c = pre.take(li);
    let d = pre.skip(li);
    let midn = e2.node;
    let dem = midn.children@[0];
    assert(li <= p.len());
    assert(forall|i: int| 0 <= i < li ==> pre[i] == p[i]);
    assert(li < p.len() ==> pre[li] != p[li]);
    assert(c.len() == li && c[0] == p[0]);
    lemma_edges_replace(es, j, e2);
    lemma_edge_for(es, p[0], j);
    // `c` is a prefix of `p`.
    assert(is_prefix(c, p));
    if q.len() == 0 {
        assert(q != p);
    } else if q[0] != p[0] {
        lemma_grants_frame(n1, n2, q);
        assert(q != p);
    } else {
        assert(edge_for(new, q[0]) == e2);
        assert(edge_for(es, q[0]) == e_old);
        if li <= q.len() && is_prefix(c, q) {
            let q2 = q.skip(li);
            assert(grants(n2, q) == grants(midn, q2));
            if q2.len() == 0 {
                lemma_prefix_same_len(c, q);
                assert(pre.len() > q.len());
                assert(grants(n1, q) == 0);
                if li == p.len() {
                    lemma_prefix_same_len(c, p);
                    assert(q == p);
                    assert(grants(midn, q2) == f);
                    assert(0u32 | f == f) by (bit_vector);
                } else {
                    assert(q.len() < p.len());
                    assert(q != p);
                    assert(grants(midn, q2) == 0);
                }
            } else {
                let b2 = q2[0];
                assert(b2 == q[li]);
                assert(dem.prefix@ == d && d.len() > 0 && d[0] == pre[li]);
                if b2 == d[0] {
                    lemma_edge_for(midn.children@, b2, 0);
                    lemma_prefix_split(pre, q, li);
                    if d.len() <= q2.len() && is_prefix(d, q2) {
                        assert(is_prefix(pre, q));
                        let q3 = q2.skip(d.len() as int);
                        lemma_skip_skip(q, li, d.len() as int);
                        assert(q3 == q.skip(pre.len() as int));
                        assert(grants(midn, q2) == grants(e_old.node, q3));
                        assert(grants(n1, q) == grants(e_old.node, q3));
                        if li == p.len() {
                            assert(q.len() > p.len());
                            assert(q != p);
                        } else {
                            assert(q[li] != p[li]);
                            assert(q != p);
                        }
                    } else {
                        assert(grants(midn, q2) == 0);
                        assert(pre.len() == li + d.len());
                        assert(!(pre.len() <= q.len() && is_prefix(pre, q)));
                        assert(grants(n1, q) == 0);
                        if li == p.len() {
                            assert(q.len() > p.len());
                            assert(q != p);
                        } else {
                            assert(q[li] != p[li]);
                            assert(q != p);
                        }
                    }
                } else if li < p.len() && b2 == p[li] {
                    let leaf = midn.children@[1];
                    lemma_edge_for(midn.children@, b2, 1);
                    let pl = p.skip(li);
                    assert(leaf.prefix@ == pl);
                    lemma_prefix_split(p, q, li);
                    // Old side: the old edge's label diverges from `q` at
                    // position `li`, so no old grants below it.
                    assert(q[li] == p[li] && p[li] != pre[li]);
                    assert(!(pre.len() <= q.len() && is_prefix(pre, q)));
                    assert(grants(n1, q) == 0);
                    if pl.len() <= q2.len() && is_prefix(pl, q2) {
                        assert(is_prefix(p, q));
                        let q3 = q2.skip(pl.len() as int);
                        lemma_skip_skip(q, li, pl.len() as int);
                        assert(q3 == q.skip(p.len() as int));
                        assert(grants(midn, q2) == grants(leaf.node, q3));
                        if q3.len() == 0 {
                            lemma_prefix_same_len(p, q);
                            assert(q == p);
                            assert(grants(leaf.node, q3) == f);
                            assert(0u32 | f == f) by (bit_vector);
                        } else {
                            assert(!has_edge(leaf.node.children@, q3[0]));
                            assert(grants(leaf.node, q3) == 0);
                            assert(q.len() > p.len());
                            assert(q != p);
                        }
                    } else {
                        assert(grants(midn, q2) == 0);
                        if q == p {
                            assert(q2 == pl);
                            assert(false);
                        }
                    }
                } else {
                    assert(!has_edge(midn.children@, b2)) by {
                        if has_edge(midn.children@, b2) {
                            let k = choose|k: int|
                                0 <= k < midn.children@.len() && edge_matches(
                                    #[trigger] midn.children@[k],
                                    b2,
                                );
                            if k == 0 {
                                assert(b2 == d[0]);
                            } else {
                                assert(midn.children@.len() == 2 && li < p.len());
                                assert(b2 == p[li]);
                            }
                        }
                    }
                    assert(grants(midn, q2) == 0);
                    assert(q[li] != pre[li]);
                    assert(!(pre.len() <= q.len() && is_prefix(pre, q)));
                    assert(grants(n1, q) == 0);
                    if li == p.len() {
                        assert(q.len() > p.len());
                        assert(q != p);
                    } else {
                        assert(q[li] != p[li]);
                        assert(q != p);
                    }
                }
            }
        } else {
            assert(grants(n2, q) == 0);
            if pre.len() <= q.len() && is_prefix(pre, q) {
                assert(is_prefix(c, q));
                assert(false);
            }
            assert(grants(n1, q) == 0);
            if q == p {
                assert(is_prefix(c, q) && li <= q.len());
                assert(false);
            }
        }
    }
}

impl PathNode {
    /// A fresh node: grants nothing, no children.
    pub fn new() -> (r: Self)
        ensures
            wf_path(r),
            path_arranged(r),
            forall|q: Seq<u8>| #[trigger] grants(r, q) == 0,
    {
        let r = PathNode { flags: FlagSet(0), children: Vec::new() };
        proof {
            assert forall|q: Seq<u8>| #[trigger] grants(r, q) == 0 by {
                if q.len() > 0 {
                    assert(!has_edge(r.children@, q[0]));
                }
            }
        }
        r
    }

    /// Inserts `path` with one leading separator already stripped: walks or
    /// splits edges until the node spelled exactly by `path` exists, then
    /// ORs the pair's bits into that node's flags.  Every other path keeps
    /// exactly the grants it had.
    pub fn insert_(&mut self, scheme: ReqType, path: &[u8])
        requires
            wf_path(*old(self)),
        ensures
            wf_path(*final(self)),
            grants(*final(self), path@) == grants(*old(self), path@) | flag_bits(scheme),
            forall|q: Seq<u8>|
                q != path@ ==> #[trigger] grants(*final(self), q) == grants(*old(self), q),
        decreases path@.len(),
    {
        let flag = scheme.flag();
        let ghost f = flag_bits(scheme);
        if path.len() == 0 {
            self.flags = FlagSet(self.flags.0 | flag.0);
            proof {
                assert forall|q: Seq<u8>| q != path@ implies #[trigger] grants(*self, q)
                    == grants(*old(self), q) by {
                    if q.len() == 0 {
                        assert(q =~= path@);
                    } else {
                        lemma_grants_frame(*old(self), *self, q);
                    }
                }
            }
            return;
        }
        let b0 = *vstd::slice::slice_index_get(path, 0);
        match find_child(&self.children, b0) {
            None => {
                let suffix = subrange_vec(path, 0, path.len());
                let e2 = PathEdge {
                    prefix: suffix,
                    node: PathNode { flags: flag, children: Vec::new() },
                };
                assert(e2.prefix@ =~= path@);
                self.children.push(e2);
                proof {
                    let es = old(self).children@;
                    let new = self.children@;
                    let e2v = new.last();
                    lemma_edges_push(es, e2v);
                    assert(wf_path(*self)) by {
                        assert forall|k: int| 0 <= k < new.len() implies wf_path(
                            (#[trigger] new[k]).node,
                        ) by {
                            if k < es.len() {
                                assert(new[k] == es[k]);
                            } else {
                                assert(new[k] == e2v);
                                assert(new[k].node.children@.len() == 0);
                            }
                        }
                    }
                    assert(grants(*self, path@) == grants(*old(self), path@) | f) by {
                        assert(edge_for(new, path@[0]) == e2v);
                        assert(is_prefix(e2v.prefix@, path@));
                        assert(path@.skip(path@.len() as int).len() == 0);
                        assert(grants(e2v.node, path@.skip(path@.len() as int)) == f);
                        assert(grants(*self, path@) == f);
                        assert(grants(*old(self), path@) == 0);
                        assert(0u32 | f == f) by (bit_vector);
                    }
                    assert forall|q: Seq<u8>| q != path@ implies #[trigger] grants(*self, q)
                        == grants(*old(self), q) by {
                        if q.len() > 0 {
                            if q[0] == path@[0] {
                                assert(grants(*old(self), q) == 0);
                                assert(edge_for(new, q[0]) == e2v);
                                if e2v.prefix@.len() <= q.len() && is_prefix(e2v.prefix@, q) {
                                    if q.len() == path@.len() {
                                        lemma_prefix_same_len(e2v.prefix@, q);
                                        assert(false);
                                    }
                                    let q2 = q.skip(path@.len() as int);
                                    assert(q2.len() > 0);
                                    assert(!has_edge(e2v.node.children@, q2[0]));
                                    assert(grants(e2v.node, q2) == 0);
                                }
                                assert(grants(*self, q) == 0);
                            } else {
                                lemma_grants_frame(*old(self), *self, q);
                            }
                        }
                    }
                }
            },
            Some(j) => {
                let mut e = self.children.swap_remove(j);
                let ghost e_old = old(self).children@[j as int];
                let l = crate::bytes::lcp_len(e.prefix.as_slice(), path);
                proof {
                    assert(e_old.prefix@[0] == path@[0]);
                    if lcp(e_old.prefix@, path@) == 0 {
                        assert(e_old.prefix@[0] != path@[0]);
                    }
                    assert(l >= 1);
                }
                if l == e.prefix.len() {
                    // The edge's whole label is a prefix of the remaining
                    // input: descend with the suffix.
                    let sub = vstd::slice::slice_subrange(path, l, path.len());
                    e.node.insert_(scheme, sub);
                    let ghost n2 = e.node;
                    self.children.push(e);
                    proof {
                        let es = old(self).children@;
                        let new = self.children@;
                        let e2v = new.last();
                        let li = l as int;
                        let p = path@;
                        assert(new == replace_at(es, j as int, e2v));
                        lemma_edges_replace(es, j as int, e2v);
                        lemma_edge_for(es, p[0], j as int);
                        assert(wf_path(*self)) by {
                            assert forall|k: int| 0 <= k < new.len() implies wf_path(
                                (#[trigger] new[k]).node,
                            ) by {
                                if new[k] != e2v {
                                    let m = choose|m: int|
                                        0 <= m < es.len() && m != j && new[k] == es[m];
                                    assert(wf_path(es[m].node));
                                }
                            }
                        }
                        assert(is_prefix(e_old.prefix@, p));
                        assert(grants(*self, p) == grants(*old(self), p) | f) by {
                            assert(edge_for(new, p[0]) == e2v);
                            assert(grants(*self, p) == grants(n2, p.skip(li)));
                            assert(grants(*old(self), p) == grants(e_old.node, p.skip(li)));
                            assert(sub@ == p.skip(li));
                            assert(grants(n2, p.skip(li)) == grants(e_old.node, p.skip(li)) | f);
                        }
                        assert forall|q: Seq<u8>| q != p implies #[trigger] grants(*self, q)
                            == grants(*old(self), q) by {
                            if q.len() > 0 {
                                if q[0] == p[0] {
                                    assert(edge_for(new, q[0]) == e2v);
                                    assert(edge_for(es, q[0]) == e_old);
                                    if e2v.prefix@.len() <= q.len() && is_prefix(e2v.prefix@, q) {
                                        let q2 = q.skip(li);
                                        assert(grants(*self, q) == grants(n2, q2));
                                        assert(grants(*old(self), q) == grants(e_old.node, q2));
                                        if q2 == p.skip(li) {
                                            lemma_eq_from_parts(p, q, li);
                                            assert(false);
                                        }
                                        assert(grants(n2, q2) == grants(e_old.node, q2));
                                    } else {
                                        assert(grants(*self, q) == 0);
                                        assert(grants(*old(self), q) == 0);
                                    }
                                } else {
                                    lemma_grants_frame(*old(self), *self, q);
                                }
                            }
                        }
                    }
                } else {
                    // The edge and the input diverge inside the label:
                    // split the edge at the shared prefix, demote the old
                    // child beneath the intermediate node, and either mark
                    // the intermediate node itself or add a sibling leaf
                    // for the input's leftover suffix.
                    let PathEdge { prefix: old_prefix, node: old_node } = e;
                    let head = subrange_vec(old_prefix.as_slice(), 0, l);
                    let tail = subrange_vec(old_prefix.as_slice(), l, old_prefix.len());
                    let demoted = PathEdge { prefix: tail, node: old_node };
                    let mid = if l < path.len() {
                        let leaf_prefix = subrange_vec(path, l, path.len());
                        let leaf = PathEdge {
                            prefix: leaf_prefix,
                            node: PathNode { flags: flag, children: Vec::new() },
                        };
                        let mut mc: Vec<PathEdge> = Vec::new();
                        mc.push(demoted);
                        mc.push(leaf);
                        PathNode { flags: FlagSet(0), children: mc }
                    } else {
                        let mut mc: Vec<PathEdge> = Vec::new();
                        mc.push(demoted);
                        PathNode { flags: flag, children: mc }
                    };
                    self.children.push(PathEdge { prefix: head, node: mid });
                    proof {
                        let es = old(self).children@;
                        let new = self.children@;
                        let e2v = new.last();
                        let li = l as int;
                        let p = path@;
                        let pre = e_old.prefix@;
                        let c = pre.take(li);
                        let d = pre.skip(li);
                        let midn = e2v.node;
                        let dem = midn.children@[0];
                        assert(e2v.prefix@ == c);
                        assert(dem.prefix@ == d && dem.node == e_old.node);
                        assert(li < pre.len());
                        assert(forall|i: int| 0 <= i < li ==> pre[i] == p[i]);
                        assert(li < p.len() ==> pre[li] != p[li]);
                        assert(new == replace_at(es, j as int, e2v));
                        lemma_edges_replace(es, j as int, e2v);
                        lemma_edge_for(es, p[0], j as int);
                        // Local well-formedness of the intermediate node.
                        assert(edges_ok(midn.children@)) by {
                            assert(dem.prefix@.len() > 0);
                            if midn.children@.len() == 2 {
                                assert(midn.children@[1].prefix@ == p.skip(li));
                                assert(midn.children@[1].prefix@[0] == p[li]);
                                assert(dem.prefix@[0] == pre[li]);
                            }
                        }
                        assert(wf_path(midn)) by {
                            assert forall|k: int| 0 <= k < midn.children@.len() implies wf_path(
                                (#[trigger] midn.children@[k]).node,
                            ) by {
                                if k == 0 {
                                    assert(wf_path(e_old.node));
                                } else {
                                    assert(midn.children@[k].node.children@.len() == 0);
                                }
                            }
                        }
                        assert(wf_path(*self)) by {
                            assert forall|k: int| 0 <= k < new.len() implies wf_path(
                                (#[trigger] new[k]).node,
                            ) by {
                                if new[k] != e2v {
                                    let m = choose|m: int|
                                        0 <= m < es.len() && m != j && new[k] == es[m];
                                    assert(wf_path(es[m].node));
                                }
                            }
                        }
                        // Grants at every path, split into the cases of the
                        // descent.
                        assert forall|q: Seq<u8>| #[trigger] grants(*self, q) == (if q == p {
                            grants(*old(self), q) | f
                        } else {
                            grants(*old(self), q)
                        }) by {
                            lemma_split_case(*old(self), *self, j as int, l as int, p, f, q);
                        }
                        assert(grants(*self, p) == grants(*old(self), p) | f);
                    }
                }
            },
        }
    }

    /// Normalizes one optional leading separator away, then inserts: the
    /// normalized path's grants gain the pair's bits, every other path
    /// keeps exactly the grants it had.
    pub fn insert(&mut self, scheme: ReqType, path: &str)
        requires
            wf_path(*old(self)),
        ensures
            wf_path(*final(self)),
            grants(*final(self), norm(path.spec_bytes())) == grants(
                *old(self),
                norm(path.spec_bytes()),
            ) | flag_bits(scheme),
            forall|q: Seq<u8>|
                q != norm(path.spec_bytes()) ==> #[trigger] grants(*final(self), q) == grants(
                    *old(self),
                    q,
                ),
    {
        let b = norm_slice(path.as_bytes());
        self.insert_(scheme, b);
    }

    /// Hands every node's children to the ordered-edge search component's
    /// one-time finalize hook, which sorts them by edge label for binary
    /// search.  Must be called once, after all insertions and before any
    /// check.  Lookups observe nothing else: every path keeps its grants.
    pub fn arrange(&mut self)
        requires
            wf_path(*old(self)),
        ensures
            wf_path(*final(self)),
            path_arranged(*final(self)),
            forall|q: Seq<u8>| #[trigger] grants(*final(self), q) == grants(*old(self), q),
        decreases *old(self),
    {
        let ghost g = old(self).children@;
        proof {
            assert(g.take(g.len() as int) =~= g);
        }
        let mut done: Vec<PathEdge> = Vec::new();
        while self.children.len() > 0
            invariant
                self.flags == old(self).flags,
                wf_path(*old(self)),
                g == old(self).children@,
                self.children@ == g.take(self.children@.len() as int),
                done@.len() + self.children@.len() == g.len(),
                forall|t: int|
                    0 <= t < done@.len() ==> {
                        let orig = g[g.len() - 1 - t];
                        &&& (#[trigger] done@[t]).prefix@ == orig.prefix@
                        &&& wf_path(done@[t].node)
                        &&& path_arranged(done@[t].node)
                        &&& forall|q: Seq<u8>|
                            #[trigger] grants(done@[t].node, q) == grants(orig.node, q)
                    },
            decreases self.children@.len(),
        {
            let ghost k = self.children@.len() as int;
            proof {
                assert(self.children@[k - 1] == g[k - 1]);
            }
            let mut e = self.children.pop().unwrap();
            proof {
                assert(e == g[k - 1]);
                assert(self.children@ =~= g.take(k - 1));
                assert(wf_path(g[k - 1].node));
            }
            e.node.arrange();
            done.push(e);
        }
        self.children = done;
        proof {
            let cn = self.children@;
            let n = g.len() as int;
            assert(cn.len() == n);
            assert(edges_ok(cn)) by {
                assert forall|t: int| 0 <= t < n implies (#[trigger] cn[t]).prefix@.len() > 0 by {
                    assert(cn[t].prefix@ == g[n - 1 - t].prefix@);
                }
                assert forall|t1: int, t2: int| 0 <= t1 < t2 < n implies cn[t1].prefix@[0]
                    != cn[t2].prefix@[0] by {
                    assert(cn[t1].prefix@ == g[n - 1 - t1].prefix@);
                    assert(cn[t2].prefix@ == g[n - 1 - t2].prefix@);
                    assert(g[n - 1 - t2].prefix@[0] != g[n - 1 - t1].prefix@[0]);
                }
            }
            assert(wf_path(*self)) by {
                assert forall|t: int| 0 <= t < n implies wf_path((#[trigger] cn[t]).node) by {}
            }
            assert forall|b: u8| #[trigger] has_edge(cn, b) == has_edge(g, b) by {
                if has_edge(cn, b) {
                    let t = choose|t: int| 0 <= t < cn.len() && edge_matches(#[trigger] cn[t], b);
                    assert(edge_matches(g[n - 1 - t], b));
                    assert(has_edge(g, b));
                }
                if has_edge(g, b) {
                    let i = choose|i: int| 0 <= i < g.len() && edge_matches(#[trigger] g[i], b);
                    assert(cn[n - 1 - i].prefix@ == g[i].prefix@);
                    assert(edge_matches(cn[n - 1 - i], b));
                    assert(has_edge(cn, b));
                }
            }
            assert forall|b: u8| has_edge(g, b) implies edge_equiv(
                #[trigger] edge_for(g, b),
                edge_for(cn, b),
            ) by {
                let i = choose|i: int| 0 <= i < g.len() && edge_matches(#[trigger] g[i], b);
                lemma_edge_for(g, b, i);
                assert(cn[n - 1 - i].prefix@ == g[i].prefix@);
                assert(edge_matches(cn[n - 1 - i], b));
                lemma_edge_for(cn, b, n - 1 - i);
            }
        }
        let ghost cn = self.children@;
        crate::search::arrange(&mut self.children);
        proof {
            let fin = self.children@;
            assert(wf_path(*self) && path_arranged(*self)) by {
                assert forall|t: int| 0 <= t < fin.len() implies wf_path((#[trigger] fin[t]).node)
                    && path_arranged(fin[t].node) by {
                    let bt = fin[t].prefix@[0];
                    lemma_edge_for(fin, bt, t);
                    assert(has_edge(cn, bt));
                    let i = choose|i: int| 0 <= i < cn.len() && edge_matches(#[trigger] cn[i], bt);
                    lemma_edge_for(cn, bt, i);
                    assert(fin[t] == cn[i]);
                }
            }
            assert forall|q: Seq<u8>| #[trigger] grants(*self, q) == grants(*old(self), q) by {
                lemma_grants_equiv(*old(self), *self, q);
            }
        }
    }

    /// Checks an already-normalized remaining path against this subtree.
    pub fn check_(&self, scheme: ReqType, path: &[u8]) -> (r: bool)
        requires
            wf_path(*self),
            path_arranged(*self),
        ensures
            r == covers(*self, flag_bits(scheme), path@),
        decreases path@.len(),
    {
        let ghost f = flag_bits(scheme);
        if self.check_scheme(scheme) {
            proof {
                assert(path@.take(0) =~= Seq::<u8>::empty());
                assert(grants(*self, path@.take(0)) == self.flags.0);
            }
            return true;
        }
        match crate::search::find(&self.children, path) {
            None => {
                proof {
                    lemma_flag_nonzero(scheme);
                    assert forall|i: int| 0 <= i <= path@.len() implies !flags_contain(
                        grants(*self, #[trigger] path@.take(i)),
                        f,
                    ) by {
                        let t = path@.take(i);
                        if i == 0 {
                            assert(t =~= Seq::<u8>::empty());
                            assert(grants(*self, t) == self.flags.0);
                        } else {
                            assert(t.len() == i && t[0] == path@[0]);
                            if has_edge(self.children@, t[0]) {
                                let k = choose|k: int|
                                    0 <= k < self.children@.len() && edge_matches(
                                        #[trigger] self.children@[k],
                                        t[0],
                                    );
                                lemma_edge_for(self.children@, t[0], k);
                                let e = self.children@[k];
                                assert(!is_prefix(e.prefix@, path@));
                                if e.prefix@.len() <= t.len() && is_prefix(e.prefix@, t) {
                                    assert forall|x: int| 0 <= x < e.prefix@.len() implies
                                        e.prefix@[x] == path@[x] by {
                                        assert(e.prefix@[x] == t[x]);
                                    }
                                    assert(is_prefix(e.prefix@, path@));
                                    assert(false);
                                }
                                assert(grants(*self, t) == 0);
                            } else {
                                assert(grants(*self, t) == 0);
                            }
                        }
                    }
                }
                false
            },
            Some(j) => {
                let l = self.children[j].prefix.len();
                let sub = vstd::slice::slice_subrange(path, l, path.len());
                let r = self.children[j].node.check_(scheme, sub);
                proof {
                    let es = self.children@;
                    let e = es[j as int];
                    let li = l as int;
                    assert(path@.len() >= e.prefix@.len() > 0);
                    assert(e.prefix@[0] == path@[0]);
                    lemma_edge_for(es, path@[0], j as int);
                    let p2 = path@.skip(li);
                    assert(sub@ == p2);
                    if r {
                        let i2 = choose|i2: int|
                            0 <= i2 <= p2.len() && flags_contain(
                                grants(e.node, #[trigger] p2.take(i2)),
                                f,
                            );
                        let i = i2 + li;
                        let t = path@.take(i);
                        assert(t.len() == i);
                        assert forall|x: int| 0 <= x < li implies e.prefix@[x] == t[x] by {
                            assert(t[x] == path@[x]);
                        }
                        assert(is_prefix(e.prefix@, t));
                        assert(t.skip(li) =~= p2.take(i2));
                        assert(grants(*self, t) == grants(e.node, t.skip(li)));
                        assert(flags_contain(grants(*self, path@.take(i)), f));
                    } else {
                        lemma_flag_nonzero(scheme);
                        assert forall|i: int| 0 <= i <= path@.len() implies !flags_contain(
                            grants(*self, #[trigger] path@.take(i)),
                            f,
                        ) by {
                            let t = path@.take(i);
                            if i == 0 {
                                assert(t =~= Seq::<u8>::empty());
                                assert(grants(*self, t) == self.flags.0);
                            } else if i < li {
                                assert(t.len() == i && t[0] == path@[0]);
                                assert(e.prefix@.len() > t.len());
                                assert(grants(*self, t) == 0);
                            } else {
                                assert(t.len() == i && t[0] == path@[0]);
                                assert forall|x: int| 0 <= x < li implies e.prefix@[x] == t[x] by {
                                    assert(t[x] == path@[x]);
                                }
                                assert(is_prefix(e.prefix@, t));
                                assert(t.skip(li) =~= p2.take(i - li));
                                assert(grants(*self, t) == grants(e.node, p2.take(i - li)));
                                assert(!flags_contain(grants(e.node, p2.take(i - li)), f));
                            }
                        }
                    }
                }
                r
            },
        }
    }

    /// Normalizes one optional leading separator away, then checks: true
    /// exactly when some prefix of the normalized path was granted the
    /// probe pair's bits.  Requires the one-time [`PathNode::arrange`] to
    /// have run; after it, checking mutates nothing, so any number of
    /// checks may run concurrently.
    pub fn check(&self, scheme: ReqType, path: &str) -> (r: bool)
        requires
            wf_path(*self),
            path_arranged(*self),
        ensures
            r == covers(*self, flag_bits(scheme), norm(path.spec_bytes())),
    {
        let b = norm_slice(path.as_bytes());
        self.check_(scheme, b)
    }

    /// Whether this node's own flags contain the probe pair's bits.
    pub fn check_scheme(&self, scheme: ReqType) -> (r: bool)
        ensures
            r == flags_contain(self.flags.0, flag_bits(scheme)),
    {
        let probe = scheme.flag();
        self.flags.0 & probe.0 == probe.0
    }
}

} // verus!
