//! The host trie.
//!
//! A [`HostNode`] is keyed implicitly by the domain label that reached it.
//! Hosts are split into `.`-separated labels and consumed most significant
//! label first (the reversed order groups the widely shared top-level
//! labels near the root).  Each node holds a path trie for "host matches
//! exactly here" (`terminal`), a path trie for "host matched here via a
//! wildcard label" (`wildcard`), and its labelled children.
//!
//! The model is a pair of total functions: [`t_grants`] and [`w_grants`]
//! give the grants of the terminal and wildcard path tries reached by an
//! exact chain of labels, zero where no such chain exists.  [`host_covers`]
//! states what a lookup means: the exact chain's terminal trie covers the
//! path, or the wildcard trie of some strict ancestor chain does.

use vstd::prelude::*;
use vstd::string::StringSliceAdditionalSpecFns;

use crate::bytes::{host_labels, norm, norm_slice, split_host, subrange_vec, STAR};
use crate::flags::{flag_bits, flags_contain, ReqType};
use crate::path::{covers, grants, path_arranged, wf_path, PathNode};

verus! {

/// A labelled edge of the host trie: one exact domain label and the child
/// node it selects.
#[derive(Debug)]
pub struct HostEdge {
    pub label: Vec<u8>,
    pub node: HostNode,
}

/// One point in the host trie.
#[derive(Debug)]
pub struct HostNode {
    pub terminal: PathNode,
    pub wildcard: PathNode,
    pub children: Vec<HostEdge>,
}

/// The wildcard marker label, `*`.
pub open spec fn star() -> Seq<u8> {
    seq![STAR]
}

/// The position of the first wildcard marker in a label chain, if any.
pub open spec fn first_star(ls: Seq<Seq<u8>>) -> Option<int>
    decreases ls.len(),
{
    if ls.len() == 0 {
        Option::None
    } else if ls[0] == star() {
        Option::Some(0int)
    } else {
        match first_star(ls.skip(1)) {
            Option::None => Option::None,
            Option::Some(k) => Option::Some(k + 1),
        }
    }
}

/// The edge `e` is the one the exact label `lab` selects.
pub open spec fn child_matches(e: HostEdge, lab: Seq<u8>) -> bool {
    e.label@ == lab
}

/// Some edge of `cs` carries exactly the label `lab`.
pub open spec fn has_child(cs: Seq<HostEdge>, lab: Seq<u8>) -> bool {
    exists|i: int| 0 <= i < cs.len() && child_matches(#[trigger] cs[i], lab)
}

/// The edge of `cs` carrying label `lab` (unique when [`children_ok`]).
pub open spec fn child_for(cs: Seq<HostEdge>, lab: Seq<u8>) -> HostEdge {
    cs[choose|i: int| 0 <= i < cs.len() && child_matches(#[trigger] cs[i], lab)]
}

/// No two edges carry the same label, so every label selects at most one
/// child.
pub open spec fn children_ok(cs: Seq<HostEdge>) -> bool {
    forall|i: int, j: int| 0 <= i < j < cs.len() ==> cs[i].label@ != cs[j].label@
}

/// Well-formedness of a whole host trie.
pub open spec fn wf_host(n: HostNode) -> bool
    decreases n,
{
    &&& wf_path(n.terminal)
    &&& wf_path(n.wildcard)
    &&& children_ok(n.children@)
    &&& forall|i: int|
        0 <= i < n.children@.len() ==> wf_host((#[trigger] n.children@[i]).node)
}

/// Every path trie of the host trie has been arranged, the state
/// [`HostNode::arrange`] establishes and lookups rely on.
pub open spec fn host_arranged(n: HostNode) -> bool
    decreases n,
{
    &&& path_arranged(n.terminal)
    &&& path_arranged(n.wildcard)
    &&& forall|i: int|
        0 <= i < n.children@.len() ==> host_arranged((#[trigger] n.children@[i]).node)
}

/// The grants of the terminal path trie reached by descending the exact
/// label chain `ls`, at path `p`; zero where the chain does not exist.
pub open spec fn t_grants(n: HostNode, ls: Seq<Seq<u8>>, p: Seq<u8>) -> u32
    decreases ls.len(),
{
    if ls.len() == 0 {
        grants(n.terminal, p)
    } else if has_child(n.children@, ls[0]) {
        t_grants(child_for(n.children@, ls[0]).node, ls.skip(1), p)
    } else {
        0u32
    }
}

/// The grants of the wildcard path trie reached by descending the exact
/// label chain `ls`, at path `p`; zero where the chain does not exist.
pub open spec fn w_grants(n: HostNode, ls: Seq<Seq<u8>>, p: Seq<u8>) -> u32
    decreases ls.len(),
{
    if ls.len() == 0 {
        grants(n.wildcard, p)
    } else if has_child(n.children@, ls[0]) {
        w_grants(child_for(n.children@, ls[0]).node, ls.skip(1), p)
    } else {
        0u32
    }
}

/// What a host lookup means, for a label chain `ls` and an
/// already-normalized path `p`: some prefix of `p` was granted the probe's
/// bits in the terminal trie at the end of the exact chain, or in the
/// wildcard trie of a node strictly above the end of the chain — so a
/// wildcard consumes one or more labels, and an exact match is additive
/// to, never overridden by, a shallower wildcard.
pub open spec fn host_covers(n: HostNode, f: u32, ls: Seq<Seq<u8>>, p: Seq<u8>) -> bool {
    ||| exists|i: int| 0 <= i <= p.len() && flags_contain(t_grants(n, ls, #[trigger] p.take(i)), f)
    ||| exists|k: int, i: int|
        0 <= k < ls.len() && 0 <= i <= p.len() && flags_contain(
            w_grants(n, #[trigger] ls.take(k), #[trigger] p.take(i)),
            f,
        )
}

/// Under [`children_ok`], the child matching a label is unique, so
/// [`child_for`] returns exactly the matching entry.
pub proof fn lemma_child_for(cs: Seq<HostEdge>, lab: Seq<u8>, i: int)
    requires
        children_ok(cs),
        0 <= i < cs.len(),
        child_matches(cs[i], lab),
    ensures
        has_child(cs, lab),
        child_for(cs, lab) == cs[i],
{
    let j = choose|j: int| 0 <= j < cs.len() && child_matches(#[trigger] cs[j], lab);
    if i != j {
        assert(cs[i].label@ != cs[j].label@);
    }
}

/// The child list after removing the entry at `j` (by swapping in the last
/// entry, as `Vec::swap_remove` does) and pushing a replacement `e2`.
pub open spec fn host_replace_at(cs: Seq<HostEdge>, j: int, e2: HostEdge) -> Seq<HostEdge> {
    cs.update(j, cs.last()).drop_last().push(e2)
}

/// Replacing the child at `j` by one with the same label preserves
/// uniqueness and leaves every other label's child untouched.
pub proof fn lemma_hosts_replace(cs: Seq<HostEdge>, j: int, e2: HostEdge)
    requires
        children_ok(cs),
        0 <= j < cs.len(),
        e2.label@ == cs[j].label@,
    ensures
        ({
            let new = host_replace_at(cs, j, e2);
            &&& new.len() == cs.len()
            &&& children_ok(new)
            &&& has_child(new, e2.label@)
            &&& child_for(new, e2.label@) == e2
            &&& forall|lab: Seq<u8>|
                lab != e2.label@ ==> has_child(new, lab) == has_child(cs, lab)
            &&& forall|lab: Seq<u8>|
                lab != e2.label@ && has_child(cs, lab) ==> child_for(new, lab) == child_for(
                    cs,
                    lab,
                )
            &&& forall|k: int|
                0 <= k < new.len() - 1 ==> new[k] == (if k == j {
                    cs[cs.len() - 1]
                } else {
                    cs[k]
                })
            &&& new.last() == e2
        }),
{
    let new = host_replace_at(cs, j, e2);
    let n = cs.len();
    assert(new.len() == n);
    assert forall|k: int| 0 <= k < n - 1 implies new[k] == (if k == j {
        cs[n - 1]
    } else {
        cs[k]
    }) by {}
    assert(new[n - 1] == e2);
    assert(children_ok(new)) by {
        assert forall|k1: int, k2: int| 0 <= k1 < k2 < new.len() implies new[k1].label@
            != new[k2].label@ by {
            if k2 == n - 1 {
                if k1 == j {
                    assert(j != n - 1 ==> new[k1] == cs[n - 1]);
                } else {
                    assert(new[k1] == cs[k1]);
                }
            }
        }
    }
    assert(child_matches(new[n - 1], e2.label@));
    lemma_child_for(new, e2.label@, n - 1);
    assert forall|lab: Seq<u8>| lab != e2.label@ implies has_child(new, lab) == has_child(
        cs,
        lab,
    ) by {
        if has_child(new, lab) {
            let k = choose|k: int| 0 <= k < new.len() && child_matches(#[trigger] new[k], lab);
            if k < n - 1 {
                if k == j {
                    assert(j != n - 1 ==> child_matches(cs[n - 1], lab));
                } else {
                    assert(child_matches(cs[k], lab));
                }
            }
            assert(has_child(cs, lab));
        }
        if has_child(cs, lab) {
            let m = choose|m: int| 0 <= m < cs.len() && child_matches(#[trigger] cs[m], lab);
            assert(m != j);
            if m == n - 1 {
                if j < n - 1 {
                    assert(new[j] == cs[n - 1]);
                    assert(child_matches(new[j], lab));
                } else {
                    assert(false);
                }
            } else {
                assert(new[m] == cs[m]);
                assert(child_matches(new[m], lab));
            }
            assert(has_child(new, lab));
        }
    }
    assert forall|lab: Seq<u8>| lab != e2.label@ && has_child(cs, lab) implies child_for(new, lab)
        == child_for(cs, lab) by {
        let m = choose|m: int| 0 <= m < cs.len() && child_matches(#[trigger] cs[m], lab);
        lemma_child_for(cs, lab, m);
        assert(m != j);
        if m == n - 1 {
            assert(j < n - 1);
            lemma_child_for(new, lab, j);
        } else {
            lemma_child_for(new, lab, m);
        }
    }
}

/// Appending a child with a fresh label preserves uniqueness and leaves
/// every other label's child untouched.
pub proof fn lemma_hosts_push(cs: Seq<HostEdge>, e2: HostEdge)
    requires
        children_ok(cs),
        !has_child(cs, e2.label@),
    ensures
        ({
            let new = cs.push(e2);
            &&& children_ok(new)
            &&& has_child(new, e2.label@)
            &&& child_for(new, e2.label@) == e2
            &&& forall|lab: Seq<u8>|
                lab != e2.label@ ==> has_child(new, lab) == has_child(cs, lab)
            &&& forall|lab: Seq<u8>|
                lab != e2.label@ && has_child(cs, lab) ==> child_for(new, lab) == child_for(
                    cs,
                    lab,
                )
        }),
{
    let new = cs.push(e2);
    let n = cs.len();
    assert(children_ok(new)) by {
        assert forall|k1: int, k2: int| 0 <= k1 < k2 < new.len() implies new[k1].label@
            != new[k2].label@ by {
            if k2 == n {
                assert(new[k1] == cs[k1]);
                assert(!child_matches(cs[k1], e2.label@));
            }
        }
    }
    lemma_child_for(new, e2.label@, n as int);
    assert forall|lab: Seq<u8>| lab != e2.label@ implies has_child(new, lab) == has_child(
        cs,
        lab,
    ) by {
        if has_child(new, lab) {
            let k = choose|k: int| 0 <= k < new.len() && child_matches(#[trigger] new[k], lab);
            assert(k < n);
            assert(child_matches(cs[k], lab));
        }
        if has_child(cs, lab) {
            let m = choose|m: int| 0 <= m < cs.len() && child_matches(#[trigger] cs[m], lab);
            assert(child_matches(new[m], lab));
        }
    }
    assert forall|lab: Seq<u8>| lab != e2.label@ && has_child(cs, lab) implies child_for(new, lab)
        == child_for(cs, lab) by {
        let m = choose|m: int| 0 <= m < cs.len() && child_matches(#[trigger] cs[m], lab);
        lemma_child_for(cs, lab, m);
        lemma_child_for(new, lab, m);
    }
}

/// The chain grants of a non-empty chain only depend on the child its
/// first label selects: two nodes that agree there agree on the chain's
/// grants.
pub proof fn lemma_host_grants_frame(n1: HostNode, n2: HostNode, ls: Seq<Seq<u8>>, p: Seq<u8>)
    requires
        ls.len() > 0,
        has_child(n2.children@, ls[0]) == has_child(n1.children@, ls[0]),
        has_child(n1.children@, ls[0]) ==> child_for(n2.children@, ls[0]) == child_for(
            n1.children@,
            ls[0],
        ),
    ensures
        t_grants(n1, ls, p) == t_grants(n2, ls, p),
        w_grants(n1, ls, p) == w_grants(n2, ls, p),
{
    if has_child(n1.children@, ls[0]) {
        let c = child_for(n1.children@, ls[0]);
        assert(t_grants(n1, ls, p) == t_grants(c.node, ls.skip(1), p));
        assert(w_grants(n1, ls, p) == w_grants(c.node, ls.skip(1), p));
    }
}

/// Where [`first_star`] points, a wildcard marker stands, and none
/// stands earlier; where it points nowhere, no marker occurs at all.
pub proof fn lemma_first_star_bounds(ls: Seq<Seq<u8>>)
    ensures
        match first_star(ls) {
            Option::None => forall|j: int| 0 <= j < ls.len() ==> ls[j] != star(),
            Option::Some(k) => 0 <= k < ls.len() && ls[k] == star() && forall|j: int|
                0 <= j < k ==> ls[j] != star(),
        },
    decreases ls.len(),
{
    if ls.len() > 0 && ls[0] != star() {
        lemma_first_star_bounds(ls.skip(1));
        match first_star(ls.skip(1)) {
            Option::None => {
                assert forall|j: int| 0 <= j < ls.len() implies ls[j] != star() by {
                    if j >= 1 {
                        assert(ls.skip(1)[j - 1] == ls[j]);
                    }
                }
            },
            Option::Some(k) => {
                assert(ls.skip(1)[k] == ls[k + 1]);
                assert forall|j: int| 0 <= j < k + 1 implies ls[j] != star() by {
                    if j >= 1 {
                        assert(ls.skip(1)[j - 1] == ls[j]);
                    }
                }
            },
        }
    }
}

/// Two label chains with equal heads and equal tails are equal.
pub proof fn lemma_labels_cons_eq(a: Seq<Seq<u8>>, b: Seq<Seq<u8>>)
    requires
        a.len() > 0,
        b.len() > 0,
        a[0] == b[0],
        a.skip(1) == b.skip(1),
    ensures
        a == b,
{
    assert(a.skip(1).len() == a.len() - 1);
    assert(b.skip(1).len() == b.len() - 1);
    assert forall|i: int| 0 <= i < a.len() implies a[i] == b[i] by {
        if i >= 1 {
            assert(a.skip(1)[i - 1] == a[i]);
            assert(b.skip(1)[i - 1] == b[i]);
        }
    }
    assert(a =~= b);
}

/// Two host tries whose terminal and wildcard tries grant alike and whose
/// children are pairwise interchangeable grant alike on every chain.
pub open spec fn host_node_equiv(a: HostNode, b: HostNode) -> bool {
    &&& forall|m: Seq<Seq<u8>>, q: Seq<u8>| #[trigger] t_grants(a, m, q) == t_grants(b, m, q)
    &&& forall|m: Seq<Seq<u8>>, q: Seq<u8>| #[trigger] w_grants(a, m, q) == w_grants(b, m, q)
}

/// Lookups cannot distinguish two nodes whose parts grant alike: their
/// chain grants coincide everywhere.
pub proof fn lemma_host_grants_equiv(n1: HostNode, n2: HostNode, m: Seq<Seq<u8>>, q: Seq<u8>)
    requires
        forall|t: Seq<u8>| #[trigger] grants(n1.terminal, t) == grants(n2.terminal, t),
        forall|t: Seq<u8>| #[trigger] grants(n1.wildcard, t) == grants(n2.wildcard, t),
        forall|lab: Seq<u8>|
            #[trigger] has_child(n1.children@, lab) == has_child(n2.children@, lab),
        forall|lab: Seq<u8>|
            has_child(n1.children@, lab) ==> host_node_equiv(
                (#[trigger] child_for(n1.children@, lab)).node,
                child_for(n2.children@, lab).node,
            ),
    ensures
        t_grants(n1, m, q) == t_grants(n2, m, q),
        w_grants(n1, m, q) == w_grants(n2, m, q),
{
    if m.len() > 0 && has_child(n1.children@, m[0]) {
        let c1 = child_for(n1.children@, m[0]);
        let c2 = child_for(n2.children@, m[0]);
        assert(host_node_equiv(c1.node, c2.node));
        assert(t_grants(c1.node, m.skip(1), q) == t_grants(c2.node, m.skip(1), q));
        assert(w_grants(c1.node, m.skip(1), q) == w_grants(c2.node, m.skip(1), q));
    }
}

/// With no labels left, a host lookup is exactly a lookup in this node's
/// terminal path trie.
pub proof fn lemma_host_covers_base(n: HostNode, f: u32, ls: Seq<Seq<u8>>, p: Seq<u8>)
    requires
        ls.len() == 0,
    ensures
        host_covers(n, f, ls, p) == covers(n.terminal, f, p),
{
    if host_covers(n, f, ls, p) {
        if exists|i: int|
            0 <= i <= p.len() && flags_contain(t_grants(n, ls, #[trigger] p.take(i)), f) {
            let i = choose|i: int|
                0 <= i <= p.len() && flags_contain(t_grants(n, ls, #[trigger] p.take(i)), f);
            assert(t_grants(n, ls, p.take(i)) == grants(n.terminal, p.take(i)));
            assert(covers(n.terminal, f, p));
        }
    }
    if covers(n.terminal, f, p) {
        let i = choose|i: int|
            0 <= i <= p.len() && flags_contain(grants(n.terminal, #[trigger] p.take(i)), f);
        assert(flags_contain(t_grants(n, ls, p.take(i)), f));
        assert(host_covers(n, f, ls, p));
    }
}

/// With at least one label left, a host lookup is: descend into the exact
/// child for the next label (if any) with the remaining labels, or fall
/// back to this node's wildcard path trie against the full path.
pub proof fn lemma_host_covers_step(n: HostNode, f: u32, ls: Seq<Seq<u8>>, p: Seq<u8>)
    requires
        ls.len() > 0,
        f != 0,
    ensures
        host_covers(n, f, ls, p) == ((has_child(n.children@, ls[0]) && host_covers(
            child_for(n.children@, ls[0]).node,
            f,
            ls.skip(1),
            p,
        )) || covers(n.wildcard, f, p)),
{
    let hc = has_child(n.children@, ls[0]);
    let c = child_for(n.children@, ls[0]).node;
    let ls2 = ls.skip(1);
    crate::flags::lemma_zero_not_contains(f);
    // Backward: each right-hand disjunct yields a witness on the left.
    if covers(n.wildcard, f, p) {
        let i = choose|i: int|
            0 <= i <= p.len() && flags_contain(grants(n.wildcard, #[trigger] p.take(i)), f);
        assert(ls.take(0) =~= Seq::<Seq<u8>>::empty());
        assert(w_grants(n, ls.take(0), p.take(i)) == grants(n.wildcard, p.take(i)));
        assert(host_covers(n, f, ls, p));
    }
    if hc && host_covers(c, f, ls2, p) {
        if exists|i: int|
            0 <= i <= p.len() && flags_contain(t_grants(c, ls2, #[trigger] p.take(i)), f) {
            let i = choose|i: int|
                0 <= i <= p.len() && flags_contain(t_grants(c, ls2, #[trigger] p.take(i)), f);
            assert(t_grants(n, ls, p.take(i)) == t_grants(c, ls2, p.take(i)));
            assert(host_covers(n, f, ls, p));
        } else {
            let (k2, i) = choose|k2: int, i: int|
                0 <= k2 < ls2.len() && 0 <= i <= p.len() && flags_contain(
                    w_grants(c, #[trigger] ls2.take(k2), #[trigger] p.take(i)),
                    f,
                );
            assert(ls.take(k2 + 1).len() > 0);
            assert(ls.take(k2 + 1)[0] == ls[0]);
            assert(ls.take(k2 + 1).skip(1) =~= ls2.take(k2));
            assert(w_grants(n, ls.take(k2 + 1), p.take(i)) == w_grants(
                c,
                ls2.take(k2),
                p.take(i),
            ));
            assert(host_covers(n, f, ls, p));
        }
    }
    // Forward: a witness on the left lands in one of the right-hand
    // disjuncts.
    if host_covers(n, f, ls, p) {
        if exists|i: int|
            0 <= i <= p.len() && flags_contain(t_grants(n, ls, #[trigger] p.take(i)), f) {
            let i = choose|i: int|
                0 <= i <= p.len() && flags_contain(t_grants(n, ls, #[trigger] p.take(i)), f);
            assert(hc);
            assert(t_grants(n, ls, p.take(i)) == t_grants(c, ls2, p.take(i)));
            assert(host_covers(c, f, ls2, p));
        } else {
            let (k, i) = choose|k: int, i: int|
                0 <= k < ls.len() && 0 <= i <= p.len() && flags_contain(
                    w_grants(n, #[trigger] ls.take(k), #[trigger] p.take(i)),
                    f,
                );
            if k == 0 {
                assert(ls.take(0) =~= Seq::<Seq<u8>>::empty());
                assert(w_grants(n, ls.take(0), p.take(i)) == grants(n.wildcard, p.take(i)));
                assert(covers(n.wildcard, f, p));
            } else {
                assert(ls.take(k).len() > 0);
                assert(ls.take(k)[0] == ls[0]);
                assert(hc);
                assert(ls.take(k).skip(1) =~= ls2.take(k - 1));
                assert(w_grants(n, ls.take(k), p.take(i)) == w_grants(
                    c,
                    ls2.take(k - 1),
                    p.take(i),
                ));
                assert(0 <= k - 1 < ls2.len());
                assert(host_covers(c, f, ls2, p));
            }
        }
    }
}

/// Compares two labels byte for byte.
fn label_eq(a: &Vec<u8>, b: &Vec<u8>) -> (r: bool)
    ensures
        r == (a@ == b@),
{
    if a.len() != b.len() {
        return false;
    }
    for i in 0..a.len()
        invariant
            a@.len() == b@.len(),
            forall|k: int| 0 <= k < i ==> a@[k] == b@[k],
    {
        if a[i] != b[i] {
            return false;
        }
    }
    proof {
        assert(a@ =~= b@);
    }
    true
}

/// Finds the index of the child carrying exactly the label `lab`, if any.
fn find_host_child(cs: &Vec<HostEdge>, lab: &Vec<u8>) -> (r: Option<usize>)
    ensures
        match r {
            Some(j) => j < cs@.len() && child_matches(cs@[j as int], lab@),
            None => !has_child(cs@, lab@),
        },
{
    let n = cs.len();
    let mut j: usize = 0;
    while j < n
        invariant
            n == cs@.len(),
            0 <= j <= n,
            forall|k: int| 0 <= k < j ==> !child_matches(cs@[k], lab@),
        decreases n - j,
    {
        if label_eq(&cs[j].label, lab) {
            return Some(j);
        }
        j = j + 1;
    }
    None
}

/// The view of a label list as a chain of byte strings.
pub open spec fn labels_view(s: Seq<Vec<u8>>) -> Seq<Seq<u8>> {
    s.map_values(|v: Vec<u8>| v@)
}

impl HostNode {
    /// A fresh node: grants nothing anywhere.
    pub fn new() -> (r: Self)
        ensures
            wf_host(r),
            host_arranged(r),
            forall|ls: Seq<Seq<u8>>, p: Seq<u8>| #[trigger] t_grants(r, ls, p) == 0,
            forall|ls: Seq<Seq<u8>>, p: Seq<u8>| #[trigger] w_grants(r, ls, p) == 0,
    {
        let r = HostNode {
            terminal: PathNode::new(),
            wildcard: PathNode::new(),
            children: Vec::new(),
        };
        proof {
            assert forall|ls: Seq<Seq<u8>>, p: Seq<u8>| #[trigger] t_grants(r, ls, p) == 0
                && #[trigger] w_grants(r, ls, p) == 0 by {
                if ls.len() > 0 {
                    assert(!has_child(r.children@, ls[0]));
                }
            }
        }
        r
    }

    /// Inserts one source expression: consumes host labels most
    /// significant first, creating missing children on the way.  A
    /// wildcard label stops the descent and grants the pair in that node's
    /// wildcard path trie; exhausting the labels grants it in the terminal
    /// path trie.  All other chains and paths keep their grants.
    #[verifier::rlimit(30)]
    pub fn insert_(&mut self, scheme: ReqType, labels: &[Vec<u8>], at: usize, path: &[u8])
        requires
            wf_host(*old(self)),
            at <= labels@.len(),
        ensures
            wf_host(*final(self)),
            ({
                let ls = labels_view(labels@).skip(at as int);
                let p = norm(path@);
                let f = flag_bits(scheme);
                match first_star(ls) {
                    Option::None => {
                        &&& t_grants(*final(self), ls, p) == t_grants(*old(self), ls, p) | f
                        &&& forall|m: Seq<Seq<u8>>, q: Seq<u8>|
                            !(m == ls && q == p) ==> #[trigger] t_grants(*final(self), m, q)
                                == t_grants(*old(self), m, q)
                        &&& forall|m: Seq<Seq<u8>>, q: Seq<u8>|
                            #[trigger] w_grants(*final(self), m, q) == w_grants(*old(self), m, q)
                    },
                    Option::Some(k) => {
                        &&& w_grants(*final(self), ls.take(k), p) == w_grants(
                            *old(self),
                            ls.take(k),
                            p,
                        ) | f
                        &&& forall|m: Seq<Seq<u8>>, q: Seq<u8>|
                            !(m == ls.take(k) && q == p) ==> #[trigger] w_grants(
                                *final(self),
                                m,
                                q,
                            ) == w_grants(*old(self), m, q)
                        &&& forall|m: Seq<Seq<u8>>, q: Seq<u8>|
                            #[trigger] t_grants(*final(self), m, q) == t_grants(*old(self), m, q)
                    },
                }
            }),
        decreases labels@.len() - at,
    {
        let ghost ls = labels_view(labels@).skip(at as int);
        let ghost p = norm(path@);
        let ghost f = flag_bits(scheme);
        if at == labels.len() {
            let pb = norm_slice(path);
            self.terminal.insert_(scheme, pb);
            proof {
                assert(ls.len() == 0);
                assert(t_grants(*self, ls, p) == t_grants(*old(self), ls, p) | f);
                assert forall|m: Seq<Seq<u8>>, q: Seq<u8>| !(m == ls && q == p) implies #[trigger]
                    t_grants(*self, m, q) == t_grants(*old(self), m, q) by {
                    if m.len() == 0 {
                        assert(m =~= ls);
                        assert(q != p);
                    } else {
                        lemma_host_grants_frame(*old(self), *self, m, q);
                    }
                }
                assert forall|m: Seq<Seq<u8>>, q: Seq<u8>| #[trigger] w_grants(*self, m, q)
                    == w_grants(*old(self), m, q) by {
                    if m.len() > 0 {
                        lemma_host_grants_frame(*old(self), *self, m, q);
                    }
                }
            }
            return;
        }
        let lab: &Vec<u8> = vstd::slice::slice_index_get(labels, at);
        proof {
            assert(ls[0] == labels@[at as int]@);
            assert(ls.skip(1) =~= labels_view(labels@).skip(at + 1));
        }
        if lab.len() == 1 && lab[0] == STAR {
            proof {
                assert(lab@ =~= star());
                assert(first_star(ls) == Option::Some(0int));
            }
            let pb = norm_slice(path);
            self.wildcard.insert_(scheme, pb);
            proof {
                let ghost l0 = ls.take(0);
                assert(l0 =~= Seq::<Seq<u8>>::empty());
                assert(w_grants(*self, l0, p) == w_grants(*old(self), l0, p) | f);
                assert forall|m: Seq<Seq<u8>>, q: Seq<u8>| !(m == l0 && q == p) implies #[trigger]
                    w_grants(*self, m, q) == w_grants(*old(self), m, q) by {
                    if m.len() == 0 {
                        assert(m =~= l0);
                        assert(q != p);
                    } else {
                        lemma_host_grants_frame(*old(self), *self, m, q);
                    }
                }
                assert forall|m: Seq<Seq<u8>>, q: Seq<u8>| #[trigger] t_grants(*self, m, q)
                    == t_grants(*old(self), m, q) by {
                    if m.len() > 0 {
                        lemma_host_grants_frame(*old(self), *self, m, q);
                    }
                }
            }
            return;
        }
        proof {
            if lab@ == star() {
                assert(lab@.len() == 1 && lab@[0] == STAR);
                assert(false);
            }
        }
        let ghost ls2 = ls.skip(1);
        match find_host_child(&self.children, lab) {
            Some(j) => {
                let mut e = self.children.swap_remove(j);
                let ghost e_old = old(self).children@[j as int];
                e.node.insert_(scheme, labels, at + 1, path);
                let ghost n2 = e.node;
                self.children.push(e);
                proof {
                    let cs = old(self).children@;
                    let new = self.children@;
                    let e2 = new.last();
                    assert(new == host_replace_at(cs, j as int, e2));
                    assert(e2.label@ == lab@ && e2.node == n2);
                    lemma_hosts_replace(cs, j as int, e2);
                    lemma_child_for(cs, lab@, j as int);
                    assert(wf_host(*self)) by {
                        assert forall|k: int| 0 <= k < new.len() implies wf_host(
                            (#[trigger] new[k]).node,
                        ) by {
                            if k < new.len() - 1 {
                                assert(new[k] == (if k == j {
                                    cs[cs.len() - 1]
                                } else {
                                    cs[k]
                                }));
                            }
                        }
                    }
                    self.insert_child_post(*old(self), e_old.node, n2, ls, ls2, p, f, lab@);
                }
            },
            None => {
                let mut child = HostNode::new();
                let ghost fresh = child;
                child.insert_(scheme, labels, at + 1, path);
                let own = subrange_vec(lab.as_slice(), 0, lab.len());
                proof {
                    assert(own@ =~= lab@);
                }
                self.children.push(HostEdge { label: own, node: child });
                proof {
                    let cs = old(self).children@;
                    let new = self.children@;
                    let e2 = new.last();
                    assert(new == cs.push(e2));
                    assert(e2.label@ == lab@ && e2.node == child);
                    lemma_hosts_push(cs, e2);
                    assert(wf_host(*self)) by {
                        assert forall|k: int| 0 <= k < new.len() implies wf_host(
                            (#[trigger] new[k]).node,
                        ) by {
                            if k < new.len() - 1 {
                                assert(new[k] == cs[k]);
                            }
                        }
                    }
                    assert forall|m: Seq<Seq<u8>>, q: Seq<u8>|
                        m.len() > 0 && m[0] == lab@ implies #[trigger] t_grants(*old(self), m, q)
                        == 0 && #[trigger] w_grants(*old(self), m, q) == 0 by {
                        assert(!has_child(cs, m[0]));
                    }
                    self.insert_child_post(*old(self), fresh, child, ls, ls2, p, f, lab@);
                }
            },
        }
    }

    /// Inserts one source expression.  The host is split into
    /// `.`-separated labels, reversed so the top-level label is consumed
    /// first; a wildcard marker label grants the pair in the wildcard path
    /// trie where the marker stands, otherwise the exhausted chain's
    /// terminal path trie gains it.  Every other chain and path keeps its
    /// grants.
    pub fn insert(&mut self, scheme: ReqType, host: &str, path: &str)
        requires
            wf_host(*old(self)),
        ensures
            wf_host(*final(self)),
            ({
                let ls = host_labels(host.spec_bytes());
                let p = norm(path.spec_bytes());
                let f = flag_bits(scheme);
                match first_star(ls) {
                    Option::None => {
                        &&& t_grants(*final(self), ls, p) == t_grants(*old(self), ls, p) | f
                        &&& forall|m: Seq<Seq<u8>>, q: Seq<u8>|
                            !(m == ls && q == p) ==> #[trigger] t_grants(*final(self), m, q)
                                == t_grants(*old(self), m, q)
                        &&& forall|m: Seq<Seq<u8>>, q: Seq<u8>|
                            #[trigger] w_grants(*final(self), m, q) == w_grants(*old(self), m, q)
                    },
                    Option::Some(k) => {
                        &&& w_grants(*final(self), ls.take(k), p) == w_grants(
                            *old(self),
                            ls.take(k),
                            p,
                        ) | f
                        &&& forall|m: Seq<Seq<u8>>, q: Seq<u8>|
                            !(m == ls.take(k) && q == p) ==> #[trigger] w_grants(
                                *final(self),
                                m,
                                q,
                            ) == w_grants(*old(self), m, q)
                        &&& forall|m: Seq<Seq<u8>>, q: Seq<u8>|
                            #[trigger] t_grants(*final(self), m, q) == t_grants(*old(self), m, q)
                    },
                }
            }),
    {
        let labels = split_host(host.as_bytes());
        proof {
            assert forall|i: int| 0 <= i < labels@.len() implies labels_view(labels@)[i]
                == labels.deep_view()[i] by {
                assert(labels@[i].deep_view() =~= labels@[i]@);
            }
            assert(labels_view(labels@) =~= labels.deep_view());
            assert(labels_view(labels@).skip(0) =~= host_labels(host.spec_bytes()));
        }
        self.insert_(scheme, labels.as_slice(), 0, path.as_bytes());
    }

    /// Checks a request: splits and reverses the host identically to
    /// insertion, then reports whether the exact chain's terminal trie or
    /// a strict ancestor's wildcard trie covers the (normalized) path for
    /// the probe pair.  Requires the one-time [`HostNode::arrange`] to
    /// have run; after it, checking mutates nothing, so any number of
    /// checks may run concurrently.
    pub fn check(&self, scheme: ReqType, host: &str, path: &str) -> (r: bool)
        requires
            wf_host(*self),
            host_arranged(*self),
        ensures
            r == host_covers(
                *self,
                flag_bits(scheme),
                host_labels(host.spec_bytes()),
                norm(path.spec_bytes()),
            ),
    {
        let labels = split_host(host.as_bytes());
        proof {
            assert forall|i: int| 0 <= i < labels@.len() implies labels_view(labels@)[i]
                == labels.deep_view()[i] by {
                assert(labels@[i].deep_view() =~= labels@[i]@);
            }
            assert(labels_view(labels@) =~= labels.deep_view());
            assert(labels_view(labels@).skip(0) =~= host_labels(host.spec_bytes()));
        }
        self.check_(scheme, labels.as_slice(), 0, path.as_bytes())
    }

    /// Checks the label chain `labels[at..]` against this subtree: the
    /// exact child for the next label is tried first and short-circuits;
    /// on failure the node's wildcard path trie is checked against the
    /// full path.
    pub fn check_(&self, scheme: ReqType, labels: &[Vec<u8>], at: usize, path: &[u8]) -> (r: bool)
        requires
            wf_host(*self),
            host_arranged(*self),
            at <= labels@.len(),
        ensures
            r == host_covers(
                *self,
                flag_bits(scheme),
                labels_view(labels@).skip(at as int),
                norm(path@),
            ),
        decreases labels@.len() - at,
    {
        let ghost ls = labels_view(labels@).skip(at as int);
        let ghost p = norm(path@);
        let ghost f = flag_bits(scheme);
        if at < labels.len() {
            let lab: &Vec<u8> = vstd::slice::slice_index_get(labels, at);
            proof {
                assert(ls[0] == labels@[at as int]@);
                assert(ls.skip(1) =~= labels_view(labels@).skip(at + 1));
                crate::flags::lemma_flag_nonzero(scheme);
                lemma_host_covers_step(*self, f, ls, p);
            }
            let ex = match find_host_child(&self.children, lab) {
                Some(j) => {
                    proof {
                        lemma_child_for(self.children@, lab@, j as int);
                    }
                    self.children[j].node.check_(scheme, labels, at + 1, path)
                },
                None => false,
            };
            if ex {
                true
            } else {
                self.wildcard.check_(scheme, norm_slice(path))
            }
        } else {
            proof {
                assert(ls.len() == 0);
                lemma_host_covers_base(*self, f, ls, p);
            }
            self.terminal.check_(scheme, norm_slice(path))
        }
    }

    /// Arranges every path trie in the host trie: the terminal and
    /// wildcard tries here and every child, recursively.  Must be called
    /// once, after all insertions and before any check.  Lookups observe
    /// nothing else: every chain keeps its grants.
    pub fn arrange(&mut self)
        requires
            wf_host(*old(self)),
        ensures
            wf_host(*final(self)),
            host_arranged(*final(self)),
            forall|m: Seq<Seq<u8>>, q: Seq<u8>|
                #[trigger] t_grants(*final(self), m, q) == t_grants(*old(self), m, q),
            forall|m: Seq<Seq<u8>>, q: Seq<u8>|
                #[trigger] w_grants(*final(self), m, q) == w_grants(*old(self), m, q),
        decreases *old(self),
    {
        let ghost g = old(self).children@;
        proof {
            assert(g.take(g.len() as int) =~= g);
        }
        let mut done: Vec<HostEdge> = Vec::new();
        while self.children.len() > 0
            invariant
                self.terminal == old(self).terminal,
                self.wildcard == old(self).wildcard,
                wf_host(*old(self)),
                g == old(self).children@,
                self.children@ == g.take(self.children@.len() as int),
                done@.len() + self.children@.len() == g.len(),
                forall|t: int|
                    0 <= t < done@.len() ==> {
                        let orig = g[g.len() - 1 - t];
                        &&& (#[trigger] done@[t]).label@ == orig.label@
                        &&& wf_host(done@[t].node)
                        &&& host_arranged(done@[t].node)
                        &&& host_node_equiv(done@[t].node, orig.node)
                    },
            decreases self.children@.len(),
        {
            let ghost k = self.children@.len() as int;
            proof {
                assert(self.children@[k - 1] == g[k - 1]);
            }
            let mut e = self.children.pop().unwrap();
            proof {
                assert(e == g[k - 1]);
                assert(self.children@ =~= g.take(k - 1));
                assert(wf_host(g[k - 1].node));
            }
            e.node.arrange();
            done.push(e);
        }
        self.children = done;
        self.terminal.arrange();
        self.wildcard.arrange();
        proof {
            let cn = self.children@;
            let n = g.len() as int;
            assert(cn.len() == n);
            assert(children_ok(cn)) by {
                assert forall|t1: int, t2: int| 0 <= t1 < t2 < n implies cn[t1].label@
                    != cn[t2].label@ by {
                    assert(cn[t1].label@ == g[n - 1 - t1].label@);
                    assert(cn[t2].label@ == g[n - 1 - t2].label@);
                    assert(g[n - 1 - t2].label@ != g[n - 1 - t1].label@);
                }
            }
            assert(wf_host(*self) && host_arranged(*self)) by {
                assert forall|t: int| 0 <= t < n implies wf_host((#[trigger] cn[t]).node)
                    && host_arranged(cn[t].node) by {}
            }
            assert forall|lab: Seq<u8>| #[trigger] has_child(g, lab) == has_child(cn, lab) by {
                if has_child(cn, lab) {
                    let t = choose|t: int| 0 <= t < cn.len() && child_matches(#[trigger] cn[t], lab);
                    assert(child_matches(g[n - 1 - t], lab));
                    assert(has_child(g, lab));
                }
                if has_child(g, lab) {
                    let i = choose|i: int| 0 <= i < g.len() && child_matches(#[trigger] g[i], lab);
                    assert(cn[n - 1 - i].label@ == g[i].label@);
                    assert(child_matches(cn[n - 1 - i], lab));
                    assert(has_child(cn, lab));
                }
            }
            assert forall|lab: Seq<u8>| has_child(g, lab) implies host_node_equiv(
                (#[trigger] child_for(g, lab)).node,
                child_for(cn, lab).node,
            ) by {
                let i = choose|i: int| 0 <= i < g.len() && child_matches(#[trigger] g[i], lab);
                lemma_child_for(g, lab, i);
                assert(cn[n - 1 - i].label@ == g[i].label@);
                assert(child_matches(cn[n - 1 - i], lab));
                lemma_child_for(cn, lab, n - 1 - i);
                let a = cn[n - 1 - i].node;
                let b = g[i].node;
                assert(host_node_equiv(a, b));
                assert forall|m: Seq<Seq<u8>>, q: Seq<u8>| #[trigger] t_grants(b, m, q)
                    == t_grants(a, m, q) by {
                    assert(t_grants(a, m, q) == t_grants(b, m, q));
                }
                assert forall|m: Seq<Seq<u8>>, q: Seq<u8>| #[trigger] w_grants(b, m, q)
                    == w_grants(a, m, q) by {
                    assert(w_grants(a, m, q) == w_grants(b, m, q));
                }
                assert(host_node_equiv(b, a));
            }
            assert forall|m: Seq<Seq<u8>>, q: Seq<u8>| #[trigger] t_grants(*self, m, q)
                == t_grants(*old(self), m, q) by {
                lemma_host_grants_equiv(*old(self), *self, m, q);
            }
            assert forall|m: Seq<Seq<u8>>, q: Seq<u8>| #[trigger] w_grants(*self, m, q)
                == w_grants(*old(self), m, q) by {
                lemma_host_grants_equiv(*old(self), *self, m, q);
            }
        }
    }

    /// The common reasoning for both child branches of [`HostNode::insert_`]:
    /// once the child for the inserted host's next label has been updated
    /// (whether it existed before or was freshly created as an all-zero
    /// node), the whole node's chain grants change exactly at the inserted
    /// chain.
    #[verifier::rlimit(30)]
    proof fn insert_child_post(
        &self,
        prev: HostNode,
        c_old: HostNode,
        c_new: HostNode,
        ls: Seq<Seq<u8>>,
        ls2: Seq<Seq<u8>>,
        p: Seq<u8>,
        f: u32,
        lab: Seq<u8>,
    )
        requires
            ls.len() > 0,
            ls[0] == lab,
            lab != star(),
            ls2 == ls.skip(1),
            self.terminal == prev.terminal,
            self.wildcard == prev.wildcard,
            has_child(self.children@, lab),
            child_for(self.children@, lab) == self.children@.last(),
            self.children@.last().label@ == lab,
            self.children@.last().node == c_new,
            forall|l2: Seq<u8>|
                l2 != lab ==> has_child(self.children@, l2) == has_child(prev.children@, l2),
            forall|l2: Seq<u8>|
                l2 != lab && has_child(prev.children@, l2) ==> child_for(self.children@, l2)
                    == child_for(prev.children@, l2),
            // What the old node's chains through `lab` granted: either the
            // child existed (and is `c_old`), or nothing was there.
            (has_child(prev.children@, lab) && child_for(prev.children@, lab).node == c_old) || (
            !has_child(prev.children@, lab) && (forall|m: Seq<Seq<u8>>, q: Seq<u8>|
                #[trigger] t_grants(c_old, m, q) == 0) && (forall|m: Seq<Seq<u8>>, q: Seq<u8>|
                #[trigger] w_grants(c_old, m, q) == 0)),
            ({
                match first_star(ls2) {
                    Option::None => {
                        &&& t_grants(c_new, ls2, p) == t_grants(c_old, ls2, p) | f
                        &&& forall|m: Seq<Seq<u8>>, q: Seq<u8>|
                            !(m == ls2 && q == p) ==> #[trigger] t_grants(c_new, m, q) == t_grants(
                                c_old,
                                m,
                                q,
                            )
                        &&& forall|m: Seq<Seq<u8>>, q: Seq<u8>|
                            #[trigger] w_grants(c_new, m, q) == w_grants(c_old, m, q)
                    },
                    Option::Some(k) => {
                        &&& w_grants(c_new, ls2.take(k), p) == w_grants(c_old, ls2.take(k), p) | f
                        &&& forall|m: Seq<Seq<u8>>, q: Seq<u8>|
                            !(m == ls2.take(k) && q == p) ==> #[trigger] w_grants(c_new, m, q)
                                == w_grants(c_old, m, q)
                        &&& forall|m: Seq<Seq<u8>>, q: Seq<u8>|
                            #[trigger] t_grants(c_new, m, q) == t_grants(c_old, m, q)
                    },
                }
            }),
        ensures
            ({
                match first_star(ls) {
                    Option::None => {
                        &&& t_grants(*self, ls, p) == t_grants(prev, ls, p) | f
                        &&& forall|m: Seq<Seq<u8>>, q: Seq<u8>|
                            !(m == ls && q == p) ==> #[trigger] t_grants(*self, m, q) == t_grants(
                                prev,
                                m,
                                q,
                            )
                        &&& forall|m: Seq<Seq<u8>>, q: Seq<u8>|
                            #[trigger] w_grants(*self, m, q) == w_grants(prev, m, q)
                    },
                    Option::Some(k) => {
                        &&& w_grants(*self, ls.take(k), p) == w_grants(prev, ls.take(k), p) | f
                        &&& forall|m: Seq<Seq<u8>>, q: Seq<u8>|
                            !(m == ls.take(k) && q == p) ==> #[trigger] w_grants(*self, m, q)
                                == w_grants(prev, m, q)
                        &&& forall|m: Seq<Seq<u8>>, q: Seq<u8>|
                            #[trigger] t_grants(*self, m, q) == t_grants(prev, m, q)
                    },
                }
            }),
    {
        let had = has_child(prev.children@, lab);
        // Chains through `lab` in the old node, expressed via `c_old`.
        assert forall|m: Seq<Seq<u8>>, q: Seq<u8>| m.len() > 0 && m[0] == lab implies #[trigger]
            t_grants(prev, m, q) == t_grants(c_old, m.skip(1), q) by {
            if !had {
                assert(t_grants(prev, m, q) == 0);
                assert(t_grants(c_old, m.skip(1), q) == 0);
            }
        }
        assert forall|m: Seq<Seq<u8>>, q: Seq<u8>| m.len() > 0 && m[0] == lab implies #[trigger]
            w_grants(prev, m, q) == w_grants(c_old, m.skip(1), q) by {
            if !had {
                assert(w_grants(prev, m, q) == 0);
                assert(w_grants(c_old, m.skip(1), q) == 0);
            }
        }
        lemma_first_star_bounds(ls2);
        match first_star(ls2) {
            Option::None => {
                assert(first_star(ls) == Option::<int>::None);
                assert(t_grants(*self, ls, p) == t_grants(c_new, ls2, p));
                assert(t_grants(prev, ls, p) == t_grants(c_old, ls2, p));
                assert forall|m: Seq<Seq<u8>>, q: Seq<u8>| !(m == ls && q == p) implies #[trigger]
                    t_grants(*self, m, q) == t_grants(prev, m, q) by {
                    if m.len() == 0 {
                    } else if m[0] == lab {
                        assert(t_grants(*self, m, q) == t_grants(c_new, m.skip(1), q));
                        if m.skip(1) == ls2 && q == p {
                            lemma_labels_cons_eq(m, ls);
                            assert(false);
                        }
                        assert(t_grants(c_new, m.skip(1), q) == t_grants(c_old, m.skip(1), q));
                    } else {
                        lemma_host_grants_frame(prev, *self, m, q);
                    }
                }
                assert forall|m: Seq<Seq<u8>>, q: Seq<u8>| #[trigger] w_grants(*self, m, q)
                    == w_grants(prev, m, q) by {
                    if m.len() == 0 {
                    } else if m[0] == lab {
                        assert(w_grants(*self, m, q) == w_grants(c_new, m.skip(1), q));
                        assert(w_grants(c_new, m.skip(1), q) == w_grants(c_old, m.skip(1), q));
                    } else {
                        lemma_host_grants_frame(prev, *self, m, q);
                    }
                }
            },
            Option::Some(k2) => {
                assert(first_star(ls) == Option::Some(k2 + 1));
                let key = ls.take(k2 + 1);
                assert(key.len() > 0 && key[0] == lab);
                assert(key.skip(1) =~= ls2.take(k2));
                assert(w_grants(*self, key, p) == w_grants(c_new, ls2.take(k2), p));
                assert(w_grants(prev, key, p) == w_grants(c_old, ls2.take(k2), p));
                assert forall|m: Seq<Seq<u8>>, q: Seq<u8>| !(m == key && q == p) implies #[trigger]
                    w_grants(*self, m, q) == w_grants(prev, m, q) by {
                    if m.len() == 0 {
                    } else if m[0] == lab {
                        assert(w_grants(*self, m, q) == w_grants(c_new, m.skip(1), q));
                        if m.skip(1) == ls2.take(k2) && q == p {
                            lemma_labels_cons_eq(m, key);
                            assert(false);
                        }
                        assert(w_grants(c_new, m.skip(1), q) == w_grants(c_old, m.skip(1), q));
                    } else {
                        lemma_host_grants_frame(prev, *self, m, q);
                    }
                }
                assert forall|m: Seq<Seq<u8>>, q: Seq<u8>| #[trigger] t_grants(*self, m, q)
                    == t_grants(prev, m, q) by {
                    if m.len() == 0 {
                    } else if m[0] == lab {
                        assert(t_grants(*self, m, q) == t_grants(c_new, m.skip(1), q));
                        assert(t_grants(c_new, m.skip(1), q) == t_grants(c_old, m.skip(1), q));
                    } else {
                        lemma_host_grants_frame(prev, *self, m, q);
                    }
                }
            },
        }
    }
}

} // verus!
