//! Byte-string helpers shared by the path and host tries.
//!
//! Paths are matched as arbitrary byte strings after normalizing away one
//! optional leading `/`; hosts are split into `.`-separated labels.  The
//! spec functions here give those operations their mathematical meaning over
//! `Seq<u8>`, and the exec functions implement them.

use vstd::prelude::*;

verus! {

/// The path separator, `b'/'`.
pub const SLASH: u8 = 47;

/// The host label separator, `b'.'`.
pub const DOT: u8 = 46;

/// The wildcard host label marker, `b'*'`.
pub const STAR: u8 = 42;

/// `a` is a prefix of `b`.
pub open spec fn is_prefix(a: Seq<u8>, b: Seq<u8>) -> bool {
    a.len() <= b.len() && forall|i: int| 0 <= i < a.len() ==> a[i] == b[i]
}

/// Path normalization: an empty path and a root path are the same case, so
/// one leading separator is stripped.
pub open spec fn norm(p: Seq<u8>) -> Seq<u8> {
    if p.len() > 0 && p[0] == SLASH {
        p.skip(1)
    } else {
        p
    }
}

/// Strips one leading path separator, the executable form of [`norm`].
pub fn norm_slice<'a>(p: &'a [u8]) -> (r: &'a [u8])
    ensures
        r@ == norm(p@),
{
    if p.len() > 0 && *vstd::slice::slice_index_get(p, 0) == SLASH {
        let r = vstd::slice::slice_subrange(p, 1, p.len());
        assert(r@ =~= norm(p@));
        r
    } else {
        p
    }
}

/// Whether `p` (an edge label) is a prefix of `b` (the remaining path).
pub fn starts_with(b: &[u8], p: &[u8]) -> (r: bool)
    ensures
        r == is_prefix(p@, b@),
{
    if p.len() > b.len() {
        return false;
    }
    for i in 0..p.len()
        invariant
            p.len() <= b.len(),
            forall|k: int| 0 <= k < i ==> p@[k] == b@[k],
    {
        if *vstd::slice::slice_index_get(p, i) != *vstd::slice::slice_index_get(b, i) {
            return false;
        }
    }
    true
}

/// `l` is the length of the longest common prefix of `a` and `b`.
pub open spec fn lcp_ok(a: Seq<u8>, b: Seq<u8>, l: int) -> bool {
    &&& 0 <= l <= a.len()
    &&& l <= b.len()
    &&& forall|i: int| 0 <= i < l ==> a[i] == b[i]
    &&& (l < a.len() && l < b.len() ==> a[l] != b[l])
}

/// The length of the longest common prefix of `a` and `b`.
pub open spec fn lcp(a: Seq<u8>, b: Seq<u8>) -> int {
    choose|l: int| lcp_ok(a, b, l)
}

/// The longest-common-prefix length is unique, so [`lcp`] equals any
/// witness of [`lcp_ok`].
pub proof fn lemma_lcp(a: Seq<u8>, b: Seq<u8>, l: int)
    requires
        lcp_ok(a, b, l),
    ensures
        lcp(a, b) == l,
{
    let m = lcp(a, b);
    assert(lcp_ok(a, b, m));
    if m < l {
        assert(a[m] == b[m]);
        assert(false);
    } else if m > l {
        assert(a[l] == b[l]);
        assert(false);
    }
}

/// Computes the longest-common-prefix length of `a` and `b`.
pub fn lcp_len(a: &[u8], b: &[u8]) -> (l: usize)
    ensures
        l == lcp(a@, b@),
        l <= a@.len() && l <= b@.len(),
        forall|i: int| 0 <= i < l ==> a@[i] == b@[i],
        l < a@.len() && l < b@.len() ==> a@[l as int] != b@[l as int],
{
    let n = if a.len() < b.len() {
        a.len()
    } else {
        b.len()
    };
    let mut l: usize = 0;
    while l < n
        invariant
            n <= a@.len() && n <= b@.len(),
            n == a@.len() || n == b@.len(),
            0 <= l <= n,
            forall|i: int| 0 <= i < l ==> a@[i] == b@[i],
        decreases n - l,
    {
        if *vstd::slice::slice_index_get(a, l) != *vstd::slice::slice_index_get(b, l) {
            proof {
                lemma_lcp(a@, b@, l as int);
            }
            return l;
        }
        l = l + 1;
    }
    proof {
        lemma_lcp(a@, b@, l as int);
    }
    l
}

/// A prefix as long as the whole string is the whole string.
pub proof fn lemma_prefix_same_len(a: Seq<u8>, q: Seq<u8>)
    requires
        is_prefix(a, q),
        a.len() == q.len(),
    ensures
        a == q,
{
    assert(a =~= q);
}

/// When `a` and `q` agree on their first `l` bytes, `a` prefixes `q`
/// exactly when the remainder of `a` prefixes the remainder of `q`.
pub proof fn lemma_prefix_split(a: Seq<u8>, q: Seq<u8>, l: int)
    requires
        0 <= l <= a.len(),
        l <= q.len(),
        forall|i: int| 0 <= i < l ==> a[i] == q[i],
    ensures
        is_prefix(a, q) <==> is_prefix(a.skip(l), q.skip(l)),
{
    if is_prefix(a, q) {
        assert forall|i: int| 0 <= i < a.skip(l).len() implies a.skip(l)[i] == q.skip(l)[i] by {
            assert(a.skip(l)[i] == a[i + l]);
            assert(q.skip(l)[i] == q[i + l]);
        }
    }
    if is_prefix(a.skip(l), q.skip(l)) {
        assert forall|i: int| 0 <= i < a.len() implies a[i] == q[i] by {
            if i >= l {
                assert(a.skip(l)[i - l] == a[i]);
                assert(q.skip(l)[i - l] == q[i]);
            }
        }
    }
}

/// Two strings that agree on their first `l` bytes and on everything after
/// them are equal.
pub proof fn lemma_eq_from_parts(p: Seq<u8>, q: Seq<u8>, l: int)
    requires
        0 <= l <= p.len(),
        l <= q.len(),
        forall|i: int| 0 <= i < l ==> p[i] == q[i],
        p.skip(l) == q.skip(l),
    ensures
        p == q,
{
    assert(p.skip(l).len() == p.len() - l);
    assert(q.skip(l).len() == q.len() - l);
    assert(p.len() == q.len());
    assert forall|i: int| 0 <= i < p.len() implies p[i] == q[i] by {
        if i >= l {
            assert(p.skip(l)[i - l] == p[i]);
            assert(q.skip(l)[i - l] == p.skip(l)[i - l]);
            assert(q.skip(l)[i - l] == q[i]);
        }
    }
    assert(p =~= q);
}

/// Skipping in two steps is skipping once.
pub proof fn lemma_skip_skip(q: Seq<u8>, l: int, m: int)
    requires
        0 <= l,
        0 <= m,
        l + m <= q.len(),
    ensures
        q.skip(l).skip(m) == q.skip(l + m),
{
    assert(q.skip(l).skip(m) =~= q.skip(l + m));
}

/// Copies `v[i..j]` into an owned vector.
pub fn subrange_vec(v: &[u8], i: usize, j: usize) -> (r: Vec<u8>)
    requires
        0 <= i <= j <= v@.len(),
    ensures
        r@ == v@.subrange(i as int, j as int),
{
    let s = vstd::slice::slice_subrange(v, i, j);
    vstd::slice::slice_to_vec(s)
}

/// The index of the first label separator in `h`, or `h.len()` if none.
pub open spec fn find_dot(h: Seq<u8>) -> int
    decreases h.len(),
{
    if h.len() == 0 {
        0
    } else if h[0] == DOT {
        0
    } else {
        1 + find_dot(h.skip(1))
    }
}

/// [`find_dot`] is characterized by: no separator before it, a separator
/// at it unless the string ends first.
pub proof fn lemma_find_dot(h: Seq<u8>, k: int)
    requires
        0 <= k <= h.len(),
        forall|x: int| 0 <= x < k ==> h[x] != DOT,
        k < h.len() ==> h[k] == DOT,
    ensures
        find_dot(h) == k,
    decreases h.len(),
{
    if h.len() == 0 {
    } else if h[0] == DOT {
        assert(k == 0);
    } else {
        assert(k >= 1);
        let h2 = h.skip(1);
        assert forall|x: int| 0 <= x < k - 1 implies h2[x] != DOT by {
            assert(h2[x] == h[x + 1]);
        }
        assert(k - 1 < h2.len() ==> h2[k - 1] == h[k] && h[k] == DOT);
        lemma_find_dot(h2, k - 1);
    }
}

/// The `.`-separated labels of a host string, in source order.  An empty
/// string yields one empty label, as splitting does.
pub open spec fn dot_split(h: Seq<u8>) -> Seq<Seq<u8>>
    decreases h.len(),
{
    let k = find_dot(h);
    if k == h.len() || !(0 <= k < h.len()) {
        seq![h]
    } else {
        seq![h.take(k)] + dot_split(h.skip(k + 1))
    }
}

/// Unfolds [`dot_split`] once at a known separator position.
pub proof fn lemma_dot_split_step(h: Seq<u8>, k: int)
    requires
        0 <= k <= h.len(),
        forall|x: int| 0 <= x < k ==> h[x] != DOT,
        k < h.len() ==> h[k] == DOT,
    ensures
        k == h.len() ==> dot_split(h) == seq![h],
        k < h.len() ==> dot_split(h) == seq![h.take(k)] + dot_split(h.skip(k + 1)),
{
    lemma_find_dot(h, k);
    if k == h.len() {
        assert(dot_split(h) == seq![h]);
    }
}

/// The labels of a host string, leading (top-level) label first: the
/// `.`-separated labels in reverse order, so that the most widely shared
/// labels sit nearest the trie root.
pub open spec fn host_labels(h: Seq<u8>) -> Seq<Seq<u8>> {
    dot_split(h).reverse()
}

/// Splits a host string into its labels, most significant first: the
/// executable form of [`host_labels`].
pub fn split_host(host: &[u8]) -> (out: Vec<Vec<u8>>)
    ensures
        out.deep_view() == host_labels(host@),
{
    let n = host.len();
    let mut fwd: Vec<Vec<u8>> = Vec::new();
    let mut start: usize = 0;
    let mut i: usize = 0;
    proof {
        assert(host@.skip(0) =~= host@);
        assert(fwd.deep_view() =~= Seq::<Seq<u8>>::empty());
        assert(fwd.deep_view() + dot_split(host@) =~= dot_split(host@));
    }
    while i < n
        invariant
            n == host@.len(),
            0 <= start <= i <= n,
            dot_split(host@) == fwd.deep_view() + dot_split(host@.skip(start as int)),
            forall|x: int| start <= x < i ==> host@[x] != DOT,
        decreases n - i,
    {
        if *vstd::slice::slice_index_get(host, i) == DOT {
            let ghost dv0 = fwd.deep_view();
            let piece = subrange_vec(host, start, i);
            fwd.push(piece);
            proof {
                let s = host@.skip(start as int);
                let k = i - start;
                assert forall|x: int| 0 <= x < k implies s[x] != DOT by {
                    assert(s[x] == host@[x + start]);
                }
                assert(s[k] == host@[i as int]);
                lemma_dot_split_step(s, k);
                assert(s.take(k) =~= piece@);
                assert(s.skip(k + 1) =~= host@.skip(i + 1));
                assert(piece.deep_view() =~= piece@);
                assert(fwd.deep_view() =~= dv0.push(piece@));
                assert(dv0 + (seq![piece@] + dot_split(host@.skip(i + 1))) =~= dv0.push(piece@)
                    + dot_split(host@.skip(i + 1)));
                assert(dot_split(host@) == fwd.deep_view() + dot_split(host@.skip(i + 1)));
            }
            start = i + 1;
        }
        i = i + 1;
    }
    let ghost dv1 = fwd.deep_view();
    let piece = subrange_vec(host, start, n);
    fwd.push(piece);
    let ghost full = dot_split(host@);
    proof {
        let s = host@.skip(start as int);
        let k = n - start;
        assert forall|x: int| 0 <= x < k implies s[x] != DOT by {
            assert(s[x] == host@[x + start]);
        }
        lemma_dot_split_step(s, k as int);
        assert(s =~= piece@);
        assert(dot_split(s) == seq![piece@]);
        assert(piece.deep_view() =~= piece@);
        assert(fwd.deep_view() =~= dv1.push(piece@));
        assert(dv1 + seq![piece@] =~= dv1.push(piece@));
        assert(fwd.deep_view() =~= full);
        assert(full.take(fwd@.len() as int) =~= full);
    }
    let mut out: Vec<Vec<u8>> = Vec::new();
    while fwd.len() > 0
        invariant
            fwd.deep_view() == full.take(fwd@.len() as int),
            out@.len() + fwd@.len() == full.len(),
            forall|x: int|
                0 <= x < out@.len() ==> (#[trigger] out@[x])@ == full[full.len() - 1 - x],
        decreases fwd@.len(),
    {
        let ghost k = fwd@.len() as int;
        let ghost dv0 = fwd.deep_view();
        let ghost ov0 = out@;
        let v = fwd.pop().unwrap();
        out.push(v);
        proof {
            assert(v.deep_view() =~= v@);
            assert(v@ == dv0[k - 1]);
            assert(dv0[k - 1] == full[k - 1]);
            assert(fwd.deep_view() =~= full.take(k - 1));
            assert(out@ == ov0.push(v));
        }
    }
    proof {
        assert(out.deep_view().len() == full.reverse().len());
        assert forall|x: int| 0 <= x < full.len() implies out.deep_view()[x] == full.reverse()[x]
        by {
            assert(out.deep_view()[x] == out@[x].deep_view());
            assert(out@[x].deep_view() =~= out@[x]@);
        }
        assert(out.deep_view() =~= host_labels(host@));
    }
    out
}

} // verus!
