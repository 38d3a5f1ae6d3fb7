//! Properties of the trie that hold for every build sequence, proved once
//! and for all from the contracts of the insert, arrange and check
//! operations.

use vstd::prelude::*;

use crate::bytes::{is_prefix, norm, SLASH};
use crate::flags::{flag_bits, flags_contain, lemma_or_idempotent, ReqType};
use crate::host::{first_star, host_covers, t_grants, w_grants, HostNode};
use crate::path::{covers, grants, PathNode};

verus! {

/// Checking is deterministic: the contract of every check operation pins
/// its result to a function of the trie and the arguments alone, so two
/// checks with the same arguments against the same finalized trie agree.
pub proof fn lemma_check_deterministic(
    n: HostNode,
    f: u32,
    ls: Seq<Seq<u8>>,
    p: Seq<u8>,
    r1: bool,
    r2: bool,
)
    requires
        r1 == host_covers(n, f, ls, p),
        r2 == host_covers(n, f, ls, p),
    ensures
        r1 == r2,
{
}

/// The root path and the empty path are the same case: both normalize to
/// the empty byte string, so every lookup treats them alike.
pub proof fn lemma_root_empty_equivalent(n: HostNode, f: u32, ls: Seq<Seq<u8>>)
    ensures
        norm(seq![SLASH]) == norm(Seq::<u8>::empty()),
        host_covers(n, f, ls, norm(seq![SLASH])) == host_covers(n, f, ls, norm(
            Seq::<u8>::empty(),
        )),
{
    assert(norm(seq![SLASH]) =~= Seq::<u8>::empty());
    assert(norm(Seq::<u8>::empty()) =~= Seq::<u8>::empty());
}

/// Two tries that grant alike on every chain answer every check alike.
pub proof fn lemma_check_extensional(
    n1: HostNode,
    n2: HostNode,
    f: u32,
    ls: Seq<Seq<u8>>,
    p: Seq<u8>,
)
    requires
        forall|m: Seq<Seq<u8>>, q: Seq<u8>| #[trigger] t_grants(n1, m, q) == t_grants(n2, m, q),
        forall|m: Seq<Seq<u8>>, q: Seq<u8>| #[trigger] w_grants(n1, m, q) == w_grants(n2, m, q),
    ensures
        host_covers(n1, f, ls, p) == host_covers(n2, f, ls, p),
{
    if host_covers(n1, f, ls, p) {
        if exists|i: int|
            0 <= i <= p.len() && flags_contain(t_grants(n1, ls, #[trigger] p.take(i)), f) {
            let i = choose|i: int|
                0 <= i <= p.len() && flags_contain(t_grants(n1, ls, #[trigger] p.take(i)), f);
            assert(flags_contain(t_grants(n2, ls, p.take(i)), f));
        } else {
            let (k, i) = choose|k: int, i: int|
                0 <= k < ls.len() && 0 <= i <= p.len() && flags_contain(
                    w_grants(n1, #[trigger] ls.take(k), #[trigger] p.take(i)),
                    f,
                );
            assert(flags_contain(w_grants(n2, ls.take(k), p.take(i)), f));
        }
        assert(host_covers(n2, f, ls, p));
    }
    if host_covers(n2, f, ls, p) {
        if exists|i: int|
            0 <= i <= p.len() && flags_contain(t_grants(n2, ls, #[trigger] p.take(i)), f) {
            let i = choose|i: int|
                0 <= i <= p.len() && flags_contain(t_grants(n2, ls, #[trigger] p.take(i)), f);
            assert(flags_contain(t_grants(n1, ls, p.take(i)), f));
        } else {
            let (k, i) = choose|k: int, i: int|
                0 <= k < ls.len() && 0 <= i <= p.len() && flags_contain(
                    w_grants(n2, #[trigger] ls.take(k), #[trigger] p.take(i)),
                    f,
                );
            assert(flags_contain(w_grants(n1, ls.take(k), p.take(i)), f));
        }
        assert(host_covers(n1, f, ls, p));
    }
}

/// A wildcard entry never matches the host it was declared under, only
/// strict descendants: in a trie whose terminal tries grant nothing for
/// the probe and whose wildcard grants sit only at the chain `c`, a chain
/// matches exactly when it strictly extends `c` and the path is covered
/// there.  In particular the chain `c` itself — the apex — never matches.
pub proof fn lemma_wildcard_scope(
    n: HostNode,
    f: u32,
    c: Seq<Seq<u8>>,
    ls: Seq<Seq<u8>>,
    p: Seq<u8>,
)
    requires
        forall|m: Seq<Seq<u8>>, q: Seq<u8>| !flags_contain(#[trigger] t_grants(n, m, q), f),
        forall|m: Seq<Seq<u8>>, q: Seq<u8>|
            m != c ==> !flags_contain(#[trigger] w_grants(n, m, q), f),
    ensures
        host_covers(n, f, ls, p) == (ls.len() > c.len() && ls.take(c.len() as int) == c && exists|
            i: int,
        |
            0 <= i <= p.len() && flags_contain(w_grants(n, c, #[trigger] p.take(i)), f)),
{
    if host_covers(n, f, ls, p) {
        if exists|i: int|
            0 <= i <= p.len() && flags_contain(t_grants(n, ls, #[trigger] p.take(i)), f) {
            let i = choose|i: int|
                0 <= i <= p.len() && flags_contain(t_grants(n, ls, #[trigger] p.take(i)), f);
            assert(!flags_contain(t_grants(n, ls, p.take(i)), f));
            assert(false);
        } else {
            let (k, i) = choose|k: int, i: int|
                0 <= k < ls.len() && 0 <= i <= p.len() && flags_contain(
                    w_grants(n, #[trigger] ls.take(k), #[trigger] p.take(i)),
                    f,
                );
            assert(ls.take(k) == c);
            assert(ls.take(k).len() == k);
            assert(k == c.len());
            assert(ls.len() > c.len() && ls.take(c.len() as int) == c);
        }
    }
    if ls.len() > c.len() && ls.take(c.len() as int) == c && exists|i: int|
        0 <= i <= p.len() && flags_contain(w_grants(n, c, #[trigger] p.take(i)), f) {
        let i = choose|i: int|
            0 <= i <= p.len() && flags_contain(w_grants(n, c, #[trigger] p.take(i)), f);
        let k = c.len() as int;
        assert(flags_contain(w_grants(n, ls.take(k), p.take(i)), f));
        assert(host_covers(n, f, ls, p));
    }
}

/// A path lookup succeeds only along a literal byte prefix: in a path
/// trie whose grants for the probe sit at a single path, a checked path
/// is covered exactly when that path is a prefix of it.
pub proof fn lemma_literal_prefix_scope(n: PathNode, f: u32, tgt: Seq<u8>, p: Seq<u8>)
    requires
        forall|q: Seq<u8>| q != tgt ==> !flags_contain(#[trigger] grants(n, q), f),
    ensures
        covers(n, f, p) == (is_prefix(tgt, p) && flags_contain(
            grants(n, tgt),
            f,
        )),
{
    if covers(n, f, p) {
        let i = choose|i: int|
            0 <= i <= p.len() && flags_contain(grants(n, #[trigger] p.take(i)), f);
        assert(p.take(i) == tgt);
        assert(p.take(i).len() == i);
        assert(is_prefix(tgt, p));
    }
    if is_prefix(tgt, p) && flags_contain(grants(n, tgt), f) {
        let i = tgt.len() as int;
        assert(p.take(i) =~= tgt);
        assert(flags_contain(grants(n, p.take(i)), f));
        assert(covers(n, f, p));
    }
}

/// An exact entry and a wildcard entry coexist independently: in a trie
/// whose terminal grants for the probe sit only at the chain `ct` and
/// whose wildcard grants sit only at the chain `cw`, a host matches
/// exactly when it is `ct` itself (and its path is covered there), or a
/// strict descendant of `cw` (and its path is covered there) — never
/// because the two entries mix.
pub proof fn lemma_exact_wildcard_independent(
    n: HostNode,
    f: u32,
    ct: Seq<Seq<u8>>,
    cw: Seq<Seq<u8>>,
    ls: Seq<Seq<u8>>,
    p: Seq<u8>,
)
    requires
        forall|m: Seq<Seq<u8>>, q: Seq<u8>|
            m != ct ==> !flags_contain(#[trigger] t_grants(n, m, q), f),
        forall|m: Seq<Seq<u8>>, q: Seq<u8>|
            m != cw ==> !flags_contain(#[trigger] w_grants(n, m, q), f),
    ensures
        host_covers(n, f, ls, p) == ((ls == ct && exists|i: int|
            0 <= i <= p.len() && flags_contain(t_grants(n, ct, #[trigger] p.take(i)), f)) || (
        ls.len() > cw.len() && ls.take(cw.len() as int) == cw && exists|i: int|
            0 <= i <= p.len() && flags_contain(w_grants(n, cw, #[trigger] p.take(i)), f))),
{
    if host_covers(n, f, ls, p) {
        if exists|i: int|
            0 <= i <= p.len() && flags_contain(t_grants(n, ls, #[trigger] p.take(i)), f) {
            let i = choose|i: int|
                0 <= i <= p.len() && flags_contain(t_grants(n, ls, #[trigger] p.take(i)), f);
            assert(ls == ct);
            assert(flags_contain(t_grants(n, ct, p.take(i)), f));
        } else {
            let (k, i) = choose|k: int, i: int|
                0 <= k < ls.len() && 0 <= i <= p.len() && flags_contain(
                    w_grants(n, #[trigger] ls.take(k), #[trigger] p.take(i)),
                    f,
                );
            assert(ls.take(k) == cw);
            assert(ls.take(k).len() == k);
            assert(k == cw.len());
            assert(ls.len() > cw.len() && ls.take(cw.len() as int) == cw);
        }
    }
    if ls == ct && exists|i: int|
        0 <= i <= p.len() && flags_contain(t_grants(n, ct, #[trigger] p.take(i)), f) {
        let i = choose|i: int|
            0 <= i <= p.len() && flags_contain(t_grants(n, ct, #[trigger] p.take(i)), f);
        assert(flags_contain(t_grants(n, ls, p.take(i)), f));
        assert(host_covers(n, f, ls, p));
    }
    if ls.len() > cw.len() && ls.take(cw.len() as int) == cw && exists|i: int|
        0 <= i <= p.len() && flags_contain(w_grants(n, cw, #[trigger] p.take(i)), f) {
        let i = choose|i: int|
            0 <= i <= p.len() && flags_contain(w_grants(n, cw, #[trigger] p.take(i)), f);
        let k = cw.len() as int;
        assert(flags_contain(w_grants(n, ls.take(k), p.take(i)), f));
        assert(host_covers(n, f, ls, p));
    }
}

/// An exact match is additive to every wildcard: if the terminal trie at
/// the end of the exact chain grants the probe for some prefix of the
/// path, the check succeeds, whatever any wildcard trie holds.
pub proof fn lemma_exact_match_additive(
    n: HostNode,
    f: u32,
    ls: Seq<Seq<u8>>,
    p: Seq<u8>,
    i: int,
)
    requires
        0 <= i <= p.len(),
        flags_contain(t_grants(n, ls, p.take(i)), f),
    ensures
        host_covers(n, f, ls, p),
{
}

/// Inserting the same (pair, host, path) tuple twice grants exactly what
/// inserting it once grants, so — by [`lemma_check_extensional`] — every
/// later check answers the same.  `n1` is `n0` after one insertion of the
/// tuple whose reversed labels are `ls`, normalized path `p` and flag bits
/// `f`; `n2` is `n1` after a second, identical insertion, each step
/// related exactly as the insert contract states.
pub proof fn lemma_insert_idempotent(
    n0: HostNode,
    n1: HostNode,
    n2: HostNode,
    ls: Seq<Seq<u8>>,
    p: Seq<u8>,
    f: u32,
)
    requires
        ({
            match first_star(ls) {
                Option::None => {
                    &&& t_grants(n1, ls, p) == t_grants(n0, ls, p) | f
                    &&& forall|m: Seq<Seq<u8>>, q: Seq<u8>|
                        !(m == ls && q == p) ==> #[trigger] t_grants(n1, m, q) == t_grants(
                            n0,
                            m,
                            q,
                        )
                    &&& forall|m: Seq<Seq<u8>>, q: Seq<u8>|
                        #[trigger] w_grants(n1, m, q) == w_grants(n0, m, q)
                    &&& t_grants(n2, ls, p) == t_grants(n1, ls, p) | f
                    &&& forall|m: Seq<Seq<u8>>, q: Seq<u8>|
                        !(m == ls && q == p) ==> #[trigger] t_grants(n2, m, q) == t_grants(
                            n1,
                            m,
                            q,
                        )
                    &&& forall|m: Seq<Seq<u8>>, q: Seq<u8>|
                        #[trigger] w_grants(n2, m, q) == w_grants(n1, m, q)
                },
                Option::Some(k) => {
                    &&& w_grants(n1, ls.take(k), p) == w_grants(n0, ls.take(k), p) | f
                    &&& forall|m: Seq<Seq<u8>>, q: Seq<u8>|
                        !(m == ls.take(k) && q == p) ==> #[trigger] w_grants(n1, m, q)
                            == w_grants(n0, m, q)
                    &&& forall|m: Seq<Seq<u8>>, q: Seq<u8>|
                        #[trigger] t_grants(n1, m, q) == t_grants(n0, m, q)
                    &&& w_grants(n2, ls.take(k), p) == w_grants(n1, ls.take(k), p) | f
                    &&& forall|m: Seq<Seq<u8>>, q: Seq<u8>|
                        !(m == ls.take(k) && q == p) ==> #[trigger] w_grants(n2, m, q)
                            == w_grants(n1, m, q)
                    &&& forall|m: Seq<Seq<u8>>, q: Seq<u8>|
                        #[trigger] t_grants(n2, m, q) == t_grants(n1, m, q)
                },
            }
        }),
    ensures
        forall|m: Seq<Seq<u8>>, q: Seq<u8>| #[trigger] t_grants(n2, m, q) == t_grants(n1, m, q),
        forall|m: Seq<Seq<u8>>, q: Seq<u8>| #[trigger] w_grants(n2, m, q) == w_grants(n1, m, q),
{
    match first_star(ls) {
        Option::None => {
            assert forall|m: Seq<Seq<u8>>, q: Seq<u8>| #[trigger] t_grants(n2, m, q) == t_grants(
                n1,
                m,
                q,
            ) by {
                if m == ls && q == p {
                    lemma_or_idempotent(t_grants(n0, ls, p), f);
                }
            }
        },
        Option::Some(k) => {
            assert forall|m: Seq<Seq<u8>>, q: Seq<u8>| #[trigger] w_grants(n2, m, q) == w_grants(
                n1,
                m,
                q,
            ) by {
                if m == ls.take(k) && q == p {
                    lemma_or_idempotent(w_grants(n0, ls.take(k), p), f);
                }
            }
        },
    }
}

/// A pair only reaches a check through its own two bits: checking with a
/// pair whose bits were granted nowhere along the chain fails.  Stated
/// through [`crate::flags::lemma_single_pair_exact`], which shows that a
/// single granted pair never satisfies a probe for a different pair.
pub proof fn lemma_distinct_pair_not_covered(a: ReqType, b: ReqType, n: HostNode, ls: Seq<Seq<u8>>, p: Seq<u8>)
    requires
        a != b,
        forall|m: Seq<Seq<u8>>, q: Seq<u8>|
            #[trigger] t_grants(n, m, q) == 0 || t_grants(n, m, q) == flag_bits(a),
        forall|m: Seq<Seq<u8>>, q: Seq<u8>|
            #[trigger] w_grants(n, m, q) == 0 || w_grants(n, m, q) == flag_bits(a),
    ensures
        !host_covers(n, flag_bits(b), ls, p),
{
    let f = flag_bits(b);
    crate::flags::lemma_flag_nonzero(b);
    crate::flags::lemma_single_pair_exact(a, b);
    if host_covers(n, f, ls, p) {
        if exists|i: int|
            0 <= i <= p.len() && flags_contain(t_grants(n, ls, #[trigger] p.take(i)), f) {
            let i = choose|i: int|
                0 <= i <= p.len() && flags_contain(t_grants(n, ls, #[trigger] p.take(i)), f);
            assert(t_grants(n, ls, p.take(i)) == 0 || t_grants(n, ls, p.take(i)) == flag_bits(a));
            assert(false);
        } else {
            let (k, i) = choose|k: int, i: int|
                0 <= k < ls.len() && 0 <= i <= p.len() && flags_contain(
                    w_grants(n, #[trigger] ls.take(k), #[trigger] p.take(i)),
                    f,
                );
            assert(w_grants(n, ls.take(k), p.take(i)) == 0 || w_grants(n, ls.take(k), p.take(i))
                == flag_bits(a));
            assert(false);
        }
    }
}

} // verus!
