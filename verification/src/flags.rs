//! Bit-encoded grant sets.
//!
//! A [`FlagSet`] packs which (scheme, resource-category) pairs are granted at
//! a trie node into one `u32`: every scheme value and every resource-category
//! value owns one reserved bit, and a granted pair contributes the OR of its
//! two bits.  Multiple pairs accumulate by OR.  The containment probe tests
//! both bits of a pair at once; once several pairs have accumulated in one
//! node the encoding no longer remembers which scheme bit arrived with which
//! category bit, so the probe is a deliberate over-approximation.

use vstd::prelude::*;

verus! {

/// The scheme of a request.  Non-standard schemes are collapsed into
/// `Custom` so that they do not cost a bit per tree node.
#[derive(Clone, Copy, Debug, PartialEq, Eq, Structural)]
pub enum ReqScheme {
    Ftp,
    Gopher,
    Http,
    Https,
    Ws,
    Wss,
    Custom,
}

/// The resource category of a request: which directive constrains it.
#[derive(Clone, Copy, Debug, PartialEq, Eq, Structural)]
pub enum ReqResource {
    ChildSrc,
    ConnectSrc,
    DefaultSrc,
    FontSrc,
    FrameSrc,
    ImgSrc,
    ManifestSrc,
    MediaSrc,
    ObjectSrc,
    ScriptSrc,
    StyleSrc,
    WorkerSrc,
    BaseUri,
    FormAction,
    FrameAncestors,
}

/// A concrete request's classification: its scheme and resource category.
/// Used only to compute a [`FlagSet`] value at insertion and lookup time.
#[derive(Clone, Copy, Debug, PartialEq, Eq, Structural)]
pub struct ReqType(pub ReqScheme, pub ReqResource);

/// A fixed-width bitset of granted (scheme, resource-category) pairs.
/// An all-zero `FlagSet` grants nothing.
#[derive(Clone, Copy, Debug, PartialEq, Eq, Structural)]
pub struct FlagSet(pub u32);

/// The bit position reserved for a scheme value.
pub open spec fn scheme_shift(s: ReqScheme) -> u32 {
    match s {
        ReqScheme::Ftp => 0,
        ReqScheme::Gopher => 1,
        ReqScheme::Http => 2,
        ReqScheme::Https => 3,
        ReqScheme::Ws => 4,
        ReqScheme::Wss => 5,
        ReqScheme::Custom => 6,
    }
}

/// The bit position reserved for a resource-category value.
pub open spec fn resource_shift(r: ReqResource) -> u32 {
    match r {
        ReqResource::ChildSrc => 7,
        ReqResource::ConnectSrc => 8,
        ReqResource::DefaultSrc => 9,
        ReqResource::FontSrc => 10,
        ReqResource::FrameSrc => 11,
        ReqResource::ImgSrc => 12,
        ReqResource::ManifestSrc => 13,
        ReqResource::MediaSrc => 14,
        ReqResource::ObjectSrc => 15,
        ReqResource::ScriptSrc => 16,
        ReqResource::StyleSrc => 17,
        ReqResource::WorkerSrc => 18,
        ReqResource::BaseUri => 19,
        ReqResource::FrameAncestors => 21,
        ReqResource::FormAction => 20,
    }
}

/// The bit pattern granted or probed for one (scheme, category) pair:
/// the OR of the pair's two reserved bits.
pub open spec fn flag_bits(t: ReqType) -> u32 {
    (1u32 << scheme_shift(t.0)) | (1u32 << resource_shift(t.1))
}

/// Containment: a probe `p` is granted by an accumulated set `s` when both
/// of `p`'s bits are set in `s`.
pub open spec fn flags_contain(s: u32, p: u32) -> bool {
    s & p == p
}

impl ReqType {
    /// The executable counterpart of [`flag_bits`].  Total and pure.
    pub fn flag(self) -> (r: FlagSet)
        ensures
            r.0 == flag_bits(self),
    {
        let s: u32 = match self.0 {
            ReqScheme::Ftp => 0,
            ReqScheme::Gopher => 1,
            ReqScheme::Http => 2,
            ReqScheme::Https => 3,
            ReqScheme::Ws => 4,
            ReqScheme::Wss => 5,
            ReqScheme::Custom => 6,
        };
        let c: u32 = match self.1 {
            ReqResource::ChildSrc => 7,
            ReqResource::ConnectSrc => 8,
            ReqResource::DefaultSrc => 9,
            ReqResource::FontSrc => 10,
            ReqResource::FrameSrc => 11,
            ReqResource::ImgSrc => 12,
            ReqResource::ManifestSrc => 13,
            ReqResource::MediaSrc => 14,
            ReqResource::ObjectSrc => 15,
            ReqResource::ScriptSrc => 16,
            ReqResource::StyleSrc => 17,
            ReqResource::WorkerSrc => 18,
            ReqResource::BaseUri => 19,
            ReqResource::FormAction => 20,
            ReqResource::FrameAncestors => 21,
        };
        FlagSet((1u32 << s) | (1u32 << c))
    }
}

/// A pair's flag pattern is never all-zero, so an empty node never grants it.
pub proof fn lemma_flag_nonzero(t: ReqType)
    ensures
        flag_bits(t) != 0,
        !flags_contain(0, flag_bits(t)),
{
    let i = scheme_shift(t.0);
    let j = resource_shift(t.1);
    assert(i < 7 && 7 <= j && j < 22);
    assert(i < 32 && j < 32 ==> ((1u32 << i) | (1u32 << j)) != 0 && 0u32 & ((1u32 << i) | (1u32
        << j)) != ((1u32 << i) | (1u32 << j))) by (bit_vector);
}

/// An empty grant set contains no non-empty probe.
pub proof fn lemma_zero_not_contains(f: u32)
    requires
        f != 0,
    ensures
        !flags_contain(0, f),
{
    assert(f != 0 ==> !(0u32 & f == f)) by (bit_vector);
}

/// Granting the same pair twice is the same as granting it once.
pub proof fn lemma_or_idempotent(s: u32, f: u32)
    ensures
        (s | f) | f == s | f,
{
    assert((s | f) | f == s | f) by (bit_vector);
}

/// A `FlagSet` holding exactly one pair grants no other pair: if `a != b`
/// then `flag_bits(a)` does not contain `flag_bits(b)`.  (The documented
/// bitmask collision can only arise once two or more distinct pairs have
/// accumulated in the same set.)
pub proof fn lemma_single_pair_exact(a: ReqType, b: ReqType)
    requires
        a != b,
    ensures
        !flags_contain(flag_bits(a), flag_bits(b)),
{
    let i1 = scheme_shift(a.0);
    let j1 = resource_shift(a.1);
    let i2 = scheme_shift(b.0);
    let j2 = resource_shift(b.1);
    assert(a.0 != b.0 ==> i1 != i2);
    assert(a.1 != b.1 ==> j1 != j2);
    assert((i1 < 7 && i2 < 7 && 7 <= j1 && j1 < 22 && 7 <= j2 && j2 < 22 && (i1 != i2 || j1 != j2))
        ==> ((1u32 << i1) | (1u32 << j1)) & ((1u32 << i2) | (1u32 << j2)) != ((1u32 << i2) | (1u32
        << j2))) by (bit_vector);
}

} // verus!
