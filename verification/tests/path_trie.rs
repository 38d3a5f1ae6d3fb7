//! Tests of the path trie: normalization, compressed-edge splitting, and
//! per-pair flag isolation.

use csp_trie::{PathNode, ReqResource, ReqScheme, ReqType};

#[test]
fn empty_simple() {
    let mut tree = PathNode::new();
    tree.arrange();
    println!("{:?}", tree);
    assert_eq!(tree.check(ReqType(ReqScheme::Http, ReqResource::ScriptSrc), ""), false);
}

#[test]
fn empty_text() {
    let mut tree = PathNode::new();
    tree.arrange();
    println!("{:?}", tree);
    assert_eq!(tree.check(ReqType(ReqScheme::Http, ReqResource::ScriptSrc), "abc"), false);
}

#[test]
fn empty_rooted() {
    let mut tree = PathNode::new();
    tree.arrange();
    println!("{:?}", tree);
    assert_eq!(tree.check(ReqType(ReqScheme::Http, ReqResource::ScriptSrc), "/abc"), false);
}

#[test]
fn empty_root() {
    let mut tree = PathNode::new();
    tree.arrange();
    println!("{:?}", tree);
    assert_eq!(tree.check(ReqType(ReqScheme::Http, ReqResource::ScriptSrc), "/"), false);
}

#[test]
fn root_match() {
    let mut tree = PathNode::new();
    tree.insert(ReqType(ReqScheme::Http, ReqResource::ScriptSrc), "/");
    tree.arrange();
    println!("{:?}", tree);
    assert_eq!(tree.check(ReqType(ReqScheme::Http, ReqResource::ScriptSrc), "/"), true);
}

#[test]
fn root_equiv_match() {
    let mut tree = PathNode::new();
    tree.insert(ReqType(ReqScheme::Http, ReqResource::ScriptSrc), "/");
    tree.arrange();
    println!("{:?}", tree);
    assert_eq!(tree.check(ReqType(ReqScheme::Http, ReqResource::ScriptSrc), ""), true);
}

#[test]
fn root_equiv2_match() {
    let mut tree = PathNode::new();
    tree.insert(ReqType(ReqScheme::Http, ReqResource::ScriptSrc), "");
    tree.arrange();
    println!("{:?}", tree);
    assert_eq!(tree.check(ReqType(ReqScheme::Http, ReqResource::ScriptSrc), "/"), true);
}

#[test]
fn rooted_match() {
    let mut tree = PathNode::new();
    tree.insert(ReqType(ReqScheme::Http, ReqResource::ScriptSrc), "/");
    tree.arrange();
    println!("{:?}", tree);
    assert_eq!(tree.check(ReqType(ReqScheme::Http, ReqResource::ScriptSrc), "/test"), true);
}

#[test]
fn rooted_nomatch() {
    let mut tree = PathNode::new();
    tree.insert(ReqType(ReqScheme::Http, ReqResource::ScriptSrc), "/xxx");
    tree.arrange();
    println!("{:?}", tree);
    assert_eq!(tree.check(ReqType(ReqScheme::Http, ReqResource::ScriptSrc), "/test"), false);
}

#[test]
fn rooted_nomatch_prefix() {
    let mut tree = PathNode::new();
    tree.insert(ReqType(ReqScheme::Http, ReqResource::ScriptSrc), "/xxx");
    tree.arrange();
    println!("{:?}", tree);
    assert_eq!(tree.check(ReqType(ReqScheme::Http, ReqResource::ScriptSrc), "/"), false);
}

#[test]
fn two_nomatch() {
    let mut tree = PathNode::new();
    tree.insert(ReqType(ReqScheme::Http, ReqResource::ScriptSrc), "/test");
    tree.insert(ReqType(ReqScheme::Http, ReqResource::ScriptSrc), "/test2");
    tree.arrange();
    println!("{:?}", tree);
    assert_eq!(tree.check(ReqType(ReqScheme::Http, ReqResource::ScriptSrc), "/xxx"), false);
}

#[test]
fn prefixed_mixed_match() {
    let mut tree = PathNode::new();
    tree.insert(ReqType(ReqScheme::Https, ReqResource::ScriptSrc), "/a");
    tree.insert(ReqType(ReqScheme::Https, ReqResource::ScriptSrc), "/ab");
    tree.insert(ReqType(ReqScheme::Https, ReqResource::ScriptSrc), "/abc");
    tree.insert(ReqType(ReqScheme::Http, ReqResource::ScriptSrc), "/abc");
    tree.arrange();
    println!("{:?}", tree);
    assert_eq!(tree.check(ReqType(ReqScheme::Http, ReqResource::ScriptSrc), "/a"), false);
    assert_eq!(tree.check(ReqType(ReqScheme::Http, ReqResource::ScriptSrc), "/ab"), false);
    assert_eq!(tree.check(ReqType(ReqScheme::Http, ReqResource::ScriptSrc), "/abc"), true);
}

#[test]
fn prefixed_mixed_one_match() {
    let mut tree = PathNode::new();
    tree.insert(ReqType(ReqScheme::Https, ReqResource::ScriptSrc), "/a");
    tree.insert(ReqType(ReqScheme::Https, ReqResource::ScriptSrc), "/ab");
    tree.insert(ReqType(ReqScheme::Http, ReqResource::ScriptSrc), "/abc");
    tree.arrange();
    println!("{:?}", tree);
    assert_eq!(tree.check(ReqType(ReqScheme::Http, ReqResource::ScriptSrc), "/a"), false);
    assert_eq!(tree.check(ReqType(ReqScheme::Http, ReqResource::ScriptSrc), "/ab"), false);
    assert_eq!(tree.check(ReqType(ReqScheme::Http, ReqResource::ScriptSrc), "/abc"), true);
}

#[test]
fn prefixed_mixed_parent_match() {
    let mut tree = PathNode::new();
    tree.insert(ReqType(ReqScheme::Http, ReqResource::ScriptSrc), "/a");
    tree.insert(ReqType(ReqScheme::Https, ReqResource::ScriptSrc), "/ab");
    tree.insert(ReqType(ReqScheme::Https, ReqResource::ScriptSrc), "/abc");
    tree.arrange();
    println!("{:?}", tree);
    assert_eq!(tree.check(ReqType(ReqScheme::Http, ReqResource::ScriptSrc), "/a"), true);
    assert_eq!(tree.check(ReqType(ReqScheme::Http, ReqResource::ScriptSrc), "/ab"), true);
    assert_eq!(tree.check(ReqType(ReqScheme::Http, ReqResource::ScriptSrc), "/abc"), true);
}

#[test]
fn split_diverging_labels() {
    // "abc" and "abd" force an edge split at their shared prefix; "abe"
    // splits again below it.
    let mut tree = PathNode::new();
    tree.insert(ReqType(ReqScheme::Http, ReqResource::ImgSrc), "abc");
    tree.insert(ReqType(ReqScheme::Http, ReqResource::ImgSrc), "abd");
    tree.insert(ReqType(ReqScheme::Http, ReqResource::ImgSrc), "abe");
    tree.arrange();
    assert_eq!(tree.check(ReqType(ReqScheme::Http, ReqResource::ImgSrc), "abc"), true);
    assert_eq!(tree.check(ReqType(ReqScheme::Http, ReqResource::ImgSrc), "abd"), true);
    assert_eq!(tree.check(ReqType(ReqScheme::Http, ReqResource::ImgSrc), "abe"), true);
    assert_eq!(tree.check(ReqType(ReqScheme::Http, ReqResource::ImgSrc), "ab"), false);
    assert_eq!(tree.check(ReqType(ReqScheme::Http, ReqResource::ImgSrc), "abf"), false);
    // A granted path also covers its strict descendants.
    assert_eq!(tree.check(ReqType(ReqScheme::Http, ReqResource::ImgSrc), "abc/x"), true);
}

#[test]
fn split_shorter_input() {
    // Inserting a strict prefix of an existing edge label demotes the old
    // edge beneath a new intermediate node that carries the flags itself.
    let mut tree = PathNode::new();
    tree.insert(ReqType(ReqScheme::Http, ReqResource::FontSrc), "scripts");
    tree.insert(ReqType(ReqScheme::Http, ReqResource::FontSrc), "script");
    tree.arrange();
    assert_eq!(tree.check(ReqType(ReqScheme::Http, ReqResource::FontSrc), "script"), true);
    assert_eq!(tree.check(ReqType(ReqScheme::Http, ReqResource::FontSrc), "scripts"), true);
    assert_eq!(tree.check(ReqType(ReqScheme::Http, ReqResource::FontSrc), "scrip"), false);
}

#[test]
fn distinct_pairs_isolated() {
    // A pair sharing neither scheme nor category with the only inserted
    // pair is never reported as granted.
    let mut tree = PathNode::new();
    tree.insert(ReqType(ReqScheme::Https, ReqResource::ScriptSrc), "/app");
    tree.arrange();
    assert_eq!(tree.check(ReqType(ReqScheme::Https, ReqResource::ScriptSrc), "/app"), true);
    assert_eq!(tree.check(ReqType(ReqScheme::Http, ReqResource::StyleSrc), "/app"), false);
    assert_eq!(tree.check(ReqType(ReqScheme::Http, ReqResource::ScriptSrc), "/app"), false);
    assert_eq!(tree.check(ReqType(ReqScheme::Https, ReqResource::StyleSrc), "/app"), false);
}

#[test]
fn accumulated_pairs_collide() {
    // The documented bitmask approximation: once two distinct pairs
    // accumulate in one node, a probe mixing their bits also succeeds.
    let mut tree = PathNode::new();
    tree.insert(ReqType(ReqScheme::Http, ReqResource::ScriptSrc), "/app");
    tree.insert(ReqType(ReqScheme::Https, ReqResource::StyleSrc), "/app");
    tree.arrange();
    assert_eq!(tree.check(ReqType(ReqScheme::Http, ReqResource::StyleSrc), "/app"), true);
    assert_eq!(tree.check(ReqType(ReqScheme::Https, ReqResource::ScriptSrc), "/app"), true);
    assert_eq!(tree.check(ReqType(ReqScheme::Ws, ReqResource::StyleSrc), "/app"), false);
}

#[test]
fn insert_twice_same_result() {
    // Inserting the same tuple twice yields the same check results as
    // inserting it once.
    let mut once = PathNode::new();
    once.insert(ReqType(ReqScheme::Http, ReqResource::MediaSrc), "/m/a");
    once.arrange();
    let mut twice = PathNode::new();
    twice.insert(ReqType(ReqScheme::Http, ReqResource::MediaSrc), "/m/a");
    twice.insert(ReqType(ReqScheme::Http, ReqResource::MediaSrc), "/m/a");
    twice.arrange();
    for path in ["", "/", "/m", "/m/a", "/m/a/b", "/x"] {
        assert_eq!(
            once.check(ReqType(ReqScheme::Http, ReqResource::MediaSrc), path),
            twice.check(ReqType(ReqScheme::Http, ReqResource::MediaSrc), path)
        );
    }
    assert_eq!(twice.check(ReqType(ReqScheme::Http, ReqResource::MediaSrc), "/m/a"), true);
    assert_eq!(twice.check(ReqType(ReqScheme::Http, ReqResource::MediaSrc), "/m"), false);
}

#[test]
fn check_scheme_reads_own_flags() {
    let mut tree = PathNode::new();
    tree.insert(ReqType(ReqScheme::Wss, ReqResource::ConnectSrc), "");
    tree.arrange();
    assert!(tree.check_scheme(ReqType(ReqScheme::Wss, ReqResource::ConnectSrc)));
    assert!(!tree.check_scheme(ReqType(ReqScheme::Ws, ReqResource::ConnectSrc)));
}

#[test]
fn flag_bits_are_disjoint_pairs() {
    let a = ReqType(ReqScheme::Ftp, ReqResource::ChildSrc).flag();
    let b = ReqType(ReqScheme::Custom, ReqResource::FrameAncestors).flag();
    assert_eq!(a.0, 0b00000000_00000000_10000001u32);
    assert_eq!(b.0, 0b00100000_00000000_01000000u32);
    assert_eq!(a.0 & b.0, 0);
}
