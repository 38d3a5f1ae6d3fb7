//! Tests of the host trie: exact and wildcard matching over reversed
//! domain labels, layered over the path tries.

use csp_trie::{HostNode, ReqResource, ReqScheme, ReqType};

#[test]
fn host_tree_empty() {
    let mut tree = HostNode::new();
    tree.arrange();
    println!("{:?}", tree);
    assert_eq!(tree.check(ReqType(ReqScheme::Http, ReqResource::ScriptSrc), "", ""), false);
    assert_eq!(
        tree.check(ReqType(ReqScheme::Http, ReqResource::ScriptSrc), "google.com", "script"),
        false
    );
    assert_eq!(
        tree.check(ReqType(ReqScheme::Http, ReqResource::ScriptSrc), "google.com", "script.js"),
        false
    );
    assert_eq!(
        tree.check(ReqType(ReqScheme::Http, ReqResource::ScriptSrc), "cdn.google.com", "script.js"),
        false
    );
}

#[test]
fn host_tree_basic() {
    let mut tree = HostNode::new();
    tree.insert(ReqType(ReqScheme::Http, ReqResource::ScriptSrc), "google.com", "script");
    tree.arrange();
    println!("{:?}", tree);
    assert_eq!(tree.check(ReqType(ReqScheme::Http, ReqResource::ScriptSrc), "", ""), false);
    assert_eq!(
        tree.check(ReqType(ReqScheme::Http, ReqResource::ScriptSrc), "google.com", "script"),
        true
    );
    assert_eq!(
        tree.check(ReqType(ReqScheme::Http, ReqResource::ScriptSrc), "google.com", "script.js"),
        true
    );
    assert_eq!(
        tree.check(ReqType(ReqScheme::Http, ReqResource::ScriptSrc), "cdn.google.com", "script.js"),
        false
    );
}

#[test]
fn host_tree_wildcard() {
    let mut tree = HostNode::new();
    tree.insert(ReqType(ReqScheme::Http, ReqResource::ScriptSrc), "*.google.com", "script");
    tree.arrange();
    println!("{:?}", tree);
    assert_eq!(tree.check(ReqType(ReqScheme::Http, ReqResource::ScriptSrc), "", ""), false);
    assert_eq!(
        tree.check(ReqType(ReqScheme::Http, ReqResource::ScriptSrc), "google.com", "script"),
        false
    );
    assert_eq!(
        tree.check(ReqType(ReqScheme::Http, ReqResource::ScriptSrc), "google.com", "script.js"),
        false
    );
    assert_eq!(
        tree.check(ReqType(ReqScheme::Http, ReqResource::ScriptSrc), "cdn.google.com", "script.js"),
        true
    );
}

#[test]
fn host_tree_mixed() {
    let mut tree = HostNode::new();
    tree.insert(ReqType(ReqScheme::Http, ReqResource::ScriptSrc), "google.com", "script");
    tree.insert(ReqType(ReqScheme::Http, ReqResource::ScriptSrc), "*.google.com", "script");
    tree.arrange();
    println!("{:?}", tree);
    assert_eq!(tree.check(ReqType(ReqScheme::Http, ReqResource::ScriptSrc), "", ""), false);
    assert_eq!(
        tree.check(ReqType(ReqScheme::Http, ReqResource::ScriptSrc), "google.com", "script"),
        true
    );
    assert_eq!(
        tree.check(ReqType(ReqScheme::Http, ReqResource::ScriptSrc), "google.com", "script.js"),
        true
    );
    assert_eq!(
        tree.check(ReqType(ReqScheme::Http, ReqResource::ScriptSrc), "cdn.google.com", "script.js"),
        true
    );
}

#[test]
fn host_tree_mixed_scheme() {
    let mut tree = HostNode::new();
    tree.insert(ReqType(ReqScheme::Https, ReqResource::ScriptSrc), "google.com", "script");
    tree.insert(ReqType(ReqScheme::Http, ReqResource::ScriptSrc), "*.google.com", "script");
    tree.arrange();
    println!("{:?}", tree);
    assert_eq!(tree.check(ReqType(ReqScheme::Http, ReqResource::ScriptSrc), "", ""), false);
    assert_eq!(
        tree.check(ReqType(ReqScheme::Http, ReqResource::ScriptSrc), "google.com", "script"),
        false
    );
    assert_eq!(
        tree.check(ReqType(ReqScheme::Http, ReqResource::ScriptSrc), "google.com", "script.js"),
        false
    );
    assert_eq!(
        tree.check(ReqType(ReqScheme::Http, ReqResource::ScriptSrc), "cdn.google.com", "script.js"),
        true
    );
}

#[test]
fn host_tree_fallback_after_wildcard() {
    let mut tree = HostNode::new();
    tree.insert(ReqType(ReqScheme::Http, ReqResource::ScriptSrc), "*.google.com", "style");
    tree.insert(ReqType(ReqScheme::Http, ReqResource::ScriptSrc), "cdn.google.com", "script");
    tree.arrange();
    println!("{:?}", tree);
    assert_eq!(tree.check(ReqType(ReqScheme::Http, ReqResource::ScriptSrc), "", ""), false);
    assert_eq!(
        tree.check(ReqType(ReqScheme::Http, ReqResource::ScriptSrc), "users.google.com", "style"),
        true
    );
    assert_eq!(
        tree.check(ReqType(ReqScheme::Http, ReqResource::ScriptSrc), "users.google.com", "script"),
        false
    );
    assert_eq!(
        tree.check(ReqType(ReqScheme::Http, ReqResource::ScriptSrc), "cdn.google.com", "style"),
        true
    );
    assert_eq!(
        tree.check(ReqType(ReqScheme::Http, ReqResource::ScriptSrc), "cdn.google.com", "script"),
        true
    );
}

#[test]
fn host_tree_mixed_resource_type() {
    let mut tree = HostNode::new();
    tree.insert(ReqType(ReqScheme::Http, ReqResource::StyleSrc), "*.google.com", "style");
    tree.insert(ReqType(ReqScheme::Http, ReqResource::ScriptSrc), "cdn.google.com", "script");
    tree.arrange();
    println!("{:?}", tree);
    assert_eq!(
        tree.check(ReqType(ReqScheme::Http, ReqResource::StyleSrc), "users.google.com", "style"),
        true
    );
    assert_eq!(
        tree.check(ReqType(ReqScheme::Http, ReqResource::ScriptSrc), "users.google.com", "style"),
        false
    );
    assert_eq!(
        tree.check(ReqType(ReqScheme::Http, ReqResource::StyleSrc), "cdn.google.com", "script"),
        false
    );
    assert_eq!(
        tree.check(ReqType(ReqScheme::Http, ReqResource::ScriptSrc), "cdn.google.com", "script"),
        true
    );
}

#[test]
fn wildcard_never_matches_apex() {
    // `*.example.com` matches `cdn.example.com` but not `example.com`.
    let mut tree = HostNode::new();
    tree.insert(ReqType(ReqScheme::Https, ReqResource::ScriptSrc), "*.example.com", "script");
    tree.arrange();
    assert_eq!(
        tree.check(ReqType(ReqScheme::Https, ReqResource::ScriptSrc), "cdn.example.com", "script"),
        true
    );
    assert_eq!(
        tree.check(
            ReqType(ReqScheme::Https, ReqResource::ScriptSrc),
            "a.b.cdn.example.com",
            "script"
        ),
        true
    );
    assert_eq!(
        tree.check(ReqType(ReqScheme::Https, ReqResource::ScriptSrc), "example.com", "script"),
        false
    );
    assert_eq!(
        tree.check(ReqType(ReqScheme::Https, ReqResource::ScriptSrc), "example.org", "script"),
        false
    );
}

#[test]
fn exact_and_wildcard_coexist() {
    // An exact entry and a wildcard entry for related hosts stay
    // independent: each matches only its own hosts.
    let mut tree = HostNode::new();
    tree.insert(ReqType(ReqScheme::Https, ReqResource::ImgSrc), "example.com", "a");
    tree.insert(ReqType(ReqScheme::Https, ReqResource::FontSrc), "*.example.com", "b");
    tree.arrange();
    assert_eq!(tree.check(ReqType(ReqScheme::Https, ReqResource::ImgSrc), "example.com", "a"), true);
    assert_eq!(
        tree.check(ReqType(ReqScheme::Https, ReqResource::FontSrc), "example.com", "b"),
        false
    );
    assert_eq!(
        tree.check(ReqType(ReqScheme::Https, ReqResource::ImgSrc), "cdn.example.com", "a"),
        false
    );
    assert_eq!(
        tree.check(ReqType(ReqScheme::Https, ReqResource::FontSrc), "cdn.example.com", "b"),
        true
    );
}

#[test]
fn root_and_empty_path_equivalent() {
    // Insert the root path; both "/" and "" are covered, for the host
    // trie exactly as for the bare path trie.
    let mut tree = HostNode::new();
    tree.insert(ReqType(ReqScheme::Http, ReqResource::ScriptSrc), "example.com", "/");
    tree.arrange();
    assert_eq!(tree.check(ReqType(ReqScheme::Http, ReqResource::ScriptSrc), "example.com", "/"), true);
    assert_eq!(tree.check(ReqType(ReqScheme::Http, ReqResource::ScriptSrc), "example.com", ""), true);
    let mut tree2 = HostNode::new();
    tree2.insert(ReqType(ReqScheme::Http, ReqResource::ScriptSrc), "example.com", "");
    tree2.arrange();
    assert_eq!(tree2.check(ReqType(ReqScheme::Http, ReqResource::ScriptSrc), "example.com", "/"), true);
    assert_eq!(tree2.check(ReqType(ReqScheme::Http, ReqResource::ScriptSrc), "example.com", ""), true);
}

#[test]
fn literal_prefix_boundary() {
    // An inserted exact path covers descendants only along the literal
    // byte prefix: "/test" covers "/test" but not "/xxx".
    let mut tree = HostNode::new();
    tree.insert(ReqType(ReqScheme::Http, ReqResource::ScriptSrc), "example.com", "/test");
    tree.arrange();
    assert_eq!(
        tree.check(ReqType(ReqScheme::Http, ReqResource::ScriptSrc), "example.com", "/test"),
        true
    );
    assert_eq!(
        tree.check(ReqType(ReqScheme::Http, ReqResource::ScriptSrc), "example.com", "/xxx"),
        false
    );
}

#[test]
fn host_insert_twice_same_result() {
    // Inserting the same (pair, host, path) tuple twice yields the same
    // check results as inserting it once.
    let mut once = HostNode::new();
    once.insert(ReqType(ReqScheme::Http, ReqResource::ScriptSrc), "*.example.com", "js");
    once.arrange();
    let mut twice = HostNode::new();
    twice.insert(ReqType(ReqScheme::Http, ReqResource::ScriptSrc), "*.example.com", "js");
    twice.insert(ReqType(ReqScheme::Http, ReqResource::ScriptSrc), "*.example.com", "js");
    twice.arrange();
    for (host, path) in [
        ("example.com", "js"),
        ("cdn.example.com", "js"),
        ("cdn.example.com", "css"),
        ("a.cdn.example.com", "js/app"),
        ("", ""),
    ] {
        assert_eq!(
            once.check(ReqType(ReqScheme::Http, ReqResource::ScriptSrc), host, path),
            twice.check(ReqType(ReqScheme::Http, ReqResource::ScriptSrc), host, path)
        );
    }
    assert_eq!(
        twice.check(ReqType(ReqScheme::Http, ReqResource::ScriptSrc), "cdn.example.com", "js"),
        true
    );
}

#[test]
fn deep_wildcard_level() {
    // A wildcard recorded below one label matches descendants there, not
    // hosts elsewhere in the tree.
    let mut tree = HostNode::new();
    tree.insert(ReqType(ReqScheme::Https, ReqResource::FrameSrc), "*.cdn.example.com", "x");
    tree.arrange();
    assert_eq!(
        tree.check(ReqType(ReqScheme::Https, ReqResource::FrameSrc), "eu.cdn.example.com", "x"),
        true
    );
    assert_eq!(
        tree.check(ReqType(ReqScheme::Https, ReqResource::FrameSrc), "cdn.example.com", "x"),
        false
    );
    assert_eq!(
        tree.check(ReqType(ReqScheme::Https, ReqResource::FrameSrc), "eu.www.example.com", "x"),
        false
    );
}
