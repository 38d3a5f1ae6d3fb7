//! A two-level compressed-trie lookup for Content-Security-Policy source
//! expressions.
//!
//! A policy's allowed sources are inserted as (scheme, resource-category,
//! host, path) tuples into a host trie; each host-trie node carries two path
//! tries, one for exact host matches and one for wildcard matches.  After a
//! one-time arrange call the structure answers, in time proportional to the
//! URL's structure rather than the policy's length, whether a request is
//! covered by at least one granted source expression.

pub mod bytes;
pub mod host;
pub mod laws;
pub mod path;
pub mod search;
pub mod flags;

pub use flags::{FlagSet, ReqResource, ReqScheme, ReqType};
pub use host::{HostEdge, HostNode};
pub use path::{PathEdge, PathNode};
