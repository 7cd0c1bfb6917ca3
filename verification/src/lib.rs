//! Canonicalization of HTTP request paths.
//!
//! The library merges repeated separators, resolves `.` and `..` segments
//! (clamping at the root), and decides whether the canonical path carries a
//! trailing separator: a non-root path ends in a separator unless its final
//! segment has a file extension and the raw request did not end in one.
//! A caller compares the canonical path to the raw one and, when they differ,
//! issues a permanent redirect whose target keeps the original query string.

pub mod canonical;
pub mod clean;
pub mod ext;
pub mod laws;
pub mod model;

pub use canonical::CanonicalizationResult;
pub use canonical::CleanPath;
pub use canonical::canonicalize;
pub use canonical::is_canonical_fast;
pub use canonical::redirect_target;
pub use clean::clean;
pub use ext::has_ext;
