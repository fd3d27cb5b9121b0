//! A command-dispatch trie.
//!
//! Callers register hierarchical command paths, each bound to an action key,
//! then submit a token sequence to be routed to exactly one bound action.
//! Matching is either exact (ASCII case-insensitive) or fuzzy (the token must
//! be a prefix of a registered label); under fuzzy matching, a token that is a
//! prefix of two or more sibling labels is rejected as ambiguous rather than
//! silently routed to one of them.

pub mod fuzzy_cmd;

pub use fuzzy_cmd::execution_error::ExecutionError;
pub use fuzzy_cmd::node::Next;
pub use fuzzy_cmd::node::Node;
pub use fuzzy_cmd::FuzzyCmd;
