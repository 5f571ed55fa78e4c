//! A domain-name suffix matcher.
//!
//! A set of rule domains is stored in a label trie, built from the
//! most-significant label (the top-level domain) downwards.  A queried domain
//! matches when it equals an inserted rule or is a subdomain of one, and the
//! payload attached to the matching rule can be retrieved.

mod domain;
mod laws;
mod trie;

pub use domain::good_prefix_len;
pub use domain::label_norm;
pub use domain::lemma_double_dot;
pub use domain::lemma_leading_dot;
pub use domain::lemma_trailing_dot;
pub use domain::lines_from;
pub use domain::lines_of;
pub use domain::parse_domain;
pub use domain::parse_from;
pub use domain::views_of;
pub use domain::MalformedDomain;
pub use domain::DOT;
pub use domain::NEWLINE;
pub use laws::lemma_exact_match;
pub use laws::lemma_insert_commutes;
pub use laws::lemma_insert_idempotent;
pub use laws::lemma_no_suffix_no_match;
pub use laws::lemma_suffix_match;
pub use trie::descend;
pub use trie::has_proper_rule;
pub use trie::lemma_lookup_empty;
pub use trie::map_get;
pub use trie::rules_after_lines;
pub use trie::suffix_lookup;
pub use trie::Dmatcher;
