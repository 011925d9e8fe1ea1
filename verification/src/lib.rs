//! Parses tag documents (HTML/XML-like) into a tree of typed nodes and
//! answers structural pattern queries against that tree.
//!
//! The parser turns raw text into a flat sequence of tag, text, and comment
//! fragments, then folds the fragments into a nested tree by matching openers
//! to closers. The search engine compares a caller-built pattern against the
//! tree with an asymmetric "sufficient condition" relation: a pattern tag
//! matches a candidate tag when the names are equal and every pattern
//! attribute is present on the candidate (an empty pattern value acts as a
//! wildcard over the candidate's value).

pub mod dom;
pub mod parser;
mod searcher;
mod strutil;

pub use parser::parse;
pub use parser::print_dom_tree;
pub use parser::ParseError;

pub use dom::tag::satisfy_sufficient_condition;

pub use searcher::search_attr;
pub use searcher::search_dom;
pub use searcher::search_tag;
pub use searcher::search_tag_from_name;
pub use searcher::search_text_from_tag_children;
