//! Rule inventory for policy source text.
//!
//! A policy is a named text. Its rules are found by one pass over its lines:
//! each rule with its name, the line on which it begins, the line on which
//! its body ends, and what the comment directly above it says.

pub mod chars;
pub mod text;
pub mod head;
pub mod braces;
pub mod comment;
pub mod scan;
pub mod laws;
pub mod store;

pub use braces::find_rule_end;
pub use head::extract_rule_name;
pub use scan::{parse_rules, RuleInfo};
pub use store::{extract_all, PolicyStore};
