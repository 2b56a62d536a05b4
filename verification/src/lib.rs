//! A verified CSV anonymizer core: per-column rewrite rules are validated,
//! then a record stream is rewritten so that targeted cells are replaced by
//! synthetic values while repeated raw values keep one substitute.

pub mod cache;
pub mod codec;
pub mod engine;
pub mod errors;
pub mod parse;
pub mod rules;

pub use errors::AnonError;
pub use parse::parse_spec;
pub use cache::SubstitutionCache;
pub use engine::{anonymise, rewrite_records, RewriteInfo, ValueGenerator};
pub use rules::{sorted_by_column, validated, Category, RewriteRule};
