//! Verified building blocks of the GritQL pattern engine: effect interval
//! bookkeeping, insertion padding, suppression comments, variable scopes and
//! the small data types of the SDK.

pub mod errors;
pub mod file_owners;
pub mod intervals;
pub mod node_builder;
pub mod patterns;
pub mod rules;
pub mod sdk;
pub mod smart_insert;
pub mod split_snippet;
pub mod suppress;
pub mod syntax_json;
pub mod test_utils;
pub mod text;
pub mod variables;
