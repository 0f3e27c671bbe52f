//! Readers and models for the µcad language tooling: identifiers and
//! qualified names, the type grammar, ordered maps, and the line oriented
//! readers that turn grammar comments and markdown listings into tests.
pub mod text;
pub mod pest_test;
pub mod identifier;
pub mod lang_type;
pub mod ord_map;
pub mod symbols;
pub mod md_test;
pub mod tree;
pub mod markdown;
pub mod parse_error;
pub mod use_statement;
pub mod parameter;
pub mod call;
pub mod moduletree;
pub mod format_spec;
