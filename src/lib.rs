//! An in-memory product catalog: exact lookup by code, name search by
//! substring, name prefix or word prefix, first-letter filtering, and full
//! listings sorted by name or by code.
pub mod text;
pub mod sort;
pub mod search;
pub mod store;
pub mod code_index;
pub mod name_index;
pub mod word_index;
pub mod projections;
pub mod engine;
pub mod laws;
