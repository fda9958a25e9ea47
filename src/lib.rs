//! Editor-intelligence core for a small keyword-driven language: a document
//! store, a dictionary of categorised keywords, a lexical scanner for
//! semantic highlighting, and the hover / completion / token queries.

pub mod text;
pub mod scanner;
pub mod knowledge;
pub mod documents;
pub mod query;
pub mod tokens;
