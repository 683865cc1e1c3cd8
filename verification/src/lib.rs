//! Verified core of a language server for the Aiken smart-contract language.
pub mod span;
pub mod text;
pub mod ast;
pub mod semantic_tokens;
pub mod server;
pub mod workspace_symbol;
pub mod fields;
pub mod signature_help;
pub mod inlay_hints;
pub mod completion;
pub mod rename;
