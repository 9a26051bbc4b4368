//! A language server for Classic ASP, and the choice of the prebuilt server
//! that the editor extension installs.

pub mod text;
pub mod grammar;
pub mod paths;
pub mod files;
pub mod parse;
pub mod position;
pub mod state;
pub mod closure;
pub mod builtins;
pub mod location;
pub mod lsp;
pub mod release;
pub mod laws;
pub mod query_laws;
