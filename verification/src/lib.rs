//! Verified core of a JavaScript to TypeScript migrator: the path rules that
//! pick inputs and name outputs, the decisions of a run, type inference for
//! variable declarations, and the answers of the upload endpoint.
pub mod cli;
pub mod error;
pub mod file_processor;
pub mod migrator;
pub mod paths;
pub mod processor;
pub mod server;
pub mod text;
pub mod type_map;
