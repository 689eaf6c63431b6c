pub mod codegen;
pub mod config;
pub mod lsp;
pub mod parser;
pub mod typechecker;
pub mod utils;
pub mod workspace;
