pub mod assembler;
pub mod descent;
pub mod equality;
pub mod grammar;
pub mod lexer;
pub mod parse_location;
pub mod parser_constructs;
pub mod parser_utils;
pub mod roundtrip;
pub mod ruulang_ast;
pub mod schema_ast;
pub mod serialize;
