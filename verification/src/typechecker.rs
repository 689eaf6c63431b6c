pub mod guarantees;
pub mod merging;
pub mod ordering;
pub mod tc_ast;
pub mod typechecker;
