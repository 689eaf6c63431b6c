pub mod codegen;
pub mod codegen_helper;
pub mod codegen_utils;
pub mod determinism;
pub mod insertion;
pub mod python;
pub mod python_imports;
