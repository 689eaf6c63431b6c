pub mod patching;
pub mod workspace;
