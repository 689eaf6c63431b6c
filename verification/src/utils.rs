pub mod error;
pub mod order;
pub mod paths;
pub mod text;
pub mod trie;
pub mod with_origin;
