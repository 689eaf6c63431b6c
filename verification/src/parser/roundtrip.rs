pub mod law;
pub mod layout;
pub mod pieces;
pub mod quotes;
pub mod reading;
pub mod shape;
