pub mod order;
pub mod server;
pub mod utils;
