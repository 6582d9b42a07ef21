pub mod common;
pub mod text;
pub mod agent;
pub mod parse;
pub mod server;
