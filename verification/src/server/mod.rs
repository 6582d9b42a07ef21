pub mod graph;
pub mod resources;
pub mod api_key;
pub mod yaml;
pub mod client;
pub mod source;
pub mod handlers;
pub mod unresolved;
pub mod parse;
pub mod config;
pub mod resolve;
pub mod typed;
pub mod composite;
pub mod assemble;
pub mod catalog;
pub mod configuration;
pub mod env;
