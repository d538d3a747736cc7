pub mod client;
pub mod codec;
pub mod collection;
pub mod constants;
pub mod embedding;
pub mod error;
pub mod index;
pub mod laws;
pub mod persistence_adapter;
pub mod search;
pub mod state;
