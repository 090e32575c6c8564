pub mod arena;
pub mod cache_store;
pub mod server_state;
