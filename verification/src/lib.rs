pub mod bytes;
pub mod command;
pub mod event;
pub mod models;
pub mod protocol;
pub mod raft;
pub mod response;
pub mod rpc;
pub mod server_state;
pub mod status;
