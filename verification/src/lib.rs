pub mod crypto;
pub mod event;
pub mod peers;
pub mod graph;
pub mod fame;
pub mod order;
pub mod laws;
pub mod node;
pub mod peer;
pub mod tcp_server;
