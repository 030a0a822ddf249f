pub mod connection;
pub mod node;
