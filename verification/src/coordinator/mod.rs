//! The coordinator: its settings, and how it answers queries.
pub mod answering;
pub mod config;
pub mod ordering;
pub mod projection;
pub mod service;
pub mod serving;
pub mod grpc_partition_rpc;
