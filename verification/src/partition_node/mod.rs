//! A partition node: its settings, what it answers to the coordinator, and
//! how its index is kept up to date.
pub mod config;
pub mod service;
pub mod rebuild;
