//! A partitioned property-graph engine: schema language, query language,
//! in-memory indexes, planning and execution, with every rule stated in
//! contracts and proved.
#![allow(unused_imports)]

pub mod maps;
pub mod messages;
pub mod sorting;
pub mod text;
pub mod values;
pub mod schema;
pub mod cluster;
pub mod coordinator;
pub mod environment;
pub mod dsl;
pub mod storage;
pub mod index;
pub mod layout;
pub mod query;
pub mod wire;
pub mod partition_node;
pub mod viewer;
