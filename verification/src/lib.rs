//! Verified core of a distributed key/value context store.

pub mod adapters;
pub mod aligned_buffer;
pub mod batches;
pub mod checks;
pub mod client;
pub mod config;
pub mod convert;
pub mod distributed;
pub mod error;
pub mod frames;
pub mod gds;
pub mod gds_client;
pub mod get_flow;
pub mod handlers;
pub mod hash;
pub mod inspect;
pub mod io_plan;
pub mod io_rounds;
pub mod io_route;
pub mod keeping;
pub mod key;
pub mod layout;
pub mod memory_tier;
pub mod metadata;
pub mod metrics;
pub mod order;
pub mod paths;
pub mod payload;
pub mod pb;
pub mod placement;
pub mod put_flow;
pub mod rdma_bench;
pub mod readback;
pub mod recency;
pub mod records;
pub mod region_client;
pub mod regions;
pub mod startup;
pub mod store_bench;
pub mod streaming;
pub mod streams;
pub mod stripes;
pub mod text;
pub mod texts;
pub mod tier_history;
pub mod topology;
pub mod transfers;
pub mod versions;
pub mod wire;
