//! Entropy: erasure-coded storage over a set of peers.

pub mod app;
pub mod app2;
pub mod benchmark_plaza;
pub mod chunk;
pub mod chunk_table;
pub mod common;
pub mod entropy_download;
pub mod entropy_upload;
pub mod fountain;
pub mod hash;
pub mod hosts;
pub mod kademlia;
pub mod peer;
pub mod plaza;
pub mod repair;
pub mod session;
pub mod sorted_map;
pub mod tracing_demo;
pub mod wirehair;
