//! Verified core of the ozd block store.
//!
//! Every module below is pure logic over plain values: record formats, index
//! bookkeeping, placement and repair decisions, text parsing.  Disk, network
//! and threads belong to the application around this crate.
pub mod admin;
pub mod bench;
pub mod body;
pub mod bytes;
pub mod cache;
pub mod car;
pub mod collect;
pub mod config;
pub mod digest;
pub mod diskslow;
pub mod domain;
pub mod ec_pool;
pub mod engine;
pub mod erasure;
pub mod heal;
pub mod health;
pub mod index;
pub mod latency;
pub mod listing;
pub mod metrics;
pub mod migrate;
pub mod piece;
pub mod placement;
pub mod pool;
pub mod ports;
pub mod probe;
pub mod ratelimit;
pub mod redundancy;
pub mod repair;
pub mod s3;
pub mod segment;
pub mod sigv4;
pub mod store;
pub mod text;
pub mod throttle;
pub mod verified;
pub mod walk;
pub mod zfs;
pub mod zfs_parser;
pub mod zfs_properties;
pub mod zfs_runner;
