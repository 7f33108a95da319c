//! Hierarchical browsing and transfer planning over a flat, key-based object store.

pub mod text;
pub mod strmap;
pub mod order;
pub mod error;
pub mod listing;
pub mod buckets;
pub mod namer;
pub mod transfer;
pub mod download;
pub mod archive;
pub mod profile;
pub mod config;
pub mod files;
