//! Verified core of a Rust toolkit for writing PostgreSQL extensions: datum
//! conversions, argument selection for the function manager, the SPI result
//! cursors, the mapping of panics to ERROR reports, the C-buffer writer, the
//! `pg_config` output parser and the decisions behind the export attribute.
pub mod config;
pub mod executor;
pub mod export;
pub mod fmgr;
pub mod postgres;
pub mod rust_utils;
pub mod utils;
