//! Timer and configuration building blocks.
//!
//! The heart of the crate is a four-level hashed timing wheel with an
//! overflow list and constant-time cancellation; around it sit the data
//! tables that configuration is loaded into and the reader that produces
//! them from XML text.

pub mod app_helper;
pub mod cli_conf;
pub mod config;
pub mod config_manager;
pub mod config_table;
pub mod data_schema;
pub mod hash_wheel_timer;
pub mod lookup;
pub mod text;
pub mod xmlreader;
