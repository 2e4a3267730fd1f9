//! Data and decisions of the patcher program that applies updates.

pub mod cache;
pub mod config;
pub mod ui;
