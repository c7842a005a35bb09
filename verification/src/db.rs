//! Indexed tables for query results.

pub mod composite_view;
pub mod operations;
pub mod view;
pub mod ztable;
