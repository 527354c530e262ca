//! Verified decisions of a graph-query interpreter: how many results a search
//! may return, and in which order a stream of rows is delivered.

pub mod limits;
pub mod order;
pub mod order_keys;
pub mod order_run;
pub mod sort;
pub mod stable_order;
