//! IPv4 CIDR arithmetic: addresses, prefix masks, network boundaries,
//! subnet splitting, supernet aggregation and prefix comparison.

pub mod cli;
pub mod net;
pub mod text;
