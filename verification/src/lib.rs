//! Keeps a host's egress allowlist and hosts file in sync with a list of
//! hostnames.

pub mod accept;
pub mod addr;
pub mod addr_map;
pub mod answers;
pub mod apply;
pub mod asking;
pub mod basics;
pub mod batch;
pub mod cli;
pub mod config;
pub mod conntrack;
pub mod contents;
pub mod decisions;
pub mod dns;
pub mod due;
pub mod exec;
pub mod exposition;
pub mod fake;
pub mod fresh;
pub mod hosts;
pub mod iptables;
pub mod listing;
pub mod metrics;
pub mod name_set;
pub mod names;
pub mod naming;
pub mod number;
pub mod order;
pub mod pass;
pub mod plan;
pub mod policy;
pub mod repeat;
pub mod resolve;
pub mod round_trip;
pub mod run;
pub mod secs;
pub mod status;
pub mod sysutil;
pub mod text;
pub mod usage;
pub mod validate;
pub mod verdict;
