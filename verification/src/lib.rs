//! Verified core of a DNS benchmark: configuration, the list of domains to
//! query, the plan of servers per group, the distribution of domains over
//! servers, the per-server query schedule, and the CSV report.
pub mod config;
pub mod ordered_map;
mod randomness;
pub mod schedule;
pub mod dns_server;
pub mod benchmark;
pub mod printf;
pub mod domains;
pub mod csv_out;
pub mod clock;
pub mod results;
