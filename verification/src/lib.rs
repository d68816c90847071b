//! Channel-name cleaning, grouping, ordering and playlist rendering for an
//! IPTV source aggregator.
pub mod channel;
pub mod cli;
pub mod config;
pub mod naming;
pub mod ordering;
pub mod output;
pub mod stamp;
pub mod text;
