//! The logic of a disk usage tracker: scans and the arena that they fill, snapshots and
//! what grew between them, the log of mutations and its replay, histories, rankings and
//! searches, the requests of the daemon, and the agent that answers questions.

pub mod agent;
pub mod agent_calls;
pub mod agent_laws;
pub mod agent_service;
pub mod agent_tools;
pub mod agreement;
pub mod ancestry;
pub mod arena;
pub mod base64;
pub mod bench;
pub mod calendar;
pub mod commands;
pub mod config;
pub mod decimal;
pub mod diff_laws;
pub mod drain;
pub mod events;
pub mod explain;
pub mod facts;
pub mod growth_laws;
pub mod history;
pub mod history_laws;
pub mod identity;
pub mod log_laws;
pub mod lookup;
pub mod model;
pub mod moments;
pub mod mutation_filter;
pub mod mutations;
pub mod order;
pub mod parallel;
pub mod path_laws;
pub mod prune;
pub mod record_laws;
pub mod records;
pub mod report;
pub mod report_laws;
pub mod rpc;
pub mod same_dirs;
pub mod scan;
pub mod search;
pub mod search_laws;
pub mod serial;
pub mod serial_laws;
pub mod size_diff;
pub mod snapshot_diff;
pub mod snapshots;
pub mod store;
pub mod store_laws;
pub mod sums;
pub mod text;
pub mod top;
pub mod top_interval;
pub mod top_laws;
pub mod top_request;
pub mod tree;
pub mod tree_laws;
pub mod warm;
pub mod warm_laws;
