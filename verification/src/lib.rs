//! Bounded fan-out reconnaissance: subdomain enumeration and port scanning
//! decided by verified state machines, with network and file access left to
//! the caller.

pub mod error;
pub mod fanout;
pub mod limiter;
pub mod orchestrator;
pub mod recon;
pub mod sink;
pub mod target;
pub mod tcp_udp;
pub mod text;
pub mod utils;
