//! Verified core of a concurrent TCP port scanner.
//!
//! `thread_count` workers share the 16-bit port space: worker `i` visits the
//! arithmetic progression `i+1, i+1+t, i+1+2t, ...` capped at 65535, so the
//! workers' port sets partition `1..=65535`. The probe itself and the channel
//! that carries results are plain I/O and live outside this crate; what is
//! verified here is the partition, the per-worker emission, the aggregation
//! of the drained results into a sorted report, and the classification of the
//! command-line arguments.

pub mod cli;
pub mod ports;
pub mod report;
pub mod request;
