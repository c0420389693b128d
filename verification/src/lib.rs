//! Java Blocking Monitor: the rules by which off-CPU intervals reported by the
//! kernel are selected, decoded, and correlated with JVM stack samples.

pub mod arrival;
pub mod balance;
pub mod clock;
pub mod common;
pub mod correlate;
pub mod counter;
pub mod events;
pub mod ingest;
pub mod lines;
pub mod monitor;
pub mod namespace;
pub mod order;
pub mod probe;
pub mod profiler;
pub mod provider;
pub mod reader;
pub mod report;
pub mod sampling;
pub mod startup;
pub mod stream;
pub mod symbols;
pub mod teardown;
pub mod text;
pub mod threads;
