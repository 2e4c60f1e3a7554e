//! zoio: process resource monitoring.
//!
//! The library decides which processes are followed, records their metrics
//! over time, and lays the record out for plots and for CSV. Reading the
//! process table, the clocks and the files is the caller's part: every
//! function here works on plain values handed to it.

pub mod aggregate;
pub mod app;
pub mod behaviour;
pub mod csv_export;
pub mod csv_format;
pub mod metrics;
pub mod order;
pub mod pids;
pub mod process_filter;
pub mod process_monitor;
pub mod text;
pub mod tree;

pub use csv_export::write_csv;
pub use metrics::{MetricKind, MetricSample, ProcessHistory, ProcessIdentity};
pub use process_filter::{FilterSet, ProcessFilter};
pub use process_monitor::{MonitorConfig, ProcessMonitor, SampledProcess};
