//! Input-activity metrics: a cross-monitor pointer-distance engine and the
//! sampling / flushing pipeline that aggregates keyboard and mouse counters.

pub mod monitor;
pub mod distance;
pub mod metrics;
pub mod sampler;
pub mod supabase;
pub mod flush;
pub mod config;
pub mod device;
pub mod macos;
pub mod menubar;
