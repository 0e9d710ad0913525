//! Estimates per-VM power draw and carbon emissions on a virtualization host
//! from CPU telemetry alone: a bounded per-PID usage history fed by periodic
//! counter sampling, a polynomial power model with a static/dynamic
//! decomposition, and a power-to-emissions converter.  All model arithmetic is
//! exact rational arithmetic.

pub mod cmdline;
pub mod config;
pub mod cpu_time;
pub mod endpoint;
pub mod model;
pub mod monitor;
pub mod process_info;
pub mod rational;
pub mod text;
