//! The decisions of a process supervisor.

pub mod command;
pub mod config;
pub mod ctl;
pub mod error;
pub mod laws;
pub mod lifecycle;
pub mod log_format;
pub mod logs;
pub mod process;
mod resolver;
pub mod service;
pub mod start_order;
pub mod text;
pub mod transport;
