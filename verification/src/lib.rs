//! A supervisor for long-running services ("units"): each unit is a
//! directory holding a `run` executable, which is started, restarted when it
//! dies, and stopped on request through a line-based control protocol.
//!
//! The library holds the supervisor's decisions and bookkeeping; the program
//! around it performs the system calls and hands the outcomes back.

pub mod outside;
pub mod sys;
pub mod util;
pub mod paths;
pub mod text;
pub mod poll;
pub mod signal;
pub mod unit_manager;
pub mod control_session;
pub mod cli;
pub mod exit;
