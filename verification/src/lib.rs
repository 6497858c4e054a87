//! Core of a small TCP port scanner: enumerating a half-open port range,
//! collecting the ports whose connection attempts succeeded, and producing
//! the ascending report. All network I/O, argument parsing and rendering
//! live outside this crate; the logic here is verified.

pub mod collect;
pub mod ports;
