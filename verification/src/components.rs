//! One module per group of facts.
pub mod kernel;
pub mod uptime;
pub mod memory;
pub mod mount;
pub mod os;
pub mod cpu;
pub mod network;
