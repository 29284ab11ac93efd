//! Facts about the host: CPU, kernel, memory, mounts, network, operating system
//! and uptime, read from the text that the system exposes.
pub mod components;
pub mod table;
pub mod text;
