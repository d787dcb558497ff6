//! A tick-driven traffic simulation core: a directed road network with
//! polyline geometry and signage, routes planned over its nodes by best-first
//! search, and vehicles that follow their route while anticipating speed limits.
//!
//! All quantities are integers. Lengths and coordinates are in micrometres,
//! speeds in micrometres per second, and time steps in microseconds.

pub mod agent;
pub mod road;
