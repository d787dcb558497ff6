//! The agents that travel the road network.

pub mod car;
