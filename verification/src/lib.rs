//! Allychain scheduling and registration logic of the Axia relay chain,
//! together with the small pieces of relay and client logic that decide
//! rather than talk to the network.

pub mod primitives;
pub mod scheduler;
pub mod claims;
pub mod paras_registrar;
pub mod weights;
pub mod consensus;
pub mod relay;
