//! A relay between a chat platform and socket peers: the envelope wire
//! format, the registry of peers, and the decisions that the two ingress
//! sides make on frames and chat events.
pub mod codec;
pub mod envelope;
pub mod registry;
pub mod relay;
