//! What the operations do, stated of their calls: over what they are given, what they give, and how
//! the results of several calls hang together.

pub mod clients;
pub mod cluster;
pub mod dynamic;
pub mod endpoint;
pub mod hash;
pub mod provider;
pub mod reads;
pub mod text;
