//! A client for a cluster of caching nodes that stand in front of an object store.
//!
//! A chunk of an object lies with one node of the cluster: `hash` says with which, `clients` what
//! to ask of it, and `object_store` how a read is put together from the answers. `endpoint` and
//! `cluster` are how nodes and clusters are written and told of; `provider` and `dynamic` say where
//! the cluster is found and which store stands behind it. `laws` states what all of these do, call
//! by call.

pub mod clients;
pub mod cluster;
pub mod cluster_id;
pub mod dynamic;
pub mod endpoint;
pub mod error;
pub mod hash;
pub mod laws;
pub mod modular;
pub mod object_store;
pub mod options;
pub mod ordered;
pub mod provider;
pub mod siphash;
pub mod slots;
pub mod status;
pub mod text;
pub mod timestamp;
