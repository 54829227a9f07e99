//! The logic of a gossiping broadcast node: the store of known numbers,
//! the cluster topology and the choice of gossip targets, and the node's
//! reaction to each incoming message.

pub mod numbers;
pub mod topology;
pub mod messages;
pub mod node;
