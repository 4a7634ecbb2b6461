//! A hypercube overlay network: `2^d` nodes, each named by a label of `d`
//! bits, where two nodes are neighbours when their labels differ in one bit.
//!
//! The library holds what such a network decides and computes, and touches
//! neither sockets nor processes. Whoever owns those hands in what was read
//! and carries out what comes back:
//!
//! - `util` and `topology` choose ports and build the topology;
//! - `protocol` and `codec` define the messages and their frames;
//! - `node` and `hypernode` are the state of a node and how it serves a
//!   request;
//! - `link` prepares a request and judges what came back;
//! - `collective` is what the coordinator asks of all nodes at once;
//! - `flood` and `broadcast` show that a flood and a broadcast end and reach
//!   every node, in whatever order their messages are delivered, and how many
//!   messages they take.

pub mod address;
pub mod bits;
pub mod broadcast;
pub mod codec;
pub mod collective;
pub mod flood;
pub mod hypernode;
pub mod identity;
pub mod link;
pub mod node;
pub mod protocol;
pub mod text;
pub mod topology;
pub mod util;
