//! A Practical Byzantine Fault Tolerant (PBFT) replication core.
//!
//! The crate provides the replica state machine of the three-phase PBFT
//! agreement protocol (PRE-PREPARE, PREPARE, COMMIT): message validation,
//! log management, quorum tracking, primary sequencing, commit decision,
//! ordered execution and exactly-once client replies, together with the
//! canonical wire encoding of the protocol messages.
//!
//! Peer and client identities, addresses and operations are carried as plain
//! values (integers and byte vectors); the network substrate, client intake
//! and process bootstrap live outside the library.

pub mod behavior;
pub mod client_request_handler;
pub mod codec;
pub mod laws;
pub mod message;
pub mod protocol_config;
pub mod state;
