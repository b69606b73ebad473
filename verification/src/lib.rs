//! Core of a line-oriented, multi-user chat service.
//!
//! The library verifies the server's decision logic: the broker that owns
//! the routing table and per-peer mailboxes, the per-connection
//! authentication state machine gating admission, the credential store it
//! consults, and the parsing and formatting of the wire protocol. The
//! surrounding program supplies sockets, tasks and files and feeds plain
//! values through these functions.

pub mod auth;
pub mod broker;
pub mod client;
pub mod creds;
pub mod protocol;
pub mod text;
