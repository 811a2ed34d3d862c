//! A verified core for a small in-memory key-value server speaking a
//! Redis-derived wire protocol (RESP), bootstrapped from a binary snapshot
//! file (RDB).
//!
//! The crate holds the protocol codec ([`response`] and [`encoding`]), the
//! snapshot decoder ([`parser`]), the keyspace with expiration ([`db`]), the
//! command dispatcher ([`command`]), and the request/reply engine
//! ([`server`]). All time-dependent operations take the current wall-clock
//! time in milliseconds as an argument, so every rule about expiry is stated
//! and proved over explicit instants.

pub mod ascii;
pub mod command;
pub mod config;
pub mod db;
pub mod encoding;
pub mod parser;
pub mod response;
pub mod server;
