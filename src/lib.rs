//! A small Redis-protocol key-value server library: wire codec, snapshot
//! decoder, expiring keyspace, replication bookkeeping and command handling.

pub mod buffer;
pub mod command;
pub mod config;
pub mod connection;
pub mod handshake;
pub mod laws;
pub mod order;
pub mod rdb;
pub mod replication;
pub mod resp;
pub mod store;
pub mod text;
