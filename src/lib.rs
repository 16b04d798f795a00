//! Message codec and reliable-delivery assembler for a compact,
//! line-oriented game protocol carried over a packet-bounded transport.
//!
//! A packet is a header line holding a sequence number, followed by one line
//! per part. Parts are steps (client to server) or percepts (server to
//! client). The assembler packs queued parts into packets first fit in
//! order, and the tracker resends the batch in flight until the peer
//! acknowledges its sequence number.
pub mod assembler;
pub mod client;
pub mod codec;
pub mod entity;
pub mod message;
pub mod part;
pub mod percept;
pub mod screen;
pub mod step;
pub mod text;
pub mod tracker;
pub mod ui;
