//! A durable, single-node key/value store with a log-structured storage
//! engine and a framed binary wire protocol.
//!
//! The storage engine keeps an append-only segmented log (one numbered
//! "generation" per segment), an in-memory index from each live key to the
//! location of its most recent record, and an online compaction pass that
//! rewrites the live set into a fresh generation.  All of the engine's
//! decisions are made here, over an in-memory image of the log directory;
//! the embedding application mirrors that image to disk by applying the
//! [`kv::Action`] values the engine hands back, and feeds the image back in
//! on startup.

pub mod codec;
pub mod command_builder;
pub mod engine;
pub mod error;
pub mod flavor;
pub mod index;
pub mod kv;
pub mod log;
pub mod protocol;
pub mod sealed_trait;
pub mod server;
