//! Core of a leecher-side BitTorrent client: rarest-first piece selection,
//! block-level download bookkeeping, the peer-wire message codec, the
//! per-peer session state machine, and metainfo accessors.
//!
//! All I/O (sockets, the backing file, the tracker exchange) is driven by a
//! thin unverified shell; this library holds the data structures, the wire
//! formats and the decisions, each with a contract.
#![allow(unused_imports)]

pub mod bencode;
pub mod bitfield;
pub mod digest;
pub mod downloader;
pub mod error;
pub mod message;
pub mod meta_info;
pub mod peer;
pub mod piece;
pub mod signal;
pub mod tracker;
pub mod utils;
pub mod piece_control;
pub mod wire;
