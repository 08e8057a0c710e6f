//! A BitTorrent client library.
//!
//! The library does no input or output of its own. It says what to send to a tracker or
//! to a peer, takes what comes back as bytes and values, and says what to do next.
//!
//! - [`bencode`]: the encoding of metainfo files and extension messages.
//! - [`torrent`]: metainfo files and magnet links.
//! - [`peers`]: what a tracker is asked, and what it answers.
//! - [`peer`]: the handshake with a peer, the messages that follow it, and the download
//!   of a piece or of a whole file.
//! - [`buffer`], [`digest`] and [`text`]: bytes, hashes and characters.

pub mod bencode;
pub mod buffer;
pub mod digest;
pub mod peer;
pub mod peers;
pub mod text;
pub mod torrent;
