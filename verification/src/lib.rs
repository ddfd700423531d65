//! Data layer of a BitTorrent client: the bencode value codec with the typed
//! metainfo schema built on it, and the peer-wire message codec with its
//! length-prefixed framing.
pub mod bencoded;
pub mod messages;
pub mod peer;
pub mod prelude;
pub mod stream;
