//! A verified core for a BitTorrent client: the bencode codec, the torrent
//! metainfo model, the peer handshake, the message framer and the block
//! download state machine.

pub mod bencode;
pub mod download;
pub mod hash;
pub mod peer;
pub mod torrent;
