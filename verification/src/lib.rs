//! Verified codecs for the BitTorrent metainfo, tracker, and peer-handshake
//! protocols: a bencode value codec with a canonical (sorted-dictionary)
//! encoder, fixed-stride binary record arrays, the metainfo model with its
//! content identifier, the tracker request/response formats, and the fixed
//! 68-byte handshake message.

pub mod bencode;
pub mod byteseq;
pub mod codec_laws;
pub mod digest;
pub mod digits;
pub mod handshake;
pub mod hashes;
pub mod torrent;
pub mod tracker;
