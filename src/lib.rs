//! Recording container library: a segment-backed tag/length/value encoder, its
//! record decoder, the multiplexed channel container built on it, and the RTP
//! sequence reordering buffer that feeds it.

pub mod varint;
pub mod header;
pub mod inorder;
pub mod tag_value;
pub mod seg_buf;
mod clock;
pub mod tag_buf;
pub mod decoder;
pub mod tlv_custom;
pub mod media;
pub mod rtp;
pub mod parser;
pub mod sdp;
pub mod video;
pub mod rwbuf;
pub mod mixer;
pub mod vec_buf;
