//! RTP and RTCP packets as the container sees them.
use vstd::prelude::*;

verus! {

/// Whether a packet is RTCP: its second byte's low seven bits, the RTP
/// payload-type position, fall in `[64, 95)`.
pub open spec fn is_rtcp_spec(data: Seq<u8>) -> bool {
    data.len() >= 2 && 64 <= (data[1] % 128) < 95
}

pub fn check_is_rtcp(data: &[u8]) -> (r: bool)
    ensures
        r == is_rtcp_spec(data@),
{
    if data.len() < 2 {
        return false;
    }
    let pt = data[1] % 128;
    64 <= pt && pt < 95
}

/// The payload type that `rtp_rs` reads from an RTP packet, or `None` where
/// it does not accept the packet.
pub uninterp spec fn rtp_reader_payload_type(data: Seq<u8>) -> Option<u8>;

/// Whether the fixed header alone decides that `rtp_rs` accepts the packet:
/// at least twelve bytes, version 2, no padding, no extension, and room for
/// the CSRC list.
pub open spec fn plain_rtp_header(data: Seq<u8>) -> bool {
    &&& data.len() >= 12
    &&& data[0] / 64 == 2
    &&& (data[0] / 32) % 2 == 0
    &&& (data[0] / 16) % 2 == 0
    &&& 12 + 4 * (data[0] % 16) <= data.len()
}

/// Relies on `rtp_rs::RtpReader::new` and `RtpReader::payload_type`
/// (rtp-rs 0.6, reader.rs): `new` depends on the bytes alone; it refuses
/// fewer than twelve bytes and versions other than 2; it accepts a packet
/// without padding or extension whose CSRC list fits; `payload_type` is the
/// low seven bits of the second byte.
#[verifier::external_body]
pub(crate) fn rtp_payload_type(data: &[u8]) -> (r: Option<u8>)
    ensures
        r == rtp_reader_payload_type(data@),
        r matches Some(pt) ==> data@.len() >= 12 && data@[0] / 64 == 2 && pt == data@[1] % 128,
        data@.len() < 12 ==> r is None,
        data@.len() >= 1 && data@[0] / 64 != 2 ==> r is None,
        plain_rtp_header(data@) ==> r == Some((data@[1] % 128) as u8),
{
    match rtp_rs::RtpReader::new(data) {
        Ok(reader) => Some(reader.payload_type()),
        Err(_) => None,
    }
}

/// How a packet is classified: RTCP first, then RTP when `rtp_rs` reads it.
pub open spec fn classify_spec(data: Seq<u8>) -> PacketKind {
    if is_rtcp_spec(data) {
        PacketKind::Rtcp
    } else {
        match rtp_reader_payload_type(data) {
            Some(pt) => PacketKind::Rtp(pt),
            None => PacketKind::Invalid,
        }
    }
}

/// What a channel packet is.
#[derive(Debug, Clone, Copy, PartialEq, Eq, Structural)]
pub enum PacketKind {
    Rtcp,
    /// RTP, with its payload type.
    Rtp(u8),
    /// Neither RTCP nor a readable RTP packet.
    Invalid,
}

/// RTCP by its second byte (see `check_is_rtcp`); otherwise RTP with its
/// payload type when the packet reads as RTP.
pub fn classify_packet(data: &[u8]) -> (r: PacketKind)
    ensures
        r == classify_spec(data@),
        is_rtcp_spec(data@) <==> r == PacketKind::Rtcp,
        r matches PacketKind::Rtp(pt) ==> data@.len() >= 12 && data@[0] / 64 == 2 && pt == data@[1] % 128,
        !is_rtcp_spec(data@) && (data@.len() < 12 || data@[0] / 64 != 2) ==> r == PacketKind::Invalid,
        !is_rtcp_spec(data@) && plain_rtp_header(data@) ==> r == PacketKind::Rtp((data@[1] % 128) as u8),
{
    if check_is_rtcp(data) {
        return PacketKind::Rtcp;
    }
    match rtp_payload_type(data) {
        Some(pt) => PacketKind::Rtp(pt),
        None => PacketKind::Invalid,
    }
}

} // verus!
