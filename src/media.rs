//! Codec identifiers and the media descriptions taken from a session
//! description, as plain values.
use vstd::prelude::*;
use vstd::string::StringSliceAdditionalSpecFns;

verus! {

/// Codecs the recorder knows.
#[derive(Debug, Clone, Copy, PartialEq, Eq, Structural, Hash)]
pub enum CodecId {
    H264,
    H265,
    AAC,
    /// Retransmission payload (RFC 4588).
    RtpRTX,
}

/// ASCII lower case of a byte.
pub open spec fn ascii_lower(b: u8) -> u8 {
    if 65 <= b <= 90 {
        (b + 32) as u8
    } else {
        b
    }
}

/// Equal but for ASCII letter case.
pub open spec fn eq_ignore_case_spec(a: Seq<u8>, b: Seq<u8>) -> bool {
    a.len() == b.len() && forall|i: int| 0 <= i < a.len() ==> ascii_lower(#[trigger] a[i]) == ascii_lower(b[i])
}

/// Whether `a` and `b` are equal but for ASCII letter case.
pub fn eq_ignore_ascii_case(a: &[u8], b: &[u8]) -> (r: bool)
    ensures
        r == eq_ignore_case_spec(a@, b@),
{
    if a.len() != b.len() {
        return false;
    }
    let mut i: usize = 0;
    while i < a.len()
        invariant
            a@.len() == b@.len(),
            i <= a@.len(),
            forall|j: int| 0 <= j < i ==> ascii_lower(#[trigger] a@[j]) == ascii_lower(b@[j]),
        decreases a@.len() - i,
    {
        let x = if 65 <= a[i] && a[i] <= 90 { a[i] + 32 } else { a[i] };
        let y = if 65 <= b[i] && b[i] <= 90 { b[i] + 32 } else { b[i] };
        if x != y {
            return false;
        }
        i = i + 1;
    }
    true
}

/// The codec that an encoding name of a session description stands for.
pub open spec fn codec_of_name(n: Seq<u8>) -> Option<CodecId> {
    if eq_ignore_case_spec(n, seq![72u8, 50, 54, 52]) {
        Some(CodecId::H264)
    } else if eq_ignore_case_spec(n, seq![72u8, 50, 54, 53]) {
        Some(CodecId::H265)
    } else if eq_ignore_case_spec(n, seq![65u8, 65, 67]) {
        Some(CodecId::AAC)
    } else if eq_ignore_case_spec(n, seq![77u8, 80, 69, 71, 52, 45, 71, 69, 78, 69, 82, 73, 67]) {
        Some(CodecId::AAC)
    } else if eq_ignore_case_spec(n, seq![82u8, 84, 88]) {
        Some(CodecId::RtpRTX)
    } else {
        None
    }
}

impl CodecId {
    /// `H264`, `H265`, `AAC` (or `MPEG4-GENERIC`) and `RTX`, in any letter case.
    pub fn parse_from_str(name: &str) -> (r: Option<CodecId>)
        ensures
            r == codec_of_name(name.spec_bytes()),
    {
        let n = name.as_bytes();
        let h264: [u8; 4] = [72, 50, 54, 52];
        let h265: [u8; 4] = [72, 50, 54, 53];
        let aac: [u8; 3] = [65, 65, 67];
        let mpeg4: [u8; 13] = [77, 80, 69, 71, 52, 45, 71, 69, 78, 69, 82, 73, 67];
        let rtx: [u8; 3] = [82, 84, 88];
        proof {
            assert(h264@ =~= seq![72u8, 50, 54, 52]);
            assert(h265@ =~= seq![72u8, 50, 54, 53]);
            assert(aac@ =~= seq![65u8, 65, 67]);
            assert(mpeg4@ =~= seq![77u8, 80, 69, 71, 52, 45, 71, 69, 78, 69, 82, 73, 67]);
            assert(rtx@ =~= seq![82u8, 84, 88]);
        }
        if eq_ignore_ascii_case(n, &h264) {
            Some(CodecId::H264)
        } else if eq_ignore_ascii_case(n, &h265) {
            Some(CodecId::H265)
        } else if eq_ignore_ascii_case(n, &aac) {
            Some(CodecId::AAC)
        } else if eq_ignore_ascii_case(n, &mpeg4) {
            Some(CodecId::AAC)
        } else if eq_ignore_ascii_case(n, &rtx) {
            Some(CodecId::RtpRTX)
        } else {
            None
        }
    }
}

/// Kind of an SDP media section.
#[derive(Debug, Clone, Copy, PartialEq, Eq, Structural)]
pub enum MediaKind {
    Audio,
    Video,
    Other,
}

/// RTCP feedback kinds a codec announces, as bits.
#[derive(Debug, Clone, Copy, PartialEq, Eq, Structural)]
pub enum SdpRtcpfbFlags {
    GoogRemb,
    Nack,
    NackPli,
    CcmFir,
    TransportCC,
}

impl SdpRtcpfbFlags {
    /// The flag's bit.
    pub fn bit(&self) -> (r: u32)
        ensures
            r == match *self {
                SdpRtcpfbFlags::GoogRemb => 1u32,
                SdpRtcpfbFlags::Nack => 2u32,
                SdpRtcpfbFlags::NackPli => 4u32,
                SdpRtcpfbFlags::CcmFir => 8u32,
                SdpRtcpfbFlags::TransportCC => 16u32,
            },
    {
        match self {
            SdpRtcpfbFlags::GoogRemb => 1,
            SdpRtcpfbFlags::Nack => 2,
            SdpRtcpfbFlags::NackPli => 4,
            SdpRtcpfbFlags::CcmFir => 8,
            SdpRtcpfbFlags::TransportCC => 16,
        }
    }
}

/// One codec of a media section, bound to an RTP payload type.
#[derive(Debug, Clone)]
pub struct SdpCodec {
    pub payload_type: u8,
    pub codec_id: CodecId,
    pub media_type: MediaKind,
    pub clock_rate: u32,
    pub channels: Option<u32>,
    pub rtcpfb: u32,
    pub fmtps: Vec<String>,
}

/// An audio or video media section: its payload types and codecs.
#[derive(Debug)]
pub struct SdpAV {
    pub index: usize,
    pub port: u16,
    pub payload_types: Vec<u8>,
    pub codecs: Vec<SdpCodec>,
}

impl SdpAV {
    /// The first codec bound to `pt`, if any.
    pub fn codec(&self, pt: u8) -> (r: Option<usize>)
        ensures
            r matches Some(i) ==> i < self.codecs@.len() && self.codecs@[i as int].payload_type == pt
                && forall|j: int| 0 <= j < i ==> self.codecs@[j].payload_type != pt,
            r is None ==> forall|j: int| 0 <= j < self.codecs@.len() ==> self.codecs@[j].payload_type != pt,
    {
        let mut i: usize = 0;
        while i < self.codecs.len()
            invariant
                i <= self.codecs@.len(),
                forall|j: int| 0 <= j < i ==> self.codecs@[j].payload_type != pt,
            decreases self.codecs@.len() - i,
        {
            if self.codecs[i].payload_type == pt {
                return Some(i);
            }
            i = i + 1;
        }
        None
    }
}

/// A media section of a session description.
#[derive(Debug)]
pub enum SdpMedia {
    Video(SdpAV),
    Audio(SdpAV),
    Unknown,
}

impl SdpMedia {
    pub fn is_audio_or_video(&self) -> (r: bool)
        ensures
            r == !(self is Unknown),
    {
        match self {
            SdpMedia::Video(_) => true,
            SdpMedia::Audio(_) => true,
            SdpMedia::Unknown => false,
        }
    }

    /// Whether this section has a codec bound to `pt`.
    pub fn has_codec(&self, pt: u8) -> (r: bool)
        ensures
            r == crate::parser::has_codec(*self, pt),
    {
        match self {
            SdpMedia::Video(av) | SdpMedia::Audio(av) => av.codec(pt).is_some(),
            SdpMedia::Unknown => false,
        }
    }

    /// The codec of this section bound to `pt`, if any.
    pub fn codec_for(&self, pt: u8) -> (r: Option<&SdpCodec>)
        ensures
            r matches Some(c) ==> c.payload_type == pt && first_codec(*self, pt) == Some(*c),
            r is None ==> first_codec(*self, pt) is None,
            crate::parser::has_codec(*self, pt) ==> r is Some,
            r is None ==> match self {
                SdpMedia::Video(av) => forall|j: int| 0 <= j < av.codecs@.len() ==> av.codecs@[j].payload_type != pt,
                SdpMedia::Audio(av) => forall|j: int| 0 <= j < av.codecs@.len() ==> av.codecs@[j].payload_type != pt,
                SdpMedia::Unknown => true,
            },
    {
        match self {
            SdpMedia::Video(av) | SdpMedia::Audio(av) => match av.codec(pt) {
                Some(i) => {
                    proof {
                        lemma_first_codec_at(av.codecs@, pt, i as int);
                    }
                    Some(&av.codecs[i])
                },
                None => {
                    proof {
                        lemma_first_codec_none(av.codecs@, pt);
                    }
                    None
                },
            },
            SdpMedia::Unknown => None,
        }
    }
}

/// The first codec of `cs` bound to `pt`.
pub open spec fn first_codec_in(cs: Seq<SdpCodec>, pt: u8) -> Option<SdpCodec>
    decreases cs.len(),
{
    if cs.len() == 0 {
        None
    } else if cs[0].payload_type == pt {
        Some(cs[0])
    } else {
        first_codec_in(cs.drop_first(), pt)
    }
}

/// The first codec of a media section bound to `pt`.
pub open spec fn first_codec(m: SdpMedia, pt: u8) -> Option<SdpCodec> {
    match m {
        SdpMedia::Video(av) => first_codec_in(av.codecs@, pt),
        SdpMedia::Audio(av) => first_codec_in(av.codecs@, pt),
        SdpMedia::Unknown => None,
    }
}

proof fn lemma_first_codec_at(cs: Seq<SdpCodec>, pt: u8, i: int)
    requires
        0 <= i < cs.len(),
        cs[i].payload_type == pt,
        forall|j: int| 0 <= j < i ==> cs[j].payload_type != pt,
    ensures
        first_codec_in(cs, pt) == Some(cs[i]),
    decreases i,
{
    if i > 0 {
        lemma_first_codec_at(cs.drop_first(), pt, i - 1);
    }
}

proof fn lemma_first_codec_none(cs: Seq<SdpCodec>, pt: u8)
    requires
        forall|j: int| 0 <= j < cs.len() ==> cs[j].payload_type != pt,
    ensures
        first_codec_in(cs, pt) is None,
    decreases cs.len(),
{
    if cs.len() > 0 {
        lemma_first_codec_none(cs.drop_first(), pt);
    }
}

/// The media sections of a session description, in order.
pub struct SdpMain {
    pub medias: Vec<SdpMedia>,
}

} // verus!
