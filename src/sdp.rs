//! Media sections of a session description, built from the lines that the
//! session parser hands over as plain values.
use vstd::prelude::*;
use vstd::string::StringSliceAdditionalSpecFns;
use crate::media::{CodecId, MediaKind, SdpAV, SdpCodec, SdpMedia, SdpMain, codec_of_name};
use crate::decoder::bytes_eq;

verus! {

/// An attribute line of a media section.
pub enum RawAttr {
    /// `a=rtpmap:<pt> <name>/<clock rate>[/<params>]`
    Rtpmap { payload_type: u32, encoding_name: String, clock_rate: i32, encoding_params: Option<i32> },
    /// Any other attribute, by name and value.
    Other { name: String, value: Option<String> },
}

/// A media section: its `m=` line and attribute lines.
pub struct RawMedia {
    pub media: MediaKind,
    pub port: u16,
    pub fmt: String,
    pub attributes: Vec<RawAttr>,
}

/// A media section that could not be read.
#[derive(Debug, Clone, Copy, PartialEq, Eq, Structural)]
pub enum SdpError {
    /// A payload type in the `m=` line that is not a number below 256.
    InvalidMediaLine,
    /// An `fmtp` attribute whose payload type is not a number below 256.
    InvalidFmtp,
}

pub open spec fn is_digit(b: u8) -> bool {
    48 <= b <= 57
}

pub open spec fn is_ws(b: u8) -> bool {
    b == 32 || b == 9 || b == 10 || b == 12 || b == 13
}

/// The number written in decimal digits in `s`.
pub open spec fn dec_value(s: Seq<u8>) -> nat
    decreases s.len(),
{
    if s.len() == 0 {
        0
    } else {
        dec_value(s.drop_last()) * 10 + (s.last() - 48) as nat
    }
}

/// A payload type written in decimal: one or more digits, below 256.
pub open spec fn u8_dec_spec(s: Seq<u8>) -> Option<u8> {
    if s.len() > 0 && (forall|i: int| 0 <= i < s.len() ==> is_digit(#[trigger] s[i])) && dec_value(s) < 256 {
        Some(dec_value(s) as u8)
    } else {
        None
    }
}

/// Reads a payload type written in decimal.
pub fn parse_u8_dec(s: &[u8]) -> (r: Option<u8>)
    ensures
        r == u8_dec_spec(s@),
{
    if s.len() == 0 {
        return None;
    }
    let mut v: u32 = 0;
    let mut i: usize = 0;
    proof {
        assert(s@.take(0) =~= Seq::<u8>::empty());
    }
    while i < s.len()
        invariant
            i <= s@.len(),
            forall|j: int| 0 <= j < i ==> is_digit(#[trigger] s@[j]),
            v == dec_value(s@.take(i as int)),
            v < 256,
        decreases s@.len() - i,
    {
        let b = s[i];
        if b < 48 || b > 57 {
            proof {
                assert(!is_digit(s@[i as int]));
            }
            return None;
        }
        proof {
            assert(s@.take(i + 1).drop_last() =~= s@.take(i as int));
        }
        v = v * 10 + (b - 48) as u32;
        i = i + 1;
        if v >= 256 {
            proof {
                if forall|j: int| 0 <= j < s@.len() ==> is_digit(#[trigger] s@[j]) {
                    lemma_dec_mono(s@, i as int);
                }
            }
            return None;
        }
    }
    proof {
        assert(s@.take(i as int) =~= s@);
    }
    Some(v as u8)
}

proof fn lemma_dec_mono(s: Seq<u8>, k: int)
    requires
        0 <= k <= s.len(),
        forall|j: int| 0 <= j < k ==> is_digit(#[trigger] s[j]),
        forall|j: int| 0 <= j < s.len() ==> is_digit(#[trigger] s[j]),
    ensures
        dec_value(s.take(k)) <= dec_value(s),
    decreases s.len() - k,
{
    if k < s.len() {
        lemma_dec_mono(s, k + 1);
        assert(s.take(k + 1).drop_last() =~= s.take(k));
    } else {
        assert(s.take(k) =~= s);
    }
}

/// Words found so far in `s`, and the word being read at its end.
pub open spec fn split_state(s: Seq<u8>) -> (Seq<Seq<u8>>, Seq<u8>)
    decreases s.len(),
{
    if s.len() == 0 {
        (Seq::empty(), Seq::empty())
    } else {
        let (o, c) = split_state(s.drop_last());
        if is_ws(s.last()) {
            if c.len() > 0 {
                (o.push(c), Seq::empty())
            } else {
                (o, c)
            }
        } else {
            (o, c.push(s.last()))
        }
    }
}

/// The non-empty words of `s` between ASCII whitespace, in order.
pub open spec fn words_spec(s: Seq<u8>) -> Seq<Seq<u8>> {
    let (o, c) = split_state(s);
    if c.len() > 0 {
        o.push(c)
    } else {
        o
    }
}

/// Splits `s` at ASCII whitespace into its non-empty words.
pub fn split_ascii_whitespace(s: &[u8]) -> (r: Vec<Vec<u8>>)
    ensures
        crate::seg_buf::views(r@) == words_spec(s@),
{
    let mut out: Vec<Vec<u8>> = Vec::new();
    let mut cur: Vec<u8> = Vec::new();
    let mut i: usize = 0;
    proof {
        assert(s@.take(0) =~= Seq::<u8>::empty());
        assert(crate::seg_buf::views(out@) =~= Seq::<Seq<u8>>::empty());
    }
    while i < s.len()
        invariant
            i <= s@.len(),
            (crate::seg_buf::views(out@), cur@) == split_state(s@.take(i as int)),
        decreases s@.len() - i,
    {
        let b = s[i];
        proof {
            assert(s@.take(i + 1).drop_last() =~= s@.take(i as int));
            assert(s@.take(i + 1).last() == b);
        }
        if b == 32 || b == 9 || b == 10 || b == 12 || b == 13 {
            if cur.len() > 0 {
                let ghost o = crate::seg_buf::views(out@);
                let ghost c = cur@;
                out.push(cur);
                cur = Vec::new();
                proof {
                    assert(crate::seg_buf::views(out@) =~= o.push(c));
                }
            }
        } else {
            cur.push(b);
        }
        i = i + 1;
    }
    proof {
        assert(s@.take(i as int) =~= s@);
    }
    if cur.len() > 0 {
        let ghost o = crate::seg_buf::views(out@);
        let ghost c = cur@;
        out.push(cur);
        proof {
            assert(crate::seg_buf::views(out@) =~= o.push(c));
        }
    }
    out
}

/// The payload types of an `m=` line, or `None` when a word is not one.
pub open spec fn payload_types_spec(words: Seq<Seq<u8>>) -> Option<Seq<u8>>
    decreases words.len(),
{
    if words.len() == 0 {
        Some(Seq::empty())
    } else {
        match (payload_types_spec(words.drop_last()), u8_dec_spec(words.last())) {
            (Some(ps), Some(p)) => Some(ps.push(p)),
            _ => None,
        }
    }
}

/// Index of the first space in `s`, or its length.
pub open spec fn first_space(s: Seq<u8>) -> nat
    decreases s.len(),
{
    if s.len() == 0 {
        0
    } else if s[0] == 32 {
        0
    } else {
        1 + first_space(s.drop_first())
    }
}

proof fn lemma_first_space(s: Seq<u8>, k: int)
    requires
        0 <= k <= s.len(),
        forall|q: int| 0 <= q < k ==> s[q] != 32,
        k == s.len() || s[k] == 32,
    ensures
        first_space(s) == k,
    decreases k,
{
    if k > 0 {
        lemma_first_space(s.drop_first(), k - 1);
    }
}

/// Whether an attribute is fine: an `fmtp` line whose value has a space
/// must start with a payload type before it.
pub open spec fn fmtp_attr_ok(a: RawAttr) -> bool {
    match a {
        RawAttr::Other { name, value } => {
            let vb = vstd::utf8::encode_utf8(value->0@);
            (vstd::utf8::encode_utf8(name@) == seq![102u8, 109, 116, 112] && value is Some && first_space(vb) < vb.len())
                ==> u8_dec_spec(vb.take(first_space(vb) as int)) is Some
        },
        _ => true,
    }
}

/// Whether a media section can be read: its payload types, then its
/// `fmtp` lines.
pub open spec fn av_ok(m: RawMedia) -> bool {
    payload_types_spec(words_spec(vstd::utf8::encode_utf8(m.fmt@))) is Some
        && forall|i: int| 0 <= i < m.attributes@.len() ==> fmtp_attr_ok(#[trigger] m.attributes@[i])
}

/// The index of the codec bound to `pt` in `codecs`, if any.
fn find_codec(codecs: &Vec<SdpCodec>, pt: u8) -> (r: Option<usize>)
    ensures
        r matches Some(i) ==> i < codecs@.len() && codecs@[i as int].payload_type == pt,
        r is None ==> forall|j: int| 0 <= j < codecs@.len() ==> codecs@[j].payload_type != pt,
{
    let mut i: usize = 0;
    while i < codecs.len()
        invariant
            i <= codecs@.len(),
            forall|j: int| 0 <= j < i ==> codecs@[j].payload_type != pt,
        decreases codecs@.len() - i,
    {
        if codecs[i].payload_type == pt {
            return Some(i);
        }
        i = i + 1;
    }
    None
}

proof fn lemma_payload_types_none(ws: Seq<Seq<u8>>, k: int)
    requires
        0 <= k <= ws.len(),
        payload_types_spec(ws.take(k)) is None,
    ensures
        payload_types_spec(ws) is None,
    decreases ws.len() - k,
{
    if k < ws.len() {
        assert(ws.take(k + 1).drop_last() =~= ws.take(k));
        lemma_payload_types_none(ws, k + 1);
    } else {
        assert(ws.take(k) =~= ws);
    }
}

/// The codec for each payload type appears once.
pub open spec fn unique_pts(codecs: Seq<SdpCodec>) -> bool {
    forall|i: int, j: int| 0 <= i < j < codecs.len() ==> codecs[i].payload_type != codecs[j].payload_type
}

/// An audio or video section: the payload types of its `m=` line, a codec
/// for each `rtpmap` whose encoding name is known (a later line for the same
/// payload type replacing an earlier one), and the text after the payload
/// type of each `fmtp` line, added to the codec of that payload type.
pub fn parse_av(m: &RawMedia, index: usize) -> (r: Result<SdpAV, SdpError>)
    ensures
        payload_types_spec(words_spec(vstd::utf8::encode_utf8(m.fmt@))) is None ==> r == Err::<SdpAV, SdpError>(SdpError::InvalidMediaLine),
        r matches Ok(av) ==> payload_types_spec(words_spec(vstd::utf8::encode_utf8(m.fmt@))) == Some(av.payload_types@),
        r is Ok <==> av_ok(*m),
        payload_types_spec(words_spec(vstd::utf8::encode_utf8(m.fmt@))) is Some && !av_ok(*m) ==> r == Err::<SdpAV, SdpError>(SdpError::InvalidFmtp),
        r matches Ok(av) ==> av.index == index && av.port == m.port && unique_pts(av.codecs@),
        r matches Ok(av) ==> forall|i: int| 0 <= i < av.codecs@.len() ==> (#[trigger] av.codecs@[i]).media_type == m.media,
{
    let words = split_ascii_whitespace(m.fmt.as_str().as_bytes());
    let ghost ws = crate::seg_buf::views(words@);
    let mut payload_types: Vec<u8> = Vec::new();
    let mut w: usize = 0;
    proof {
        assert(ws.take(0) =~= Seq::<Seq<u8>>::empty());
    }
    while w < words.len()
        invariant
            w <= words@.len(),
            ws == crate::seg_buf::views(words@),
            ws == words_spec(vstd::utf8::encode_utf8(m.fmt@)),
            payload_types_spec(ws.take(w as int)) == Some(payload_types@),
        decreases words@.len() - w,
    {
        proof {
            assert(ws.take(w + 1).drop_last() =~= ws.take(w as int));
            assert(ws.take(w + 1).last() == words@[w as int]@);
        }
        match parse_u8_dec(words[w].as_slice()) {
            Some(v) => payload_types.push(v),
            None => {
                proof {
                    lemma_payload_types_none(ws, w as int + 1);
                }
                return Err(SdpError::InvalidMediaLine);
            },
        }
        w = w + 1;
    }
    proof {
        assert(ws.take(w as int) =~= ws);
    }
    let mut codecs: Vec<SdpCodec> = Vec::new();
    let fmtp_name: [u8; 4] = [102, 109, 116, 112];
    proof {
        assert(fmtp_name@ =~= seq![102u8, 109, 116, 112]);
    }
    let mut a: usize = 0;
    while a < m.attributes.len()
        invariant
            unique_pts(codecs@),
            payload_types_spec(ws) == Some(payload_types@),
            ws == words_spec(vstd::utf8::encode_utf8(m.fmt@)),
            a <= m.attributes@.len(),
            forall|k: int| 0 <= k < a ==> fmtp_attr_ok(#[trigger] m.attributes@[k]),
            fmtp_name@ == seq![102u8, 109, 116, 112],
            forall|i: int| 0 <= i < codecs@.len() ==> (#[trigger] codecs@[i]).media_type == m.media,
        decreases m.attributes@.len() - a,
    {
        match &m.attributes[a] {
            RawAttr::Rtpmap { payload_type, encoding_name, clock_rate, encoding_params } => {
                if let Some(codec_id) = CodecId::parse_from_str(encoding_name.as_str()) {
                    let pt = (*payload_type % 256) as u8;
                    let channels: Option<u32> = match encoding_params {
                        Some(p) => Some(if *p >= 0 { *p as u32 } else { (*p as i64 + 0x1_0000_0000) as u32 }),
                        None => None,
                    };
                    let rate: u32 = if *clock_rate >= 0 { *clock_rate as u32 } else { (*clock_rate as i64 + 0x1_0000_0000) as u32 };
                    let codec = SdpCodec {
                        payload_type: pt,
                        codec_id,
                        media_type: m.media,
                        clock_rate: rate,
                        channels,
                        rtcpfb: 0,
                        fmtps: Vec::new(),
                    };
                    match find_codec(&codecs, pt) {
                        Some(i) => {
                            codecs.set(i, codec);
                        },
                        None => {
                            codecs.push(codec);
                        },
                    }
                }
            },
            RawAttr::Other { name, value } => {
                let nb = name.as_str().as_bytes();
                let is_fmtp = bytes_eq(nb, &fmtp_name);
                proof {
                    assert(nb@ == vstd::utf8::encode_utf8(name@));
                    assert(m.attributes@[a as int] == RawAttr::Other { name: *name, value: *value });
                }
                if is_fmtp {
                    if let Some(value) = value {
                        let vb = value.as_str().as_bytes();
                        proof {
                            assert(vb@ == vstd::utf8::encode_utf8(value@));
                        }
                        let mut sp: usize = 0;
                        while sp < vb.len() && vb[sp] != 32
                            invariant
                                sp <= vb@.len(),
                                forall|q: int| 0 <= q < sp ==> vb@[q] != 32,
                            decreases vb@.len() - sp,
                        {
                            sp = sp + 1;
                        }
                        proof {
                            lemma_first_space(vb@, sp as int);
                        }
                        if sp < vb.len() {
                            let (num, rest) = vb.split_at(sp);
                            let (_, fmtp) = rest.split_at(1);
                            proof {
                                assert(num@ =~= vb@.take(sp as int));
                            }
                            let pt = match parse_u8_dec(num) {
                                Some(pt) => pt,
                                None => {
                                    proof {
                                        assert(!fmtp_attr_ok(m.attributes@[a as int]));
                                    }
                                    return Err(SdpError::InvalidFmtp);
                                },
                            };
                            if let Some(i) = find_codec(&codecs, pt) {
                                if let Some(text) = crate::tag_value::utf8_str(fmtp) {
                                    let mut c = codecs[i].clone();
                                    c.fmtps.push(text.to_owned());
                                    codecs.set(i, SdpCodec {
                                        payload_type: codecs[i].payload_type,
                                        codec_id: c.codec_id,
                                        media_type: codecs[i].media_type,
                                        clock_rate: c.clock_rate,
                                        channels: c.channels,
                                        rtcpfb: c.rtcpfb,
                                        fmtps: c.fmtps,
                                    });
                                }
                            }
                        }
                        proof {
                            assert(fmtp_attr_ok(m.attributes@[a as int]));
                        }
                    }
                }
            },
        }
        a = a + 1;
    }
    Ok(SdpAV { index, port: m.port, payload_types, codecs })
}

/// Every media section, in order: audio and video ones through `parse_av`,
/// others as `Unknown`.
pub fn parse_medias(raw: &Vec<RawMedia>) -> (r: Result<SdpMain, SdpError>)
    ensures
        r is Ok <==> forall|i: int| 0 <= i < raw@.len() && (#[trigger] raw@[i]).media != MediaKind::Other ==> av_ok(raw@[i]),
        r matches Ok(s) ==> s.medias@.len() == raw@.len(),
        r matches Ok(s) ==> forall|i: int| 0 <= i < raw@.len() ==> match #[trigger] raw@[i].media {
            MediaKind::Audio => s.medias@[i] is Audio,
            MediaKind::Video => s.medias@[i] is Video,
            MediaKind::Other => s.medias@[i] is Unknown,
        },
{
    let mut medias: Vec<SdpMedia> = Vec::new();
    let mut i: usize = 0;
    while i < raw.len()
        invariant
            i <= raw@.len(),
            medias@.len() == i,
            forall|k: int| 0 <= k < i && (#[trigger] raw@[k]).media != MediaKind::Other ==> av_ok(raw@[k]),
            forall|k: int| 0 <= k < i ==> match #[trigger] raw@[k].media {
                MediaKind::Audio => medias@[k] is Audio,
                MediaKind::Video => medias@[k] is Video,
                MediaKind::Other => medias@[k] is Unknown,
            },
        decreases raw@.len() - i,
    {
        let m = &raw[i];
        let item = match m.media {
            MediaKind::Audio => SdpMedia::Audio(parse_av(m, i)?),
            MediaKind::Video => SdpMedia::Video(parse_av(m, i)?),
            MediaKind::Other => SdpMedia::Unknown,
        };
        medias.push(item);
        i = i + 1;
    }
    Ok(SdpMain { medias })
}

} // verus!
