//! Reading a container back: streams, their tracks and the codec flows found
//! in their traffic, reported to a handler in record order.
use vstd::prelude::*;
use crate::header::Type;
use crate::decoder::{TlvFileSyncReader, ReadError, next_record_spec, file_header_spec};
use vstd::string::StringSliceAdditionalSpecFns;
use crate::tag_value::{ValueRef, ValueError};
use crate::tlv_custom::{TlvType, TLV_MAGIC};
use crate::media::{SdpCodec, SdpMedia, first_codec};
use crate::rtp::{classify_packet, classify_spec, PacketKind};
use crate::varint::{varint_decode_spec, unzigzag_spec};

verus! {

/// A stream as its `AddCh` record declares it.
#[derive(Debug, Clone)]
pub struct StreamInfo {
    pub name: String,
    pub ch_id: u64,
    pub sdp: String,
}

#[derive(Debug, Clone, Copy, PartialEq, Eq, Structural, PartialOrd, Ord, Hash)]
pub struct StreamIndex {
    pub index: usize,
}

#[derive(Debug, Clone, Copy, PartialEq, Eq, Structural, PartialOrd, Ord, Hash)]
pub struct TrackIndex {
    pub stream: usize,
    pub track: usize,
}

#[derive(Debug, Clone, Copy, PartialEq, Eq, Structural, PartialOrd, Ord, Hash)]
pub struct FlowIndex {
    pub track: TrackIndex,
    pub flow: usize,
}

/// A packet record: time, channel and the datagram.
#[derive(Debug, Clone)]
pub struct ChPacket {
    pub ts: i64,
    pub ch_id: u64,
    pub data: Vec<u8>,
}

/// What the handler may change in the parse: it may ask it to stop. Each
/// call gets a context of its own, already finished once the handler has
/// asked to stop; the parse keeps the request.
pub struct ContextMut {
    finished: bool,
}

impl ContextMut {
    pub closed spec fn spec_finished(&self) -> bool {
        self.finished
    }

    pub fn new() -> (r: Self)
        ensures
            !r.spec_finished(),
    {
        ContextMut { finished: false }
    }

    /// Stops the parse once the record being handled is done.
    pub fn set_finished(&mut self)
        ensures
            final(self).spec_finished(),
    {
        self.finished = true;
    }

    pub fn is_finished(&self) -> (r: bool)
        ensures
            r == self.spec_finished(),
    {
        self.finished
    }
}

/// An error a handler reports; it ends the parse.
#[derive(Debug, Clone)]
pub struct HandlerError {
    pub message: String,
}

/// Why a container could not be parsed.
#[derive(Debug, Clone)]
pub enum ParseError {
    /// The records could not be read.
    Read(ReadError),
    /// A record's fields do not decode.
    Value(ValueError),
    /// A packet that is neither RTCP nor valid RTP.
    InvalidRtp,
    /// An `AddCh` record with no stream description for it.
    MissingStream,
    /// The description given for an `AddCh` record could not be decoded.
    BadStream,
    /// The handler failed.
    Handler(HandlerError),
}

/// A codec flow, with the state its handler keeps for it.
pub struct FlowMut<T> {
    index: FlowIndex,
    codec: SdpCodec,
    ext: T,
}

impl<T> FlowMut<T> {
    pub closed spec fn spec_index(&self) -> FlowIndex {
        self.index
    }

    pub closed spec fn spec_ext(&self) -> T {
        self.ext
    }

    pub closed spec fn spec_codec(&self) -> SdpCodec {
        self.codec
    }

    pub fn codec(&self) -> (r: &SdpCodec)
        ensures
            *r == self.spec_codec(),
    {
        &self.codec
    }

    pub fn index(&self) -> (r: &FlowIndex)
        ensures
            *r == self.spec_index(),
    {
        &self.index
    }

    pub fn ext_mut(&mut self) -> (r: &mut T)
        ensures
            *r == old(self).spec_ext(),
            final(self).spec_ext() == *final(r),
            final(self).spec_index() == old(self).spec_index(),
    {
        &mut self.ext
    }
}

/// What a parse reports, as it finds it. Each method may ask for the parse to
/// stop through the context, which takes effect once the current record is
/// handled, or fail it, which ends the parse with that error.
pub trait Handler {
    type Flow;

    fn on_add_stream(&mut self, ctx: &mut ContextMut, index: StreamIndex, ts: i64, info: &StreamInfo) -> Result<(), HandlerError>;

    fn on_add_track(&mut self, ctx: &mut ContextMut, index: TrackIndex) -> Result<(), HandlerError>;

    fn on_add_flow(&mut self, ctx: &mut ContextMut, index: FlowIndex, codec: &SdpCodec) -> Result<Self::Flow, HandlerError>;

    fn on_flow_rtp(&mut self, ctx: &mut ContextMut, flow: &mut FlowMut<Self::Flow>, packet: &ChPacket) -> Result<(), HandlerError>;

    fn on_track_rtcp(&mut self, ctx: &mut ContextMut, index: TrackIndex, packet: &ChPacket) -> Result<(), HandlerError>;
}

/// A stream's description and its media sections, decoded from the text of
/// its `AddCh` record.
pub struct StreamDesc {
    pub info: StreamInfo,
    pub medias: Vec<SdpMedia>,
}


/// A codec flow found in a track.
#[derive(Debug, Clone)]
pub struct Flow {
    pub codec: SdpCodec,
}

#[derive(Debug, Clone)]
pub struct Track {
    pub flows: Vec<Flow>,
}

#[derive(Debug, Clone)]
pub struct Stream {
    pub index: usize,
    pub info: StreamInfo,
    pub tracks: Vec<Track>,
}

/// What a parse found.
#[derive(Debug, Clone)]
pub struct FileInfo {
    pub streams: Vec<Stream>,
}

/// The track a channel id reaches in a stream whose channels start at
/// `start`: two channels per track, RTP then RTCP.
pub open spec fn track_of_channel(start: u64, ch_id: u64) -> int {
    (ch_id - start) / 2
}

/// The track a channel reaches.
pub fn track_index_of(start: u64, ch_id: u64) -> (r: usize)
    requires
        start <= ch_id,
    ensures
        r as int == track_of_channel(start, ch_id) || r == usize::MAX,
        track_of_channel(start, ch_id) < usize::MAX ==> r as int == track_of_channel(start, ch_id),
{
    let d = (ch_id - start) / 2;
    if d >= usize::MAX as u64 {
        usize::MAX
    } else {
        d as usize
    }
}

/// A time and the remaining bytes: the layout of an `AddCh` record.
pub fn decode_add_ch(payload: &[u8]) -> (r: Result<(i64, Vec<u8>), ValueError>)
    ensures
        r is Ok <==> crate::varint::varint_decode_spec(payload@, 10, u64::MAX as nat) matches Some(Some(_)),
        r is Err ==> r == Err::<(i64, Vec<u8>), ValueError>(ValueError::BadVarint),
        r matches Ok((ts, rest)) ==> crate::varint::varint_decode_spec(payload@, 10, u64::MAX as nat) matches Some(Some((v, n)))
            && ts == crate::varint::unzigzag_spec(v) && rest@ == payload@.skip(n as int),
{
    let mut v = ValueRef::new(payload);
    let ts = v.cut_var_i64()?;
    let rest = crate::varint::slice_to_vec(v.as_slice());
    Ok((ts, rest))
}

/// The `AddCh` records of `rem` up to `FILE_END`, or up to the first error
/// reading them meets, as time and text; and that error, if any.
pub open spec fn add_ch_spec_list(rem: Seq<u8>) -> (Seq<(i64, Seq<u8>)>, Result<(), ParseError>)
    decreases rem.len(),
{
    match next_record_spec(rem) {
        None => (Seq::empty(), Err(ParseError::Read(ReadError::Truncated))),
        Some((t, p, rest)) => if rest.len() >= rem.len() {
            (Seq::empty(), Err(ParseError::Read(ReadError::Truncated)))
        } else if t == Type::FILE_END_VALUE {
            (Seq::empty(), Ok(()))
        } else if t == 20 {
            match varint_decode_spec(p, 10, u64::MAX as nat) {
                Some(Some((z, n))) => {
                    let (l, e) = add_ch_spec_list(rest);
                    (seq![(unzigzag_spec(z) as i64, p.skip(n as int))] + l, e)
                },
                _ => (Seq::empty(), Err(ParseError::Value(ValueError::BadVarint))),
            }
        } else {
            add_ch_spec_list(rest)
        },
    }
}

pub open spec fn add_ch_view(v: Seq<(i64, Vec<u8>)>) -> Seq<(i64, Seq<u8>)> {
    v.map_values(|x: (i64, Vec<u8>)| (x.0, x.1@))
}

/// The `AddCh` records of a container before `FILE_END`, decoded into their
/// time and text, in file order, up to the first error reading them meets;
/// and that error. A caller decodes each text into the `StreamDesc` for
/// `parse_tlv_data`; a parse that stops before the error never meets it.
pub fn add_ch_records(data: Vec<u8>) -> (r: (Vec<(i64, Vec<u8>)>, Result<(), ParseError>))
    ensures
        file_header_spec(data@, Some(TLV_MAGIC.spec_bytes())) matches Err(e) ==> (r.1 matches Err(ParseError::Read(x)) && x == e && r.0@.len() == 0),
        file_header_spec(data@, Some(TLV_MAGIC.spec_bytes())) is Ok ==> (add_ch_view(r.0@), r.1) == add_ch_spec_list(data@),
{
    let ghost d = data@;
    let mut out: Vec<(i64, Vec<u8>)> = Vec::new();
    proof {
        assert(add_ch_view(out@) =~= Seq::<(i64, Seq<u8>)>::empty());
    }
    let mut reader = match TlvFileSyncReader::open_with_magic(data, Some(TLV_MAGIC)) {
        Ok(rd) => rd,
        Err(e) => {
            return (out, Err(ParseError::Read(e)));
        },
    };
    proof {
        assert(file_header_spec(d, Some(TLV_MAGIC.spec_bytes())) is Ok);
        assert(reader.remaining() =~= d);
        assert(add_ch_view(out@) + add_ch_spec_list(d).0 =~= add_ch_spec_list(d).0);
    }
    loop
        invariant
            reader.wf(),
            d == data@,
            file_header_spec(d, Some(TLV_MAGIC.spec_bytes())) is Ok,
            add_ch_spec_list(d).0 == add_ch_view(out@) + add_ch_spec_list(reader.remaining()).0,
            add_ch_spec_list(d).1 == add_ch_spec_list(reader.remaining()).1,
        decreases reader.remaining().len(),
    {
        let ghost before = reader.remaining();
        proof {
            lemma_next_record_shrinks(before);
        }
        let (t, payload) = match reader.read_next() {
            Ok(x) => x,
            Err(e) => {
                proof {
                    assert(add_ch_view(out@) + Seq::<(i64, Seq<u8>)>::empty() =~= add_ch_view(out@));
                }
                return (out, Err(ParseError::Read(e)));
            },
        };
        let ghost rest = reader.remaining();
        if t.value() == Type::FILE_END_VALUE {
            proof {
                assert(add_ch_view(out@) + Seq::<(i64, Seq<u8>)>::empty() =~= add_ch_view(out@));
            }
            return (out, Ok(()));
        }
        if t.value() == TlvType::AddCh.value() {
            match decode_add_ch(payload.as_slice()) {
                Ok(x) => {
                    let ghost o = add_ch_view(out@);
                    out.push(x);
                    proof {
                        assert(add_ch_view(out@) =~= o.push((x.0, x.1@)));
                        assert(add_ch_spec_list(d).0 =~= add_ch_view(out@) + add_ch_spec_list(rest).0);
                    }
                },
                Err(e) => {
                    proof {
                        assert(add_ch_spec_list(before) == (Seq::<(i64, Seq<u8>)>::empty(), Err::<(), ParseError>(ParseError::Value(ValueError::BadVarint))));
                        assert(add_ch_view(out@) + Seq::<(i64, Seq<u8>)>::empty() =~= add_ch_view(out@));
                    }
                    return (out, Err(ParseError::Value(e)));
                },
            }
        }
    }
}

/// The record after the next one is shorter to read.
pub proof fn lemma_next_record_shrinks(s: Seq<u8>)
    ensures
        next_record_spec(s) matches Some((t, p, rest)) ==> rest.len() < s.len(),
    decreases s.len(),
{
    match crate::header::parse_record_spec(s) {
        None => {},
        Some((t, p, rest)) => {
            if t == Type::ATTACH_END_VALUE && rest.len() < s.len() {
                lemma_next_record_shrinks(rest);
            }
        },
    }
}

/// A call the parse makes on its handler.
#[derive(Debug, Clone, Copy, PartialEq, Eq, Structural)]
pub enum Call {
    /// `on_add_stream`, with the time of the `AddCh` record.
    AddStream(StreamIndex, i64),
    AddTrack(TrackIndex),
    /// `on_add_flow`, for the payload type that made the flow.
    AddFlow(FlowIndex, u8),
    /// `on_flow_rtp`, with the packet's time and channel.
    FlowRtp(FlowIndex, i64, u64),
    /// `on_track_rtcp`, with the packet's time and channel.
    TrackRtcp(TrackIndex, i64, u64),
}

/// A track as the parse sees it: its media section and the payload types of
/// its flows, in the order they were made.
pub type TrackView = (SdpMedia, Seq<u8>);

/// A stream: its first channel id and its tracks.
pub type StreamView = (u64, Seq<TrackView>);

/// The parse state: the streams, and each registered channel with its
/// stream and that stream's first channel id.
pub type ParseView = (Seq<StreamView>, Seq<(u64, nat, u64)>);

/// A stream description as given to the parse.
pub type DescView = Option<(StreamInfo, Seq<SdpMedia>)>;

pub open spec fn desc_view(d: Option<StreamDesc>) -> DescView {
    match d {
        Some(x) => Some((x.info, x.medias@)),
        None => None,
    }
}

pub open spec fn descs_view(ds: Seq<Option<StreamDesc>>) -> Seq<DescView> {
    ds.map_values(|d: Option<StreamDesc>| desc_view(d))
}

/// The channels of a stream with first channel `ch` and `n` tracks: RTP
/// `ch + 2t`, then RTCP `ch + 2t + 1`, for each track that fits in 64 bits.
pub open spec fn chan_list(ch: u64, s: nat, n: nat) -> Seq<(u64, nat, u64)>
    decreases n,
{
    if n == 0 {
        Seq::empty()
    } else {
        let t = (n - 1) as nat;
        chan_list(ch, s, t) + if ch as int + 2 * t + 1 <= u64::MAX {
            seq![((ch + 2 * t) as u64, s, ch), ((ch + 2 * t + 1) as u64, s, ch)]
        } else {
            Seq::empty()
        }
    }
}

/// The stream and first channel last registered for channel `c`.
pub open spec fn chan_lookup(chs: Seq<(u64, nat, u64)>, c: u64) -> Option<(nat, u64)>
    decreases chs.len(),
{
    if chs.len() == 0 {
        None
    } else if chs.last().0 == c {
        Some((chs.last().1, chs.last().2))
    } else {
        chan_lookup(chs.drop_last(), c)
    }
}

/// The position of the flow for payload type `pt`, searching from the last.
pub open spec fn find_pt(pts: Seq<u8>, pt: u8) -> Option<nat>
    decreases pts.len(),
{
    if pts.len() == 0 {
        None
    } else if pts.last() == pt {
        Some((pts.len() - 1) as nat)
    } else {
        find_pt(pts.drop_last(), pt)
    }
}

/// Whether a media section has a codec for payload type `pt`.
pub open spec fn has_codec(m: SdpMedia, pt: u8) -> bool {
    match m {
        SdpMedia::Video(av) => exists|j: int| 0 <= j < av.codecs@.len() && av.codecs@[j].payload_type == pt,
        SdpMedia::Audio(av) => exists|j: int| 0 <= j < av.codecs@.len() && av.codecs@[j].payload_type == pt,
        SdpMedia::Unknown => false,
    }
}

/// An `AddCh` record: the stream takes the next description; one call for
/// the stream, then one per track.
pub open spec fn add_ch_spec(v: ParseView, p: Seq<u8>, descs: Seq<DescView>) -> Result<(Seq<Call>, ParseView), ParseError> {
    match varint_decode_spec(p, 10, u64::MAX as nat) {
        Some(Some((z, n))) => {
            let s = v.0.len();
            if s >= descs.len() {
                Err(ParseError::MissingStream)
            } else {
                match descs[s as int] {
                    None => Err(ParseError::BadStream),
                    Some((info, medias)) => Ok((
                        seq![Call::AddStream(StreamIndex { index: s as usize }, unzigzag_spec(z) as i64)]
                            + Seq::new(medias.len(), |t: int| Call::AddTrack(TrackIndex { stream: s as usize, track: t as usize })),
                        (
                            v.0.push((info.ch_id, medias.map_values(|m: SdpMedia| (m, Seq::<u8>::empty())))),
                            v.1 + chan_list(info.ch_id, s, medias.len()),
                        ),
                    )),
                }
            }
        },
        _ => Err(ParseError::Value(ValueError::BadVarint)),
    }
}

/// Where a packet of channel `c` goes: nowhere for a channel no stream has,
/// or past its stream's tracks; else to track `(c - start) / 2`: RTCP to the
/// track, RTP to the flow of its payload type, made first when the media
/// section has a codec for it, and dropped otherwise.
pub open spec fn route_spec(v: ParseView, ts: i64, c: u64, data: Seq<u8>) -> Result<(Seq<Call>, ParseView), ParseError> {
    match chan_lookup(v.1, c) {
        None => Ok((Seq::empty(), v)),
        Some((s, start)) => if s >= v.0.len() || c < start || (c - start) / 2 >= v.0[s as int].1.len() {
            Ok((Seq::empty(), v))
        } else {
            let ti = ((c - start) / 2) as int;
            let tracks = v.0[s as int].1;
            let tix = TrackIndex { stream: s as usize, track: ti as usize };
            match classify_spec(data) {
                PacketKind::Rtcp => Ok((seq![Call::TrackRtcp(tix, ts, c)], v)),
                PacketKind::Invalid => Err(ParseError::InvalidRtp),
                PacketKind::Rtp(pt) => match find_pt(tracks[ti].1, pt) {
                    Some(f) => Ok((seq![Call::FlowRtp(FlowIndex { track: tix, flow: f as usize }, ts, c)], v)),
                    None => if has_codec(tracks[ti].0, pt) {
                        let fi = FlowIndex { track: tix, flow: tracks[ti].1.len() as usize };
                        Ok((
                            seq![Call::AddFlow(fi, pt), Call::FlowRtp(fi, ts, c)],
                            (v.0.update(s as int, (v.0[s as int].0, tracks.update(ti, (tracks[ti].0, tracks[ti].1.push(pt))))), v.1),
                        ))
                    } else {
                        Ok((Seq::empty(), v))
                    },
                },
            }
        },
    }
}

/// A `ChData` record: time, channel id, then the packet.
pub open spec fn ch_data_spec(v: ParseView, p: Seq<u8>) -> Result<(Seq<Call>, ParseView), ParseError> {
    match varint_decode_spec(p, 10, u64::MAX as nat) {
        Some(Some((z, n))) => {
            let r1 = p.skip(n as int);
            match varint_decode_spec(r1, 10, u64::MAX as nat) {
                Some(Some((c, n2))) => route_spec(v, unzigzag_spec(z) as i64, c as u64, r1.skip(n2 as int)),
                _ => Err(ParseError::Value(ValueError::BadVarint)),
            }
        },
        _ => Err(ParseError::Value(ValueError::BadVarint)),
    }
}

/// The calls one container record leads to, and the state after it.
pub open spec fn step_spec(v: ParseView, t: u8, p: Seq<u8>, descs: Seq<DescView>) -> Result<(Seq<Call>, ParseView), ParseError> {
    if t == 20 {
        add_ch_spec(v, p, descs)
    } else if t == 22 {
        ch_data_spec(v, p)
    } else {
        Ok((Seq::empty(), v))
    }
}

/// What a handler call is given, call by call.
pub enum Handed {
    /// `on_add_stream`: index, time and the stream's description.
    Stream(StreamIndex, i64, StreamInfo),
    Track(TrackIndex),
    /// `on_add_flow`: index and the SDP codec.
    Flow(FlowIndex, SdpCodec),
    /// `on_flow_rtp`: flow, and the packet's time, channel and bytes.
    Rtp(FlowIndex, i64, u64, Seq<u8>),
    /// `on_track_rtcp`: track, and the packet's time, channel and bytes.
    Rtcp(TrackIndex, i64, u64, Seq<u8>),
}

/// The bytes of a `ChData` record's packet: what follows its time and
/// channel id.
pub open spec fn ch_data_bytes(p: Seq<u8>) -> Seq<u8> {
    match varint_decode_spec(p, 10, u64::MAX as nat) {
        Some(Some((z, n))) => {
            let r1 = p.skip(n as int);
            match varint_decode_spec(r1, 10, u64::MAX as nat) {
                Some(Some((c, n2))) => r1.skip(n2 as int),
                _ => Seq::empty(),
            }
        },
        _ => Seq::empty(),
    }
}

/// The packet bytes a record hands over, if it is a `ChData` record.
pub open spec fn record_bytes(t: u8, p: Seq<u8>) -> Seq<u8> {
    if t == 22 {
        ch_data_bytes(p)
    } else {
        Seq::empty()
    }
}

/// What the call `c` is given: the stream description for a stream, the
/// first codec of the track's media section for the payload type for a
/// flow, and the record's packet bytes for a packet.
pub open spec fn handed_of(descs: Seq<DescView>, c: Call, data: Seq<u8>) -> Handed {
    match c {
        Call::AddStream(si, ts) => Handed::Stream(si, ts, (descs[si.index as int]->0).0),
        Call::AddTrack(ti) => Handed::Track(ti),
        Call::AddFlow(fi, pt) => Handed::Flow(
            fi,
            first_codec((descs[fi.track.stream as int]->0).1[fi.track.track as int], pt)->0,
        ),
        Call::FlowRtp(fi, ts, ch) => Handed::Rtp(fi, ts, ch, data),
        Call::TrackRtcp(ti, ts, ch) => Handed::Rtcp(ti, ts, ch, data),
    }
}

/// What the calls of one record are given.
pub open spec fn handed_chunk(descs: Seq<DescView>, ch: (Seq<Call>, Seq<u8>)) -> Seq<Handed> {
    Seq::new(ch.0.len(), |i: int| handed_of(descs, ch.0[i], ch.1))
}

/// What the calls of several records are given, one after another.
pub open spec fn flat_handed(descs: Seq<DescView>, cs: Seq<(Seq<Call>, Seq<u8>)>) -> Seq<Handed>
    decreases cs.len(),
{
    if cs.len() == 0 {
        Seq::empty()
    } else {
        flat_handed(descs, cs.drop_last()) + handed_chunk(descs, cs.last())
    }
}

/// Number of streams handed over.
pub open spec fn count_streams(log: Seq<Handed>) -> nat
    decreases log.len(),
{
    if log.len() == 0 {
        0
    } else {
        count_streams(log.drop_last()) + if log.last() is Stream { 1nat } else { 0nat }
    }
}

/// Every packet call carries time `ts` and channel `ch`.
pub open spec fn calls_carry(cs: Seq<Call>, ts: i64, ch: u64) -> bool {
    forall|i: int| 0 <= i < cs.len() ==> match #[trigger] cs[i] {
        Call::FlowRtp(_, a, b) => a == ts && b == ch,
        Call::TrackRtcp(_, a, b) => a == ts && b == ch,
        _ => true,
    }
}

/// The calls of each container record of `rem` read in turn, up to
/// `FILE_END`, with the record's packet bytes, when every handler call
/// succeeds; and how the parse ends.
pub open spec fn trace_spec(v: ParseView, rem: Seq<u8>, descs: Seq<DescView>) -> (Seq<(Seq<Call>, Seq<u8>)>, Result<(), ParseError>)
    decreases rem.len(),
{
    match next_record_spec(rem) {
        None => (Seq::empty(), Err(ParseError::Read(ReadError::Truncated))),
        Some((t, p, rest)) => if rest.len() >= rem.len() {
            (Seq::empty(), Err(ParseError::Read(ReadError::Truncated)))
        } else if t == Type::FILE_END_VALUE {
            (Seq::empty(), Ok(()))
        } else if t < Type::CUSTOM_VALUE {
            trace_spec(v, rest, descs)
        } else {
            match step_spec(v, t, p, descs) {
                Err(e) => (Seq::empty(), Err(e)),
                Ok((calls, v2)) => {
                    let (cs, end) = trace_spec(v2, rest, descs);
                    (seq![(calls, record_bytes(t, p))] + cs, end)
                },
            }
        },
    }
}

pub open spec fn bounded(v: ParseView) -> bool {
    &&& v.0.len() <= usize::MAX
    &&& forall|s: int| 0 <= s < v.0.len() ==> (#[trigger] v.0[s]).1.len() <= usize::MAX
    &&& forall|s: int, t: int| 0 <= s < v.0.len() && 0 <= t < v.0[s].1.len() ==> (#[trigger] v.0[s].1[t]).1.len() <= usize::MAX
}

pub open spec fn empty_view() -> ParseView {
    (Seq::empty(), Seq::empty())
}

struct RTrack<F> {
    media: SdpMedia,
    pts: Vec<u8>,
    flows: Vec<FlowMut<F>>,
}

struct RStream<F> {
    info: StreamInfo,
    ch_id: u64,
    tracks: Vec<RTrack<F>>,
}

/// The parse state, with the flows' handler state.
struct Router<F> {
    streams: Vec<RStream<F>>,
    channels: Vec<(u64, usize, u64)>,
    pending: Vec<Option<StreamDesc>>,
}

spec fn track_view<F>(t: RTrack<F>) -> TrackView {
    (t.media, t.pts@)
}

spec fn stream_view<F>(s: RStream<F>) -> StreamView {
    (s.ch_id, s.tracks@.map_values(|t: RTrack<F>| track_view(t)))
}

impl<F> Router<F> {
    spec fn view(&self) -> ParseView {
        (
            self.streams@.map_values(|s: RStream<F>| stream_view(s)),
            self.channels@.map_values(|c: (u64, usize, u64)| (c.0, c.1 as nat, c.2)),
        )
    }

    spec fn wf(&self, descs: Seq<DescView>) -> bool {
        &&& forall|i: int| 0 <= i < self.channels@.len() ==> (#[trigger] self.channels@[i]).1 < self.streams@.len()
            && self.channels@[i].2 <= self.channels@[i].0
        &&& forall|s: int, t: int| 0 <= s < self.streams@.len() && 0 <= t < self.streams@[s].tracks@.len()
            ==> (#[trigger] self.streams@[s].tracks@[t]).pts@.len() == self.streams@[s].tracks@[t].flows@.len()
        &&& self.pending@.len() == descs.len()
        &&& self.streams@.len() <= descs.len()
        &&& bounded(self.view())
        &&& forall|i: int| 0 <= i < self.streams@.len() ==> (#[trigger] descs[i]) is Some
            && self.streams@[i].tracks@.len() == (descs[i]->0).1.len()
        &&& forall|i: int| self.streams@.len() <= i < descs.len() ==> desc_view(#[trigger] self.pending@[i]) == descs[i]
        &&& forall|i: int| 0 <= i < self.streams@.len() ==> (#[trigger] self.streams@[i]).info == (descs[i]->0).0
        &&& forall|i: int, t: int| 0 <= i < self.streams@.len() && 0 <= t < self.streams@[i].tracks@.len()
            ==> (#[trigger] self.streams@[i].tracks@[t]).media == (descs[i]->0).1[t]
    }
}


/// Whether the handler call `c` can be made in state `v`.
pub open spec fn call_ok(v: ParseView, c: Call) -> bool {
    match c {
        Call::AddStream(si, _) => si.index < v.0.len(),
        Call::AddTrack(_) => true,
        Call::AddFlow(fi, pt) => {
            let s = fi.track.stream as int;
            let t = fi.track.track as int;
            &&& s < v.0.len()
            &&& t < v.0[s].1.len()
            &&& fi.flow == v.0[s].1[t].1.len()
            &&& has_codec(v.0[s].1[t].0, pt)
        },
        Call::FlowRtp(fi, _, _) => {
            let s = fi.track.stream as int;
            let t = fi.track.track as int;
            &&& s < v.0.len()
            &&& t < v.0[s].1.len()
            &&& fi.flow < v.0[s].1[t].1.len()
        },
        Call::TrackRtcp(_, _, _) => true,
    }
}

/// The state after the call `c`: a new flow is recorded with its payload type.
pub open spec fn call_effect(v: ParseView, c: Call) -> ParseView {
    match c {
        Call::AddFlow(fi, pt) => {
            let s = fi.track.stream as int;
            let t = fi.track.track as int;
            (v.0.update(s, (v.0[s].0, v.0[s].1.update(t, (v.0[s].1[t].0, v.0[s].1[t].1.push(pt))))), v.1)
        },
        _ => v,
    }
}

pub open spec fn calls_ok(v: ParseView, cs: Seq<Call>) -> bool
    decreases cs.len(),
{
    cs.len() == 0 || (call_ok(v, cs[0]) && calls_ok(call_effect(v, cs[0]), cs.drop_first()))
}

pub open spec fn calls_effect(v: ParseView, cs: Seq<Call>) -> ParseView
    decreases cs.len(),
{
    if cs.len() == 0 {
        v
    } else {
        calls_effect(call_effect(v, cs[0]), cs.drop_first())
    }
}

proof fn lemma_tracks_ok(v: ParseView, s: usize, n: nat, from: nat)
    requires
        from <= n,
    ensures
        ({
            let cs = Seq::new(n, |t: int| Call::AddTrack(TrackIndex { stream: s, track: t as usize })).skip(from as int);
            calls_ok(v, cs) && calls_effect(v, cs) == v
        }),
    decreases n - from,
{
    let cs = Seq::new(n, |t: int| Call::AddTrack(TrackIndex { stream: s, track: t as usize })).skip(from as int);
    if from < n {
        lemma_tracks_ok(v, s, n, (from + 1) as nat);
        assert(cs.drop_first() =~= Seq::new(n, |t: int| Call::AddTrack(TrackIndex { stream: s, track: t as usize })).skip(from + 1 as int));
    }
}

proof fn lemma_route_calls(v: ParseView, ts: i64, c: u64, data: Seq<u8>)
    requires
        route_spec(v, ts, c, data) is Ok,
        bounded(v),
    ensures
        ({
            let (calls, v2) = route_spec(v, ts, c, data)->Ok_0;
            calls_ok(v, calls) && calls_effect(v, calls) == v2
        }),
        forall|i: int| 0 <= i < route_spec(v, ts, c, data)->Ok_0.0.len() ==> !(#[trigger] route_spec(v, ts, c, data)->Ok_0.0[i] is AddStream),
{
    match chan_lookup(v.1, c) {
        None => {},
        Some((s, start)) => {
            if s >= v.0.len() || c < start || (c - start) / 2 >= v.0[s as int].1.len() {
            } else {
                let ti = ((c - start) / 2) as int;
                let tracks = v.0[s as int].1;
                let tix = TrackIndex { stream: s as usize, track: ti as usize };
                match classify_spec(data) {
                    PacketKind::Rtcp => {
                        let cs = seq![Call::TrackRtcp(tix, ts, c)];
                        assert(route_spec(v, ts, c, data) == Ok::<(Seq<Call>, ParseView), ParseError>((cs, v)));
                        assert(cs.drop_first() =~= Seq::<Call>::empty());
                        assert(calls_ok(v, cs.drop_first()));
                        assert(calls_effect(v, cs.drop_first()) == v);
                    },
                    PacketKind::Invalid => {},
                    PacketKind::Rtp(pt) => match find_pt(tracks[ti].1, pt) {
                        Some(f) => {
                            lemma_find_pt(tracks[ti].1, pt);
                            let cs = seq![Call::FlowRtp(FlowIndex { track: tix, flow: f as usize }, ts, c)];
                            assert(route_spec(v, ts, c, data) == Ok::<(Seq<Call>, ParseView), ParseError>((cs, v)));
                            assert(cs.drop_first() =~= Seq::<Call>::empty());
                            assert(calls_ok(v, cs.drop_first()));
                            assert(calls_effect(v, cs.drop_first()) == v);
                            assert(call_ok(v, cs[0]));
                        },
                        None => if has_codec(tracks[ti].0, pt) {
                            let fi = FlowIndex { track: tix, flow: tracks[ti].1.len() as usize };
                            let cs = seq![Call::AddFlow(fi, pt), Call::FlowRtp(fi, ts, c)];
                            let v1 = call_effect(v, cs[0]);
                            assert(cs.drop_first() =~= seq![Call::FlowRtp(fi, ts, c)]);
                            assert(cs.drop_first().drop_first() =~= Seq::<Call>::empty());
                            let v2 = (v.0.update(s as int, (v.0[s as int].0, tracks.update(ti, (tracks[ti].0, tracks[ti].1.push(pt))))), v.1);
                            assert(route_spec(v, ts, c, data) == Ok::<(Seq<Call>, ParseView), ParseError>((cs, v2)));
                            assert(call_ok(v, cs[0]));
                            assert(v1 == v2);
                            assert(v1.0[s as int].1[ti].1 == tracks[ti].1.push(pt));
                            let rest = cs.drop_first();
                            assert(call_ok(v1, rest[0]));
                            assert(rest.drop_first() =~= Seq::<Call>::empty());
                            assert(calls_ok(v1, rest.drop_first()));
                            assert(calls_effect(v1, rest.drop_first()) == v1);
                            assert(calls_ok(v1, rest));
                            assert(calls_effect(v1, rest) == v1);
                        } else {
                        },
                    },
                }
            }
        },
    }
}

proof fn lemma_find_pt(pts: Seq<u8>, pt: u8)
    ensures
        find_pt(pts, pt) matches Some(f) ==> f < pts.len() && pts[f as int] == pt,
        find_pt(pts, pt) is None ==> !pts.contains(pt),
    decreases pts.len(),
{
    if pts.len() > 0 {
        lemma_find_pt(pts.drop_last(), pt);
        if find_pt(pts, pt) is None {
            assert forall|i: int| 0 <= i < pts.len() implies pts[i] != pt by {
                if i < pts.len() - 1 {
                    assert(pts.drop_last()[i] == pts[i]);
                }
            }
        }
    }
}

/// The calls of an `AddCh` record can be made in the state after it, and
/// change nothing; those of a `ChData` record lead to the state after it.
proof fn lemma_step_calls(v: ParseView, t: u8, p: Seq<u8>, descs: Seq<DescView>)
    requires
        step_spec(v, t, p, descs) is Ok,
        bounded(v),
    ensures
        ({
            let (calls, v2) = step_spec(v, t, p, descs)->Ok_0;
            &&& if t == 20 {
                calls_ok(v2, calls) && calls_effect(v2, calls) == v2
            } else {
                calls_ok(v, calls) && calls_effect(v, calls) == v2
            }
            &&& t != 22 ==> forall|ts: i64, ch: u64| calls_carry(calls, ts, ch)
            &&& t != 22 ==> count_add_streams(calls) == if t == 20 { 1nat } else { 0nat }
            &&& t == 22 ==> count_add_streams(calls) == 0
        }),
{
    if t == 20 {
        match varint_decode_spec(p, 10, u64::MAX as nat) {
            Some(Some((z, n))) => {
                let s = v.0.len();
                match descs[s as int] {
                    Some((info, medias)) => {
                        let (calls, v2) = step_spec(v, t, p, descs)->Ok_0;
                        let tr = Seq::new(medias.len(), |k: int| Call::AddTrack(TrackIndex { stream: s as usize, track: k as usize }));
                        lemma_tracks_ok(v2, s as usize, medias.len(), 0);
                        assert(calls.drop_first() =~= tr.skip(0));
                        assert(call_ok(v2, calls[0]));
                        assert forall|ts: i64, ch: u64| calls_carry(calls, ts, ch) by {
                            assert forall|i: int| 0 <= i < calls.len() implies match #[trigger] calls[i] {
                                Call::FlowRtp(_, a, b) => a == ts && b == ch,
                                Call::TrackRtcp(_, a, b) => a == ts && b == ch,
                                _ => true,
                            } by {
                                if i > 0 {
                                    assert(calls[i] == tr[i - 1]);
                                }
                            }
                        }
                        lemma_count_tracks(tr.len() as int, s as usize, medias.len());
                        assert(tr.take(tr.len() as int) =~= tr);
                        lemma_count_prepend(calls[0], tr);
                        assert(calls =~= seq![calls[0]] + tr);
                    },
                    None => {},
                }
            },
            _ => {},
        }
    } else if t == 22 {
        match varint_decode_spec(p, 10, u64::MAX as nat) {
            Some(Some((z, n))) => {
                let r1 = p.skip(n as int);
                match varint_decode_spec(r1, 10, u64::MAX as nat) {
                    Some(Some((c, n2))) => {
                        lemma_route_calls(v, unzigzag_spec(z) as i64, c as u64, r1.skip(n2 as int));
                        lemma_route_no_stream(v, unzigzag_spec(z) as i64, c as u64, r1.skip(n2 as int));
                    },
                    _ => {},
                }
            },
            _ => {},
        }
    } else {
        assert(step_spec(v, t, p, descs)->Ok_0.0.len() == 0);
        assert(count_add_streams(step_spec(v, t, p, descs)->Ok_0.0) == 0);
    }
}

/// Number of `AddStream` calls.
pub open spec fn count_add_streams(cs: Seq<Call>) -> nat
    decreases cs.len(),
{
    if cs.len() == 0 {
        0
    } else {
        count_add_streams(cs.drop_last()) + if cs.last() is AddStream { 1nat } else { 0nat }
    }
}

proof fn lemma_count_tracks(k: int, s: usize, n: nat)
    requires
        0 <= k <= n,
    ensures
        count_add_streams(Seq::new(n, |t: int| Call::AddTrack(TrackIndex { stream: s, track: t as usize })).take(k)) == 0,
    decreases k,
{
    let tr = Seq::new(n, |t: int| Call::AddTrack(TrackIndex { stream: s, track: t as usize }));
    if k > 0 {
        lemma_count_tracks(k - 1, s, n);
        assert(tr.take(k).drop_last() =~= tr.take(k - 1));
    }
}

proof fn lemma_count_prepend(c: Call, cs: Seq<Call>)
    ensures
        count_add_streams(seq![c] + cs) == count_add_streams(cs) + if c is AddStream { 1nat } else { 0nat },
    decreases cs.len(),
{
    if cs.len() == 0 {
        assert((seq![c] + cs).drop_last() =~= Seq::<Call>::empty());
        assert((seq![c] + cs).last() == c);
        assert(count_add_streams(Seq::<Call>::empty()) == 0);
    } else {
        lemma_count_prepend(c, cs.drop_last());
        assert((seq![c] + cs).drop_last() =~= seq![c] + cs.drop_last());
        assert((seq![c] + cs).last() == cs.last());
    }
}

proof fn lemma_route_no_stream(v: ParseView, ts: i64, c: u64, data: Seq<u8>)
    requires
        route_spec(v, ts, c, data) is Ok,
        forall|i: int| 0 <= i < route_spec(v, ts, c, data)->Ok_0.0.len() ==> !(#[trigger] route_spec(v, ts, c, data)->Ok_0.0[i] is AddStream),
    ensures
        count_add_streams(route_spec(v, ts, c, data)->Ok_0.0) == 0,
{
    let cs = route_spec(v, ts, c, data)->Ok_0.0;
    lemma_count_none(cs);
}

proof fn lemma_count_none(cs: Seq<Call>)
    requires
        forall|i: int| 0 <= i < cs.len() ==> !(#[trigger] cs[i] is AddStream),
    ensures
        count_add_streams(cs) == 0,
    decreases cs.len(),
{
    if cs.len() > 0 {
        assert(cs.last() == cs[cs.len() - 1]);
        lemma_count_none(cs.drop_last());
    }
}

impl<F> Router<F> {
    fn new(pending: Vec<Option<StreamDesc>>) -> (r: Self)
        ensures
            r.wf(descs_view(pending@)),
            r.view() == empty_view(),
    {
        let r = Router { streams: Vec::new(), channels: Vec::new(), pending };
        proof {
            assert(r.view().0 =~= Seq::<StreamView>::empty());
            assert(r.view().1 =~= Seq::<(u64, nat, u64)>::empty());
        }
        r
    }

    /// Takes in an `AddCh` record: registers its stream and returns the calls.
    fn plan_add_ch(&mut self, payload: &[u8], Ghost(descs): Ghost<Seq<DescView>>) -> (r: Result<Vec<Call>, ParseError>)
        requires
            old(self).wf(descs),
        ensures
            final(self).wf(descs),
            (match add_ch_spec(old(self).view(), payload@, descs) {
                Err(e) => r == Err::<Vec<Call>, ParseError>(e),
                Ok((calls, v2)) => r matches Ok(c) && c@ == calls && final(self).view() == v2,
            }),
    {
        let mut v = ValueRef::new(payload);
        let ts = match v.cut_var_i64() {
            Ok(x) => x,
            Err(e) => {
                return Err(ParseError::Value(e));
            },
        };
        let s = self.streams.len();
        if s >= self.pending.len() {
            return Err(ParseError::MissingStream);
        }
        let mut d: Option<StreamDesc> = None;
        let ghost pend0 = self.pending@;
        std::mem::swap(&mut self.pending[s], &mut d);
        proof {
            assert(d == pend0[s as int]);
            assert(desc_view(d) == descs[s as int]);
            assert(self.pending@ == pend0.update(s as int, None));
        }
        let (info, medias) = match d {
            None => {
                return Err(ParseError::BadStream);
            },
            Some(StreamDesc { info, medias }) => (info, medias),
        };
        let ch = info.ch_id;
        let ghost m0 = medias@;
        let ghost info0 = info;
        proof {
            assert(descs[s as int] == Some((info0, m0)));
        }
        let n = medias.len();
        let mut medias = medias;
        let mut tracks: Vec<RTrack<F>> = Vec::new();
        let mut calls: Vec<Call> = Vec::new();
        calls.push(Call::AddStream(StreamIndex { index: s }, ts));
        proof {
            assert(medias@ =~= m0.skip(0));
        }
        while medias.len() > 0
            invariant
                n == m0.len(),
                tracks@.len() + medias@.len() == n,
                medias@ == m0.skip(tracks@.len() as int),
                forall|j: int| 0 <= j < tracks@.len() ==> track_view(#[trigger] tracks@[j]) == (m0[j], Seq::<u8>::empty()),
                forall|k: int| 0 <= k < tracks@.len() ==> (#[trigger] tracks@[k]).pts@.len() == 0 && tracks@[k].flows@.len() == 0,
                calls@ == seq![Call::AddStream(StreamIndex { index: s }, ts)]
                    + Seq::new(tracks@.len() as nat, |t: int| Call::AddTrack(TrackIndex { stream: s, track: t as usize })),
            decreases medias@.len(),
        {
            let k = tracks.len();
            let m = medias.remove(0);
            let ghost before = tracks@;
            proof {
                assert(m == m0[k as int]);
            }
            let pts: Vec<u8> = Vec::new();
            proof {
                assert(pts@ =~= Seq::<u8>::empty());
            }
            tracks.push(RTrack { media: m, pts, flows: Vec::new() });
            calls.push(Call::AddTrack(TrackIndex { stream: s, track: k }));
            proof {
                assert(medias@ =~= m0.skip(tracks@.len() as int));
                assert forall|j: int| 0 <= j < tracks@.len() implies track_view(#[trigger] tracks@[j]) == (m0[j], Seq::<u8>::empty()) by {
                    if j < k as int {
                        assert(tracks@[j] == before[j]);
                    }
                }
                assert forall|j: int| 0 <= j < tracks@.len() implies (#[trigger] tracks@[j]).pts@.len() == 0 && tracks@[j].flows@.len() == 0 by {
                    if j < k as int {
                        assert(tracks@[j] == before[j]);
                    }
                }
                assert(calls@ =~= seq![Call::AddStream(StreamIndex { index: s }, ts)]
                    + Seq::new(tracks@.len() as nat, |t: int| Call::AddTrack(TrackIndex { stream: s, track: t as usize })));
            }
        }
        proof {
            assert(tracks@.map_values(|t: RTrack<F>| track_view(t)) =~= m0.map_values(|m: SdpMedia| (m, Seq::<u8>::empty())));
        }
        let ghost ch_before = self.view().1;
        let mut k: usize = 0;
        while k < n
            invariant
                k <= n,
                self.view().1 == ch_before + chan_list(ch, s as nat, k as nat),
                self.streams@.len() == s,
                self.streams@ == old(self).streams@,
                self.pending@ == pend0.update(s as int, None),
                forall|i: int| 0 <= i < self.channels@.len() ==> (#[trigger] self.channels@[i]).1 <= s
                    && self.channels@[i].2 <= self.channels@[i].0,
            decreases n - k,
        {
            let off: u128 = 2 * (k as u128);
            let ghost pre = self.view().1;
            if ch as u128 + off + 1 <= u64::MAX as u128 {
                let c = (ch as u128 + off) as u64;
                self.channels.push((c, s, ch));
                self.channels.push((c + 1, s, ch));
                proof {
                    assert(self.view().1 =~= pre + seq![(c, s as nat, ch), ((c + 1) as u64, s as nat, ch)]);
                }
            }
            proof {
                assert(chan_list(ch, s as nat, (k + 1) as nat) =~= chan_list(ch, s as nat, k as nat) + if ch as int + 2 * k + 1 <= u64::MAX {
                    seq![((ch + 2 * k) as u64, s as nat, ch), ((ch + 2 * k + 1) as u64, s as nat, ch)]
                } else {
                    Seq::empty()
                });
                assert(self.view().1 =~= ch_before + chan_list(ch, s as nat, (k + 1) as nat));
            }
            k = k + 1;
        }
        let ghost sv = self.view().0;
        let ghost tv = tracks@;
        let ntr = tracks.len();
        self.streams.push(RStream { info, ch_id: ch, tracks });
        let ns = self.streams.len();
        proof {
            let v = self.view();
            assert(ns == v.0.len());
            assert forall|a: int| 0 <= a < v.0.len() implies (#[trigger] v.0[a]).1.len() <= usize::MAX by {
                if a == s as int {
                    assert(v.0[a].1.len() == ntr);
                } else {
                    assert(v.0[a] == sv[a]);
                }
            }
            assert forall|a: int, b: int| 0 <= a < v.0.len() && 0 <= b < v.0[a].1.len() implies (#[trigger] v.0[a].1[b]).1.len() <= usize::MAX by {
                if a == s as int {
                    assert(v.0[a].1[b] == track_view(tv[b]));
                } else {
                    assert(v.0[a] == sv[a]);
                }
            }
        }
        proof {
            assert(self.streams@[s as int].tracks@ == tv);
            assert forall|a: int, b: int| 0 <= a < self.streams@.len() && 0 <= b < self.streams@[a].tracks@.len()
                implies (#[trigger] self.streams@[a].tracks@[b]).pts@.len() == self.streams@[a].tracks@[b].flows@.len() by {
                if a == s as int {
                    assert(self.streams@[a].tracks@[b] == tv[b]);
                    assert(tv[b].pts@.len() == 0 && tv[b].flows@.len() == 0);
                }
            }
            assert forall|i: int| 0 <= i < self.streams@.len() implies (#[trigger] descs[i]) is Some
                && self.streams@[i].tracks@.len() == (descs[i]->0).1.len() by {
                if i < s as int {
                    assert(self.streams@[i] == old(self).streams@[i]);
                }
            }
            assert forall|i: int| self.streams@.len() <= i < descs.len() implies desc_view(#[trigger] self.pending@[i]) == descs[i] by {
                assert(self.pending@[i] == pend0[i]);
            }
            assert forall|i: int| 0 <= i < self.streams@.len() implies (#[trigger] self.streams@[i]).info == (descs[i]->0).0 by {
                if i < s as int {
                    assert(self.streams@[i] == old(self).streams@[i]);
                    assert(old(self).streams@[i].info == (descs[i]->0).0);
                } else {
                    assert(self.streams@[i].info == info0);
                }
            }
            assert forall|a: int, b: int| 0 <= a < self.streams@.len() && 0 <= b < self.streams@[a].tracks@.len()
                implies (#[trigger] self.streams@[a].tracks@[b]).media == (descs[a]->0).1[b] by {
                if a == s as int {
                    assert(self.streams@[a].tracks@[b] == tv[b]);
                    assert(track_view(tv[b]) == (m0[b], Seq::<u8>::empty()));
                } else {
                    assert(self.streams@[a] == old(self).streams@[a]);
                    assert(old(self).streams@[a].tracks@[b].media == (descs[a]->0).1[b]);
                }
            }
            assert(self.view().0 =~= sv.push((ch, m0.map_values(|m: SdpMedia| (m, Seq::<u8>::empty())))));
            assert(self.view().1 == ch_before + chan_list(ch, s as nat, n as nat));
        }
        Ok(calls)
    }
}

impl<F> Router<F> {
    /// The stream and first channel last registered for channel `c`.
    fn lookup(&self, c: u64, Ghost(descs): Ghost<Seq<DescView>>) -> (r: Option<(usize, u64)>)
        requires
            self.wf(descs),
        ensures
            (match chan_lookup(self.view().1, c) {
                None => r is None,
                Some((s, st)) => r == Some((s as usize, st)) && s < self.streams@.len() && st <= c,
            }),
    {
        let mut i = self.channels.len();
        let ghost chs = self.view().1;
        proof {
            assert(chs.take(i as int) =~= chs);
        }
        while i > 0
            invariant
                i <= self.channels@.len(),
                chs == self.view().1,
                self.wf(descs),
                chan_lookup(chs, c) == chan_lookup(chs.take(i as int), c),
            decreases i,
        {
            let (ch, s, st) = self.channels[i - 1];
            proof {
                assert(chs.take(i as int).drop_last() =~= chs.take(i - 1));
                assert(chs.take(i as int).last() == chs[i - 1]);
            }
            if ch == c {
                return Some((s, st));
            }
            i = i - 1;
        }
        None
    }

    /// Where a packet of channel `c` goes, as calls.
    fn route(&self, ts: i64, c: u64, data: &[u8], Ghost(descs): Ghost<Seq<DescView>>) -> (r: Result<Vec<Call>, ParseError>)
        requires
            self.wf(descs),
        ensures
            (match route_spec(self.view(), ts, c, data@) {
                Err(e) => r == Err::<Vec<Call>, ParseError>(e),
                Ok((calls, _)) => r matches Ok(cs) && cs@ == calls,
            }),
            r matches Ok(cs) ==> calls_carry(cs@, ts, c),
    {
        let (s, start) = match self.lookup(c, Ghost(descs)) {
            None => {
                return Ok(Vec::new());
            },
            Some(x) => x,
        };
        let ti = track_index_of(start, c);
        let ntracks = self.streams[s].tracks.len();
        if ti >= ntracks {
            return Ok(Vec::new());
        }
        proof {
            assert(self.view().0[s as int].1.len() == ntracks);
            assert(ti as int == (c - start) / 2);
        }
        let tix = TrackIndex { stream: s, track: ti };
        let mut out: Vec<Call> = Vec::new();
        match classify_packet(data) {
            PacketKind::Rtcp => {
                out.push(Call::TrackRtcp(tix, ts, c));
                proof {
                    assert(out@ =~= seq![Call::TrackRtcp(tix, ts, c)]);
                }
                Ok(out)
            },
            PacketKind::Invalid => Err(ParseError::InvalidRtp),
            PacketKind::Rtp(pt) => {
                let track = &self.streams[s].tracks[ti];
                let ghost pts = track.pts@;
                proof {
                    assert(pts == self.view().0[s as int].1[ti as int].1);
                    assert(pts.take(pts.len() as int) =~= pts);
                }
                let mut j = track.pts.len();
                while j > 0
                    invariant
                        j <= pts.len(),
                        pts == track.pts@,
                        out@ == Seq::<Call>::empty(),
                        classify_spec(data@) == PacketKind::Rtp(pt),
                        tix == (TrackIndex { stream: s, track: ti }),
                        chan_lookup(self.view().1, c) == Some((s as nat, start)),
                        s < self.streams@.len(),
                        start <= c,
                        ti as int == (c - start) / 2,
                        ti < self.view().0[s as int].1.len(),
                        pts == self.view().0[s as int].1[ti as int].1,
                        find_pt(pts, pt) == find_pt(pts.take(j as int), pt),
                    decreases j,
                {
                    proof {
                        assert(pts.take(j as int).drop_last() =~= pts.take(j - 1));
                        assert(pts.take(j as int).last() == pts[j - 1]);
                    }
                    if track.pts[j - 1] == pt {
                        proof {
                            assert(find_pt(pts, pt) == Some((j - 1) as nat));
                        }
                        let fi = FlowIndex { track: tix, flow: j - 1 };
                        out.push(Call::FlowRtp(fi, ts, c));
                        proof {
                            assert(out@ =~= seq![Call::FlowRtp(fi, ts, c)]);
                            assert(classify_spec(data@) == PacketKind::Rtp(pt));
                            assert(chan_lookup(self.view().1, c) == Some((s as nat, start)));
                            assert(self.view().0.len() == self.streams@.len());
                            let tr = self.view().0[s as int].1;
                            assert(!((c - start) / 2 >= tr.len()));
                            assert(find_pt(tr[ti as int].1, pt) == Some((j - 1) as nat));
                            assert(tix == TrackIndex { stream: (s as nat) as usize, track: (((c - start) / 2) as int) as usize });
                            assert(route_spec(self.view(), ts, c, data@) == Ok::<(Seq<Call>, ParseView), ParseError>((seq![Call::FlowRtp(fi, ts, c)], self.view())));
                        }
                        return Ok(out);
                    }
                    j = j - 1;
                }
                proof {
                    assert(pts.take(0) =~= Seq::<u8>::empty());
                    assert(track.media == self.view().0[s as int].1[ti as int].0);
                }
                if track.media.has_codec(pt) {
                    let fi = FlowIndex { track: tix, flow: track.pts.len() };
                    out.push(Call::AddFlow(fi, pt));
                    out.push(Call::FlowRtp(fi, ts, c));
                    proof {
                        assert(out@ =~= seq![Call::AddFlow(fi, pt), Call::FlowRtp(fi, ts, c)]);
                    }
                }
                Ok(out)
            },
        }
    }

    /// Takes in a `ChData` record: the calls it leads to, and its packet.
    fn plan_ch_data(&self, payload: &[u8], Ghost(descs): Ghost<Seq<DescView>>) -> (r: Result<(Vec<Call>, ChPacket), ParseError>)
        requires
            self.wf(descs),
        ensures
            (match ch_data_spec(self.view(), payload@) {
                Err(e) => r == Err::<(Vec<Call>, ChPacket), ParseError>(e),
                Ok((calls, _)) => r matches Ok((cs, pk)) && cs@ == calls,
            }),
            r matches Ok((cs, pk)) ==> pk.data@ == ch_data_bytes(payload@) && calls_carry(cs@, pk.ts, pk.ch_id),
    {
        let mut v = ValueRef::new(payload);
        let ts = match v.cut_var_i64() {
            Ok(x) => x,
            Err(e) => {
                return Err(ParseError::Value(e));
            },
        };
        let ch = match v.cut_var_u64() {
            Ok(x) => x,
            Err(e) => {
                return Err(ParseError::Value(e));
            },
        };
        let data = crate::varint::slice_to_vec(v.as_slice());
        let calls = self.route(ts, ch, data.as_slice(), Ghost(descs))?;
        Ok((calls, ChPacket { ts, ch_id: ch, data }))
    }

    /// Records a new flow of payload type `pt` on track `t` of stream `s`.
    fn push_flow(&mut self, s: usize, t: usize, pt: u8, flow: FlowMut<F>, Ghost(descs): Ghost<Seq<DescView>>)
        requires
            old(self).wf(descs),
            s < old(self).streams@.len(),
            t < old(self).streams@[s as int].tracks@.len(),
        ensures
            final(self).wf(descs),
            final(self).view() == call_effect(old(self).view(), Call::AddFlow(FlowIndex { track: TrackIndex { stream: s, track: t }, flow: 0 }, pt)),
    {
        let ghost v0 = self.view();
        self.streams[s].tracks[t].pts.push(pt);
        self.streams[s].tracks[t].flows.push(flow);
        let l = self.streams[s].tracks[t].pts.len();
        proof {
            let v = self.view();
            let old_tr = old(self).streams@[s as int].tracks@;
            let new_tr = self.streams@[s as int].tracks@;
            assert(new_tr.map_values(|x: RTrack<F>| track_view(x)) =~= v0.0[s as int].1.update(t as int, (v0.0[s as int].1[t as int].0, v0.0[s as int].1[t as int].1.push(pt))));
            assert(v.0 =~= v0.0.update(s as int, (v0.0[s as int].0, v0.0[s as int].1.update(t as int, (v0.0[s as int].1[t as int].0, v0.0[s as int].1[t as int].1.push(pt))))));
            assert(v.1 =~= v0.1);
            assert forall|a: int, b: int| 0 <= a < self.streams@.len() && 0 <= b < self.streams@[a].tracks@.len()
                implies (#[trigger] self.streams@[a].tracks@[b]).pts@.len() == self.streams@[a].tracks@[b].flows@.len() by {
                if a != s as int {
                    assert(self.streams@[a] == old(self).streams@[a]);
                } else if b != t as int {
                    assert(self.streams@[a].tracks@[b] == old_tr[b]);
                }
            }
            assert forall|a: int, b: int| 0 <= a < v.0.len() && 0 <= b < v.0[a].1.len() implies (#[trigger] v.0[a].1[b]).1.len() <= usize::MAX by {
                if a == s as int && b == t as int {
                    assert(v.0[a].1[b].1.len() == l);
                } else {
                    assert(v.0[a].1[b] == v0.0[a].1[b]);
                }
            }
            assert forall|a: int| 0 <= a < v.0.len() implies (#[trigger] v.0[a]).1.len() <= usize::MAX by {
                assert(v.0[a].1.len() == v0.0[a].1.len());
            }
            assert forall|i: int| 0 <= i < self.streams@.len() implies (#[trigger] descs[i]) is Some
                && self.streams@[i].tracks@.len() == (descs[i]->0).1.len() by {
                assert(self.streams@[i].tracks@.len() == old(self).streams@[i].tracks@.len());
            }
            assert forall|i: int| 0 <= i < self.streams@.len() implies (#[trigger] self.streams@[i]).info == (descs[i]->0).0 by {
                assert(self.streams@[i].info == old(self).streams@[i].info);
                assert(old(self).streams@[i].info == (descs[i]->0).0);
            }
            assert forall|a: int, b: int| 0 <= a < self.streams@.len() && 0 <= b < self.streams@[a].tracks@.len()
                implies (#[trigger] self.streams@[a].tracks@[b]).media == (descs[a]->0).1[b] by {
                assert(b < old(self).streams@[a].tracks@.len());
                if a != s as int {
                    assert(self.streams@[a] == old(self).streams@[a]);
                } else if b != t as int {
                    assert(self.streams@[a].tracks@[b] == old(self).streams@[a].tracks@[b]);
                } else {
                    assert(self.streams@[a].tracks@[b].media == old(self).streams@[a].tracks@[b].media);
                }
                assert(old(self).streams@[a].tracks@[b].media == (descs[a]->0).1[b]);
            }
        }
    }

    /// Hands a packet to the flow at `f` of track `t` of stream `s`.
    fn call_flow_rtp<H: Handler<Flow = F>>(&mut self, handler: &mut H, ctx: &mut ContextMut, s: usize, t: usize, f: usize, packet: &ChPacket, Ghost(descs): Ghost<Seq<DescView>>) -> (r: Result<(), HandlerError>)
        requires
            old(self).wf(descs),
            s < old(self).streams@.len(),
            t < old(self).streams@[s as int].tracks@.len(),
            f < old(self).streams@[s as int].tracks@[t as int].flows@.len(),
        ensures
            final(self).wf(descs),
            final(self).view() == old(self).view(),
    {
        let ghost v0 = self.view();
        let r = handler.on_flow_rtp(ctx, &mut self.streams[s].tracks[t].flows[f], packet);
        proof {
            assert forall|i: int| 0 <= i < self.streams@.len() implies (#[trigger] descs[i]) is Some
                && self.streams@[i].tracks@.len() == (descs[i]->0).1.len() by {
                assert(self.streams@[i].tracks@.len() == old(self).streams@[i].tracks@.len());
            }
            let v = self.view();
            let old_tr = old(self).streams@[s as int].tracks@;
            assert(self.streams@[s as int].tracks@.map_values(|x: RTrack<F>| track_view(x)) =~= v0.0[s as int].1);
            assert(v.0 =~= v0.0);
            assert forall|a: int, b: int| 0 <= a < self.streams@.len() && 0 <= b < self.streams@[a].tracks@.len()
                implies (#[trigger] self.streams@[a].tracks@[b]).pts@.len() == self.streams@[a].tracks@[b].flows@.len() by {
                if a != s as int {
                    assert(self.streams@[a] == old(self).streams@[a]);
                } else if b != t as int {
                    assert(self.streams@[a].tracks@[b] == old_tr[b]);
                }
            }
            assert forall|i: int| 0 <= i < self.streams@.len() implies (#[trigger] self.streams@[i]).info == (descs[i]->0).0 by {
                assert(self.streams@[i].info == old(self).streams@[i].info);
                assert(old(self).streams@[i].info == (descs[i]->0).0);
            }
            assert forall|a: int, b: int| 0 <= a < self.streams@.len() && 0 <= b < self.streams@[a].tracks@.len()
                implies (#[trigger] self.streams@[a].tracks@[b]).media == (descs[a]->0).1[b] by {
                if a != s as int {
                    assert(self.streams@[a] == old(self).streams@[a]);
                } else {
                    assert(self.streams@[a].tracks@[b].media == old(self).streams@[a].tracks@[b].media);
                }
                assert(old(self).streams@[a].tracks@[b].media == (descs[a]->0).1[b]);
            }
        }
        r
    }
}

/// How a parse run went. `log` holds what each handler call was given, in
/// order, `errs` whether each failed, and `fins` whether the handler had
/// asked to stop once each record's calls were made.
/// - On success the calls are those of the first `k` records, no record before
///   the `k`-th left the handler asking to stop, and either every record up
///   to `FILE_END` was read or the `k`-th record left it asking to stop.
/// - When a handler call fails, it is the last call made and its error is
///   the result.
/// - Any other error is the one the records lead to, after all their calls.
pub open spec fn run_spec(
    chunks: Seq<(Seq<Call>, Seq<u8>)>,
    end: Result<(), ParseError>,
    descs: Seq<DescView>,
    log: Seq<Handed>,
    errs: Seq<Option<HandlerError>>,
    fins: Seq<bool>,
    r: Result<FileInfo, ParseError>,
) -> bool {
    &&& errs.len() == log.len()
    &&& match r {
        Ok(_) => exists|k: int| 0 <= k <= chunks.len() && log == flat_handed(descs, #[trigger] chunks.take(k))
            && fins.len() == k
            && (forall|i: int| 0 <= i < errs.len() ==> (#[trigger] errs[i]) is None)
            && (forall|i: int| 0 <= i < k - 1 ==> !(#[trigger] fins[i]))
            && ((k == chunks.len() && end is Ok) || (k > 0 && fins[k - 1])),
        Err(ParseError::Handler(e)) => exists|k: int, j: int| 0 <= k < chunks.len() && 0 <= j < chunks[k].0.len()
            && log == flat_handed(descs, #[trigger] chunks.take(k)) + #[trigger] handed_chunk(descs, chunks[k]).take(j + 1)
            && fins.len() == k
            && (forall|i: int| 0 <= i < k ==> !(#[trigger] fins[i]))
            && errs.last() == Some(e)
            && (forall|i: int| 0 <= i < errs.len() - 1 ==> (#[trigger] errs[i]) is None),
        Err(e) => log == flat_handed(descs, chunks) && end == Err::<(), ParseError>(e)
            && fins.len() == chunks.len()
            && (forall|i: int| 0 <= i < fins.len() ==> !(#[trigger] fins[i]))
            && (forall|i: int| 0 <= i < errs.len() ==> (#[trigger] errs[i]) is None),
    }
}

proof fn lemma_flat_push(descs: Seq<DescView>, cs: Seq<(Seq<Call>, Seq<u8>)>, c: (Seq<Call>, Seq<u8>))
    ensures
        flat_handed(descs, cs.push(c)) == flat_handed(descs, cs) + handed_chunk(descs, c),
{
    assert(cs.push(c).drop_last() =~= cs);
}

proof fn lemma_count_concat(a: Seq<Handed>, b: Seq<Handed>)
    ensures
        count_streams(a + b) == count_streams(a) + count_streams(b),
    decreases b.len(),
{
    if b.len() == 0 {
        assert(a + b =~= a);
    } else {
        lemma_count_concat(a, b.drop_last());
        assert((a + b).drop_last() =~= a + b.drop_last());
    }
}

proof fn lemma_count_chunk(descs: Seq<DescView>, cs: Seq<Call>, d: Seq<u8>)
    ensures
        count_streams(handed_chunk(descs, (cs, d))) == count_add_streams(cs),
    decreases cs.len(),
{
    if cs.len() > 0 {
        lemma_count_chunk(descs, cs.drop_last(), d);
        assert(handed_chunk(descs, (cs, d)).drop_last() =~= handed_chunk(descs, (cs.drop_last(), d)));
    } else {
        assert(handed_chunk(descs, (cs, d)) =~= Seq::<Handed>::empty());
    }
}

/// Makes the calls on the handler, in order, up to the first that fails.
/// Each call gets a fresh context that carries whether the handler has
/// asked to stop. Returns the first error, whether the handler has asked to
/// stop, what each call was given, and whether each failed.
fn dispatch<H: Handler>(router: &mut Router<H::Flow>, handler: &mut H, calls: &Vec<Call>, pk: &ChPacket, finished: bool,
    Ghost(dv): Ghost<Seq<DescView>>, Ghost(target): Ghost<ParseView>)
    -> (r: (Result<(), HandlerError>, bool, Ghost<Seq<Handed>>, Ghost<Seq<Option<HandlerError>>>))
    requires
        old(router).wf(dv),
        calls_ok(old(router).view(), calls@),
        calls_effect(old(router).view(), calls@) == target,
        calls_carry(calls@, pk.ts, pk.ch_id),
    ensures
        final(router).wf(dv),
        r.3@.len() == r.2@.len(),
        finished ==> r.1,
        r.0 is Ok ==> r.2@ == handed_chunk(dv, (calls@, pk.data@)) && final(router).view() == target
            && forall|i: int| 0 <= i < r.3@.len() ==> (#[trigger] r.3@[i]) is None,
        r.0 matches Err(e) ==> exists|j: int| 0 <= j < calls@.len() && r.2@ == #[trigger] handed_chunk(dv, (calls@, pk.data@)).take(j + 1)
            && r.3@.last() == Some(e) && forall|i: int| 0 <= i < r.3@.len() - 1 ==> (#[trigger] r.3@[i]) is None,
{
    let mut j: usize = 0;
    let mut fin = finished;
    let ghost data = pk.data@;
    let ghost all = handed_chunk(dv, (calls@, data));
    let ghost mut made: Seq<Handed> = Seq::empty();
    let ghost mut errs: Seq<Option<HandlerError>> = Seq::empty();
    proof {
        assert(calls@.skip(0) =~= calls@);
        assert(all.take(0) =~= Seq::<Handed>::empty());
    }
    while j < calls.len()
        invariant
            j <= calls@.len(),
            router.wf(dv),
            all == handed_chunk(dv, (calls@, data)),
            data == pk.data@,
            made == all.take(j as int),
            errs.len() == made.len(),
            forall|i: int| 0 <= i < errs.len() ==> (#[trigger] errs[i]) is None,
            calls_ok(router.view(), calls@.skip(j as int)),
            calls_effect(router.view(), calls@.skip(j as int)) == target,
            calls_carry(calls@, pk.ts, pk.ch_id),
            finished ==> fin,
        decreases calls@.len() - j,
    {
        let c = calls[j];
        proof {
            assert(calls@.skip(j as int)[0] == c);
            assert(calls@.skip(j as int).drop_first() =~= calls@.skip(j + 1));
        }
        let mut cx = ContextMut::new();
        if fin {
            cx.set_finished();
        }
        let ghost mut given: Handed = Handed::Track(TrackIndex { stream: 0, track: 0 });
        let res: Result<(), HandlerError> = match c {
            Call::AddStream(si, ts) => {
                let info = &router.streams[si.index].info;
                proof {
                    given = Handed::Stream(si, ts, *info);
                }
                handler.on_add_stream(&mut cx, si, ts, info)
            },
            Call::AddTrack(ti) => {
                proof {
                    given = Handed::Track(ti);
                }
                handler.on_add_track(&mut cx, ti)
            },
            Call::TrackRtcp(ti, _, _) => {
                proof {
                    given = Handed::Rtcp(ti, pk.ts, pk.ch_id, pk.data@);
                }
                handler.on_track_rtcp(&mut cx, ti, pk)
            },
            Call::FlowRtp(fi, _, _) => {
                proof {
                    given = Handed::Rtp(fi, pk.ts, pk.ch_id, pk.data@);
                    assert(router.view().0[fi.track.stream as int].1[fi.track.track as int].1.len()
                        == router.streams@[fi.track.stream as int].tracks@[fi.track.track as int].flows@.len());
                }
                router.call_flow_rtp(handler, &mut cx, fi.track.stream, fi.track.track, fi.flow, pk, Ghost(dv))
            },
            Call::AddFlow(fi, pt) => {
                let s = fi.track.stream;
                let tr = fi.track.track;
                proof {
                    assert(router.streams@[s as int].tracks@[tr as int].media == router.view().0[s as int].1[tr as int].0);
                }
                match router.streams[s].tracks[tr].media.codec_for(pt) {
                    Some(cd) => {
                        let codec = cd.clone();
                        proof {
                            given = Handed::Flow(fi, *cd);
                        }
                        match handler.on_add_flow(&mut cx, fi, cd) {
                            Ok(ext) => {
                                router.push_flow(s, tr, pt, FlowMut { index: fi, codec, ext }, Ghost(dv));
                                Ok(())
                            },
                            Err(e) => Err(e),
                        }
                    },
                    None => {
                        proof {
                            assert(false);
                        }
                        Ok(())
                    },
                }
            },
        };
        if cx.is_finished() {
            fin = true;
        }
        proof {
            assert(given == all[j as int]);
            made = made.push(given);
            assert(made =~= all.take(j + 1));
        }
        if let Err(e) = res {
            proof {
                errs = errs.push(Some(e));
            }
            return (Err(e), fin, Ghost(made), Ghost(errs));
        }
        proof {
            errs = errs.push(None);
        }
        j = j + 1;
    }
    proof {
        assert(all.take(j as int) =~= all);
        assert(calls@.skip(j as int) =~= Seq::<Call>::empty());
    }
    (Ok(()), fin, Ghost(made), Ghost(errs))
}

/// Reads a container held in memory and reports what it holds to `handler`.
/// Record `i` of type `AddCh` takes `streams[i]`. Returns the result, what
/// each handler call was given, whether each failed, and whether the
/// handler had asked to stop after each record; `trace_spec` gives the calls
/// each record leads to and `run_spec` how the run ends. On success the
/// result holds one stream per `AddCh` record handled, with its description
/// and one track per media section.
pub fn parse_tlv_with<H: Handler>(data: Vec<u8>, streams: Vec<Option<StreamDesc>>, handler: &mut H)
    -> (r: (Result<FileInfo, ParseError>, Ghost<Seq<Handed>>, Ghost<Seq<Option<HandlerError>>>, Ghost<Seq<bool>>))
    ensures
        file_header_spec(data@, Some(TLV_MAGIC.spec_bytes())) matches Err(e) ==> (r.0 matches Err(ParseError::Read(x)) && x == e && r.1@.len() == 0),
        file_header_spec(data@, Some(TLV_MAGIC.spec_bytes())) is Ok ==> ({
            let (chunks, end) = trace_spec(empty_view(), data@, descs_view(streams@));
            run_spec(chunks, end, descs_view(streams@), r.1@, r.2@, r.3@, r.0)
        }),
        r.0 matches Ok(info) ==> info.streams@.len() == count_streams(r.1@) && info.streams@.len() <= streams@.len()
            && forall|i: int| 0 <= i < info.streams@.len() ==> (#[trigger] descs_view(streams@)[i]) is Some
                && info.streams@[i].info == (descs_view(streams@)[i]->0).0
                && info.streams@[i].tracks@.len() == (descs_view(streams@)[i]->0).1.len(),
{
    let ghost d = data@;
    let ghost dv = descs_view(streams@);
    let mut reader = match TlvFileSyncReader::open_with_magic(data, Some(TLV_MAGIC)) {
        Ok(rd) => rd,
        Err(e) => {
            return (Err(ParseError::Read(e)), Ghost(Seq::empty()), Ghost(Seq::empty()), Ghost(Seq::empty()));
        },
    };
    proof {
        assert(file_header_spec(d, Some(TLV_MAGIC.spec_bytes())) is Ok);
    }
    let mut router: Router<H::Flow> = Router::new(streams);
    let mut finished = false;
    let ghost mut log: Seq<Handed> = Seq::empty();
    let ghost mut errs: Seq<Option<HandlerError>> = Seq::empty();
    let ghost mut fins: Seq<bool> = Seq::empty();
    let ghost mut done: Seq<(Seq<Call>, Seq<u8>)> = Seq::empty();
    let ghost full = trace_spec(empty_view(), d, dv);
    proof {
        assert(reader.remaining() =~= d);
        assert(done + full.0 =~= full.0);
        assert(flat_handed(dv, done) == Seq::<Handed>::empty());
    }
    loop
        invariant
            reader.wf(),
            router.wf(dv),
            full == trace_spec(empty_view(), d, dv),
            d == data@,
            dv == descs_view(streams@),
            file_header_spec(d, Some(TLV_MAGIC.spec_bytes())) is Ok,
            full.0 == done + trace_spec(router.view(), reader.remaining(), dv).0,
            full.1 == trace_spec(router.view(), reader.remaining(), dv).1,
            log == flat_handed(dv, done),
            errs.len() == log.len(),
            forall|i: int| 0 <= i < errs.len() ==> (#[trigger] errs[i]) is None,
            fins.len() == done.len(),
            forall|i: int| 0 <= i < fins.len() - 1 ==> !(#[trigger] fins[i]),
            fins.len() > 0 ==> fins[fins.len() - 1] == finished,
            fins.len() == 0 ==> !finished,
            router.streams@.len() == count_streams(log),
        decreases reader.remaining().len(),
    {
        if finished {
            proof {
                assert(full.0.take(done.len() as int) =~= done);
                assert(log == flat_handed(dv, full.0.take(done.len() as int)));
            }
            let info = router.into_file_info();
            return (Ok(info), Ghost(log), Ghost(errs), Ghost(fins));
        }
        proof {
            assert forall|i: int| 0 <= i < fins.len() implies !(#[trigger] fins[i]) by {}
        }
        let ghost rem = reader.remaining();
        let ghost v = router.view();
        proof {
            lemma_next_record_shrinks(rem);
        }
        let (rtype, payload) = match reader.read_next() {
            Ok(x) => x,
            Err(e) => {
                proof {
                    assert(trace_spec(v, rem, dv).0 =~= Seq::<(Seq<Call>, Seq<u8>)>::empty());
                    assert(full.0 =~= done);
                }
                return (Err(ParseError::Read(e)), Ghost(log), Ghost(errs), Ghost(fins));
            },
        };
        let t = rtype.value();
        let ghost rest = reader.remaining();
        proof {
            assert(next_record_spec(rem) == Some((t, payload@, rest)));
            assert(rest.len() < rem.len());
        }
        if t == Type::FILE_END_VALUE {
            proof {
                assert(trace_spec(v, rem, dv).0 =~= Seq::<(Seq<Call>, Seq<u8>)>::empty());
                assert(full.0 =~= done);
                assert(full.0.take(done.len() as int) =~= done);
                assert(log == flat_handed(dv, full.0.take(done.len() as int)));
            }
            let info = router.into_file_info();
            return (Ok(info), Ghost(log), Ghost(errs), Ghost(fins));
        }
        if t < Type::CUSTOM_VALUE {
            proof {
                assert(trace_spec(v, rem, dv) == trace_spec(v, rest, dv));
            }
            continue;
        }
        let planned: Result<(Vec<Call>, Option<ChPacket>), ParseError> = if t == 20 {
            match router.plan_add_ch(payload.as_slice(), Ghost(dv)) {
                Ok(c) => Ok((c, None)),
                Err(e) => Err(e),
            }
        } else if t == 22 {
            match router.plan_ch_data(payload.as_slice(), Ghost(dv)) {
                Ok((c, pk)) => Ok((c, Some(pk))),
                Err(e) => Err(e),
            }
        } else {
            Ok((Vec::new(), None))
        };
        let (calls, packet) = match planned {
            Ok(x) => x,
            Err(e) => {
                proof {
                    assert(step_spec(v, t, payload@, dv) == Err::<(Seq<Call>, ParseView), ParseError>(e));
                    assert(trace_spec(v, rem, dv).0 =~= Seq::<(Seq<Call>, Seq<u8>)>::empty());
                    assert(full.0 =~= done);
                }
                return (Err(e), Ghost(log), Ghost(errs), Ghost(fins));
            },
        };
        let ghost step = step_spec(v, t, payload@, dv)->Ok_0;
        let pk = match packet {
            Some(p) => p,
            None => ChPacket { ts: 0, ch_id: 0, data: Vec::new() },
        };
        let ghost chunk = (calls@, record_bytes(t, payload@));
        proof {
            lemma_step_calls(v, t, payload@, dv);
            assert(calls@ == step.0);
            assert(trace_spec(v, rem, dv).0 == seq![(step.0, record_bytes(t, payload@))] + trace_spec(step.1, rest, dv).0);
            assert(trace_spec(v, rem, dv).1 == trace_spec(step.1, rest, dv).1);
            if t == 20 {
                assert(router.view() == step.1);
            } else {
                assert(router.view() == v);
            }
            if t != 22 {
                assert(pk.data@ =~= Seq::<u8>::empty());
                assert(calls_carry(calls@, pk.ts, pk.ch_id));
            }
            assert(pk.data@ == chunk.1);
        }
        let (res, fin, Ghost(made), Ghost(made_errs)) = dispatch(&mut router, handler, &calls, &pk, finished, Ghost(dv), Ghost(step.1));
        proof {
            log = log + made;
            errs = errs + made_errs;
        }
        if let Err(e) = res {
            proof {
                let j = choose|j: int| 0 <= j < calls@.len() && made == #[trigger] handed_chunk(dv, (calls@, pk.data@)).take(j + 1);
                assert(full.0 =~= done + (seq![chunk] + trace_spec(step.1, rest, dv).0));
                assert(full.0.take(done.len() as int) =~= done);
                assert(full.0[done.len() as int] == chunk);
                assert(log == flat_handed(dv, full.0.take(done.len() as int)) + handed_chunk(dv, full.0[done.len() as int]).take(j + 1));
                assert(errs.last() == Some(e));
                assert forall|i: int| 0 <= i < errs.len() - 1 implies (#[trigger] errs[i]) is None by {
                    if i >= errs.len() - made_errs.len() {
                        assert(errs[i] == made_errs[i - (errs.len() - made_errs.len())]);
                    }
                }
            }
            return (Err(ParseError::Handler(e)), Ghost(log), Ghost(errs), Ghost(fins));
        }
        finished = fin;
        proof {
            lemma_flat_push(dv, done, chunk);
            lemma_count_concat(flat_handed(dv, done), made);
            lemma_count_chunk(dv, calls@, pk.data@);
            assert(full.0 =~= done.push(chunk) + trace_spec(step.1, rest, dv).0);
            done = done.push(chunk);
            fins = fins.push(finished);
            assert forall|i: int| 0 <= i < errs.len() implies (#[trigger] errs[i]) is None by {
                if i >= errs.len() - made_errs.len() {
                    assert(errs[i] == made_errs[i - (errs.len() - made_errs.len())]);
                }
            }
        }
    }
}

impl<F> Router<F> {
    fn into_file_info(self) -> (r: FileInfo)
        ensures
            r.streams@.len() == self.streams@.len(),
            forall|i: int| 0 <= i < r.streams@.len() ==> (#[trigger] r.streams@[i]).tracks@.len() == self.streams@[i].tracks@.len()
                && r.streams@[i].info == self.streams@[i].info,
    {
        let mut out: Vec<Stream> = Vec::new();
        let mut streams = self.streams;
        let ghost all = self.streams@;
        proof {
            assert(streams@ =~= all.skip(0));
        }
        while streams.len() > 0
            invariant
                out@.len() + streams@.len() == all.len(),
                streams@ == all.skip(out@.len() as int),
                forall|i: int| 0 <= i < out@.len() ==> (#[trigger] out@[i]).tracks@.len() == all[i].tracks@.len()
                    && out@[i].info == all[i].info,
            decreases streams@.len(),
        {
            let ghost k = out@.len();
            let st = streams.remove(0);
            proof {
                assert(st == all[k as int]);
                assert(streams@ =~= all.skip(k + 1 as int));
            }
            let mut tracks: Vec<Track> = Vec::new();
            let mut ts = st.tracks;
            let ghost n = ts@.len();
            while ts.len() > 0
                invariant
                    tracks@.len() + ts@.len() == n,
                decreases ts@.len(),
            {
                let tr = ts.remove(0);
                let mut flows: Vec<Flow> = Vec::new();
                let mut fs = tr.flows;
                while fs.len() > 0
                    decreases fs@.len(),
                {
                    let f = fs.remove(0);
                    flows.push(Flow { codec: f.codec });
                }
                tracks.push(Track { flows });
            }
            out.push(Stream { index: out.len(), info: st.info, tracks });
        }
        FileInfo { streams: out }
    }
}

/// Reads a container held in memory and reports what it holds to `handler`;
/// `parse_tlv_with` states the calls made and what each is given.
pub fn parse_tlv_data<H: Handler>(data: Vec<u8>, streams: Vec<Option<StreamDesc>>, handler: &mut H) -> (r: Result<FileInfo, ParseError>)
    ensures
        file_header_spec(data@, Some(TLV_MAGIC.spec_bytes())) matches Err(e) ==> (r matches Err(ParseError::Read(x)) && x == e),
        file_header_spec(data@, Some(TLV_MAGIC.spec_bytes())) is Ok ==> exists|log: Seq<Handed>, errs: Seq<Option<HandlerError>>, fins: Seq<bool>|
            #[trigger] run_spec(
                trace_spec(empty_view(), data@, descs_view(streams@)).0,
                trace_spec(empty_view(), data@, descs_view(streams@)).1,
                descs_view(streams@),
                log,
                errs,
                fins,
                r,
            ) && (r matches Ok(info) ==> info.streams@.len() == count_streams(log)),
        r matches Ok(info) ==> info.streams@.len() <= streams@.len() && forall|i: int| 0 <= i < info.streams@.len()
            ==> (#[trigger] descs_view(streams@)[i]) is Some && info.streams@[i].info == (descs_view(streams@)[i]->0).0
                && info.streams@[i].tracks@.len() == (descs_view(streams@)[i]->0).1.len(),
{
    let ghost d = data@;
    let ghost dv = descs_view(streams@);
    let (r, Ghost(log), Ghost(errs), Ghost(fins)) = parse_tlv_with(data, streams, handler);
    proof {
        let tr = trace_spec(empty_view(), d, dv);
        if file_header_spec(d, Some(TLV_MAGIC.spec_bytes())) is Ok {
            assert(run_spec(tr.0, tr.1, dv, log, errs, fins, r));
        }
    }
    r
}

} // verus!
