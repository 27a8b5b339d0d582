use recorder::decoder::{
    check_file_header, encode_records, parse_records, ReadError, TlvDecoder, TlvFileListReader,
    TlvFileSyncReader,
};
use recorder::header::Type;
use recorder::media::{CodecId, MediaKind, SdpAV, SdpCodec, SdpMedia};
use recorder::parser::{
    add_ch_records, parse_tlv_data, parse_tlv_with, ChPacket, ContextMut, ParseError, FlowIndex, FlowMut, Handler,
    HandlerError, StreamDesc, StreamIndex, StreamInfo, TrackIndex,
};
use recorder::tlv_custom::{TlvCustomWriter, TlvType, TLV_MAGIC};

fn codec(pt: u8, id: CodecId, kind: MediaKind) -> SdpCodec {
    SdpCodec {
        payload_type: pt,
        codec_id: id,
        media_type: kind,
        clock_rate: 90000,
        channels: None,
        rtcpfb: 0,
        fmtps: vec![],
    }
}

fn av(index: usize, pt: u8, id: CodecId, kind: MediaKind) -> SdpAV {
    SdpAV { index, port: 9, payload_types: vec![pt], codecs: vec![codec(pt, id, kind)] }
}

fn rtp(pt: u8, seq: u16) -> Vec<u8> {
    let s = seq.to_be_bytes();
    vec![0x80, pt, s[0], s[1], 0, 0, 0, 1, 0, 0, 0, 2, 0xAA, 0xBB]
}

fn rtcp() -> Vec<u8> {
    vec![0x80, 200, 0, 6, 0, 0, 0, 2]
}

#[derive(Default)]
struct Recorder {
    events: Vec<String>,
    rtp_seen: usize,
    stop_after: Option<usize>,
}

impl Handler for Recorder {
    type Flow = u32;

    fn on_add_stream(&mut self, _ctx: &mut ContextMut, index: StreamIndex, ts: i64, info: &StreamInfo) -> Result<(), HandlerError> {
        self.events.push(format!("stream {} {} {} {}", index.index, ts, info.name, info.ch_id));
        Ok(())
    }

    fn on_add_track(&mut self, _ctx: &mut ContextMut, index: TrackIndex) -> Result<(), HandlerError> {
        self.events.push(format!("track {} {}", index.stream, index.track));
        Ok(())
    }

    fn on_add_flow(&mut self, _ctx: &mut ContextMut, index: FlowIndex, codec: &SdpCodec) -> Result<u32, HandlerError> {
        self.events.push(format!("flow {} {} {}", index.track.track, index.flow, codec.payload_type));
        Ok(0)
    }

    fn on_flow_rtp(&mut self, ctx: &mut ContextMut, flow: &mut FlowMut<u32>, packet: &ChPacket) -> Result<(), HandlerError> {
        *flow.ext_mut() += 1;
        self.events.push(format!("rtp {} {} {}", flow.index().track.track, packet.ch_id, packet.ts));
        self.rtp_seen += 1;
        if let Some(n) = self.stop_after {
            if self.rtp_seen >= n {
                ctx.set_finished();
            }
        }
        Ok(())
    }

    fn on_track_rtcp(&mut self, _ctx: &mut ContextMut, index: TrackIndex, packet: &ChPacket) -> Result<(), HandlerError> {
        self.events.push(format!("rtcp {} {}", index.track, packet.ch_id));
        Ok(())
    }
}

fn desc() -> StreamDesc {
    StreamDesc {
        info: StreamInfo { name: "alice".to_string(), ch_id: 0, sdp: String::new() },
        medias: vec![
            SdpMedia::Video(av(0, 96, CodecId::H264, MediaKind::Video)),
            SdpMedia::Audio(av(1, 111, CodecId::AAC, MediaKind::Audio)),
        ],
    }
}

fn container(packets: &[(u64, Vec<u8>, i64)]) -> Vec<u8> {
    let mut w = TlvCustomWriter::new();
    let mut out = Vec::new();
    out.extend(w.write_header().to_vec());
    out.extend(w.write_adding_ch("{\"name\":\"alice\",\"ch_id\":0,\"sdp\":\"\"}").to_vec());
    for (ch, data, ts) in packets {
        out.extend(w.write_ch_data_with_ts(*ch, data, *ts).to_vec());
    }
    out.extend(w.write_file_end().to_vec());
    out
}

#[test]
fn demux_scenario_reports_in_file_order() {
    let data = container(&[
        (0, rtp(96, 1), 10),
        (2, rtp(111, 1), 11),
        (1, rtcp(), 12),
        (0, rtp(96, 2), 13),
        (0, rtp(97, 3), 14),
    ]);
    let (adds, end) = add_ch_records(data.clone());
    assert!(end.is_ok());
    assert_eq!(adds.len(), 1);
    assert_eq!(adds[0].1, b"{\"name\":\"alice\",\"ch_id\":0,\"sdp\":\"\"}".to_vec());

    let mut h = Recorder::default();
    let info = parse_tlv_data(data, vec![Some(desc())], &mut h).unwrap();
    let ts = adds[0].0;
    assert_eq!(
        h.events,
        vec![
            format!("stream 0 {} alice 0", ts),
            "track 0 0".to_string(),
            "track 0 1".to_string(),
            "flow 0 0 96".to_string(),
            "rtp 0 0 10".to_string(),
            "flow 1 0 111".to_string(),
            "rtp 1 2 11".to_string(),
            "rtcp 0 1".to_string(),
            "rtp 0 0 13".to_string(),
        ]
    );
    assert_eq!(info.streams.len(), 1);
    assert_eq!(info.streams[0].tracks.len(), 2);
    assert_eq!(info.streams[0].tracks[0].flows.len(), 1);
    assert_eq!(info.streams[0].tracks[1].flows[0].codec.payload_type, 111);
}

#[test]
fn traced_calls_and_missing_description() {
    let data = container(&[(2, rtp(111, 1), 11), (0, rtp(96, 1), 12)]);
    let mut h = Recorder::default();
    let (r, _, _, _) = parse_tlv_with(data.clone(), vec![Some(desc())], &mut h);
    assert!(r.is_ok());
    assert_eq!(h.events.len(), 7);
    let mut h = Recorder::default();
    assert!(matches!(parse_tlv_data(data.clone(), vec![], &mut h), Err(ParseError::MissingStream)));
    assert!(h.events.is_empty());
    let mut h = Recorder::default();
    assert!(matches!(parse_tlv_data(data, vec![None], &mut h), Err(ParseError::BadStream)));
}

#[test]
fn invalid_rtp_on_known_track_fails_after_earlier_calls() {
    let data = container(&[(0, rtp(96, 1), 10), (0, vec![0x40, 96, 0, 0], 11)]);
    let mut h = Recorder::default();
    assert!(matches!(parse_tlv_data(data, vec![Some(desc())], &mut h), Err(ParseError::InvalidRtp)));
    assert_eq!(h.events.last().unwrap(), "rtp 0 0 10");
}

#[test]
fn unregistered_channel_and_track_offset() {
    let mut d = desc();
    d.info.ch_id = 10;
    let data = container(&[(4, rtp(96, 1), 1), (12, rtp(111, 2), 2), (13, rtcp(), 3)]);
    let mut h = Recorder::default();
    parse_tlv_data(data, vec![Some(d)], &mut h).unwrap();
    assert_eq!(
        h.events[3..].to_vec(),
        vec!["flow 1 0 111".to_string(), "rtp 1 12 2".to_string(), "rtcp 1 13".to_string()]
    );
}

#[test]
fn early_termination_stops_after_n_rtp_calls() {
    let mut packets = Vec::new();
    for i in 0..10u16 {
        packets.push((0u64, rtp(96, i), i as i64));
    }
    let data = container(&packets);
    let mut h = Recorder { stop_after: Some(3), ..Default::default() };
    parse_tlv_data(data, vec![Some(desc())], &mut h).unwrap();
    assert_eq!(h.rtp_seen, 3);
}

#[test]
fn handler_error_ends_the_parse_and_truncation_keeps_earlier_calls() {
    struct Failing;
    impl Handler for Failing {
        type Flow = ();
        fn on_add_stream(&mut self, _c: &mut ContextMut, _i: StreamIndex, _t: i64, _s: &StreamInfo) -> Result<(), HandlerError> {
            Err(HandlerError { message: "no".to_string() })
        }
        fn on_add_track(&mut self, _c: &mut ContextMut, _i: TrackIndex) -> Result<(), HandlerError> {
            panic!("called after a failure")
        }
        fn on_add_flow(&mut self, _c: &mut ContextMut, _i: FlowIndex, _s: &SdpCodec) -> Result<(), HandlerError> {
            panic!("called after a failure")
        }
        fn on_flow_rtp(&mut self, _c: &mut ContextMut, _f: &mut FlowMut<()>, _p: &ChPacket) -> Result<(), HandlerError> {
            panic!("called after a failure")
        }
        fn on_track_rtcp(&mut self, _c: &mut ContextMut, _i: TrackIndex, _p: &ChPacket) -> Result<(), HandlerError> {
            panic!("called after a failure")
        }
    }
    let data = container(&[(0, rtp(96, 1), 10)]);
    match parse_tlv_data(data.clone(), vec![Some(desc())], &mut Failing) {
        Err(ParseError::Handler(e)) => assert_eq!(e.message, "no"),
        _ => panic!("expected the handler's error"),
    }
    let cut = data[..data.len() - 3].to_vec();
    let (adds, end) = add_ch_records(cut.clone());
    assert_eq!(adds.len(), 1);
    assert!(matches!(end, Err(ParseError::Read(ReadError::Truncated))));
    let mut h = Recorder::default();
    assert!(matches!(parse_tlv_data(cut.clone(), vec![Some(desc())], &mut h), Err(ParseError::Read(ReadError::Truncated))));
    assert_eq!(h.events.len(), 5);
    let mut h = Recorder { stop_after: Some(1), ..Default::default() };
    assert!(parse_tlv_data(cut, vec![Some(desc())], &mut h).is_ok());
}

#[test]
fn parse_rejects_foreign_file() {
    let recs = vec![(Type::attach_begin(), {
        let mut p = 0i64.to_be_bytes().to_vec();
        p.push(3);
        p.extend_from_slice(b"abc");
        p
    })];
    let data = encode_records(&recs);
    let mut h = Recorder::default();
    assert!(parse_tlv_data(data.clone(), vec![], &mut h).is_err());
    assert_eq!(check_file_header(&data, Some("abc")).unwrap().magic, "abc");
    assert!(matches!(check_file_header(&data, Some(TLV_MAGIC)), Err(ReadError::MagicMismatch)));
    assert!(matches!(check_file_header(&[7, 0, 0, 0], None), Err(ReadError::NotAttachBegin)));
    assert!(matches!(check_file_header(&[2, 0, 0], None), Err(ReadError::Truncated)));
}

#[test]
fn records_round_trip() {
    let recs = vec![
        (Type::new(16), vec![1, 2, 3]),
        (Type::new(20), vec![]),
        (Type::new(2), vec![9; 300]),
    ];
    let bytes = encode_records(&recs);
    assert_eq!(bytes[..7], [16, 0, 0, 3, 1, 2, 3]);
    let back = parse_records(&bytes).unwrap();
    assert_eq!(back.len(), 3);
    for (a, b) in recs.iter().zip(back.iter()) {
        assert_eq!(a.0, b.0);
        assert_eq!(a.1, b.1);
    }
    assert!(parse_records(&bytes[..bytes.len() - 1]).is_none());
}

#[test]
fn stream_decoder_waits_for_whole_record() {
    let mut d = TlvDecoder::new();
    let mut src = vec![22, 0, 0, 2, 7];
    assert!(d.decode(&mut src).is_none());
    assert_eq!(src.len(), 5);
    src.push(8);
    src.push(1);
    let (t, p) = d.decode(&mut src).unwrap();
    assert_eq!(t, TlvType::ChData.rtype());
    assert_eq!(p, vec![7, 8]);
    assert_eq!(src, vec![1]);
}

#[test]
fn file_readers_skip_attach_end_and_chain_files() {
    let file = container(&[(0, rtp(96, 1), 5)]);
    let mut r = TlvFileSyncReader::open_with_magic(file.clone(), Some(TLV_MAGIC)).unwrap();
    let (t, _) = r.read_next().unwrap();
    assert_eq!(t, Type::attach_begin());
    let (t, _) = r.read_next().unwrap();
    assert_eq!(t, TlvType::AddCh.rtype());

    let mut list = TlvFileListReader::new(Some(TLV_MAGIC.to_string()), vec![file.clone(), file]);
    let mut types = Vec::new();
    while let Some((t, _)) = list.read_next().unwrap() {
        types.push(t.value());
    }
    assert_eq!(types, vec![2, 20, 22, 4, 2, 20, 22, 4]);

    let mut lazy = TlvFileListReader::new(Some(TLV_MAGIC.to_string()), vec![]);
    assert!(lazy.read_next().unwrap().is_none());
    lazy.add_file(container(&[]));
    let mut n = 0;
    while let Some(_) = lazy.read_next().unwrap() {
        n += 1;
    }
    assert_eq!(n, 3);
}
