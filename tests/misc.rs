use recorder::header::Type;
use recorder::media::{CodecId, MediaKind, SdpMedia, SdpRtcpfbFlags};
use recorder::mixer::{PcmMixer, PcmTimedMixer};
use recorder::rtp::{check_is_rtcp, classify_packet, PacketKind};
use recorder::rwbuf::RwBufVec;
use recorder::sdp::{parse_av, parse_medias, parse_u8_dec, split_ascii_whitespace, RawAttr, RawMedia, SdpError};
use recorder::tag_buf::TagBuf;
use recorder::tag_value::TagRef;
use recorder::tlv_custom::{Muxer, TlvType, FileInfoRef};
use recorder::vec_buf::VecBuf;
use recorder::video::{scale_fit, Point, VideoSize, YuvColor};

#[test]
fn codec_names_ignore_case() {
    assert_eq!(CodecId::parse_from_str("h264"), Some(CodecId::H264));
    assert_eq!(CodecId::parse_from_str("H265"), Some(CodecId::H265));
    assert_eq!(CodecId::parse_from_str("mpeg4-generic"), Some(CodecId::AAC));
    assert_eq!(CodecId::parse_from_str("aac"), Some(CodecId::AAC));
    assert_eq!(CodecId::parse_from_str("rtx"), Some(CodecId::RtpRTX));
    assert_eq!(CodecId::parse_from_str("opus"), None);
    assert_eq!(SdpRtcpfbFlags::NackPli.bit(), 4);
}

#[test]
fn rtcp_classification() {
    assert!(check_is_rtcp(&[0x80, 200]));
    assert!(check_is_rtcp(&[0x80, 64]));
    assert!(!check_is_rtcp(&[0x80, 96]));
    assert!(!check_is_rtcp(&[0x80, 95]));
    assert!(check_is_rtcp(&[0x80, 94]));
    assert!(!check_is_rtcp(&[0x80, 0x80 | 96]));
    assert!(!check_is_rtcp(&[0x80]));
}

#[test]
fn tlv_types() {
    assert_eq!(TlvType::ChData.rtype(), Type::new(22));
    assert_eq!(TlvType::AddCh.value(), 20);
    assert_eq!(TlvType::try_from_type(Type::new(19)), Some(TlvType::RemoveRoom));
    assert_eq!(TlvType::try_from_type(Type::new(23)), None);
    assert_eq!(TlvType::type_iter().iter().map(|t| t.value()).collect::<Vec<_>>(), vec![18, 19, 20, 21, 22]);
    assert_eq!(Type::build_in_iter().len(), 5);
}

#[test]
fn muxer_packet_record_bytes() {
    let m = Muxer::new();
    let mut buf = TagBuf::new();
    m.mux_ch_data_with_ts(&mut buf, 3, &[9, 8], -2);
    assert_eq!(buf.to_vec(), vec![22, 0, 0, 4, 3, 3, 9, 8]);
}

#[test]
fn muxer_header_records() {
    let m = Muxer::new();
    let mut buf = TagBuf::new();
    m.mux_file_header_with_ts(&mut buf, &FileInfoRef { magic: "CINN-TLV", desc: Some("d") }, 1);
    let data = buf.to_vec();
    let (tag, rest) = TagRef::parse_slice(&data).unwrap();
    assert_eq!(tag.rtype(), Type::attach_begin());
    assert_eq!(tag.value().as_magic().unwrap(), (1, "CINN-TLV", "d"));
    assert_eq!(rest, &[3, 0, 0, 0]);
}

#[test]
fn sdp_sections() {
    let video = RawMedia {
        media: MediaKind::Video,
        port: 9,
        fmt: "96 97".to_string(),
        attributes: vec![
            RawAttr::Rtpmap { payload_type: 96, encoding_name: "H264".into(), clock_rate: 90000, encoding_params: None },
            RawAttr::Rtpmap { payload_type: 97, encoding_name: "VP8".into(), clock_rate: 90000, encoding_params: None },
            RawAttr::Other { name: "fmtp".into(), value: Some("96 packetization-mode=1".into()) },
        ],
    };
    let av = parse_av(&video, 0).unwrap();
    assert_eq!(av.payload_types, vec![96, 97]);
    assert_eq!(av.codecs.len(), 1);
    assert_eq!(av.codecs[0].codec_id, CodecId::H264);
    assert_eq!(av.codecs[0].fmtps, vec!["packetization-mode=1".to_string()]);

    let bad = RawMedia { media: MediaKind::Audio, port: 9, fmt: "111 x".into(), attributes: vec![] };
    assert!(matches!(parse_av(&bad, 1), Err(SdpError::InvalidMediaLine)));
    let bad_fmtp = RawMedia {
        media: MediaKind::Audio,
        port: 9,
        fmt: "111".into(),
        attributes: vec![RawAttr::Other { name: "fmtp".into(), value: Some("x a=b".into()) }],
    };
    assert!(matches!(parse_av(&bad_fmtp, 1), Err(SdpError::InvalidFmtp)));

    let other = RawMedia { media: MediaKind::Other, port: 0, fmt: String::new(), attributes: vec![] };
    let main = parse_medias(&vec![video, other]).unwrap();
    assert!(matches!(main.medias[0], SdpMedia::Video(_)));
    assert!(matches!(main.medias[1], SdpMedia::Unknown));
    assert!(!main.medias[1].is_audio_or_video());

    assert_eq!(parse_u8_dec(b"255"), Some(255));
    assert_eq!(parse_u8_dec(b"256"), None);
    assert_eq!(parse_u8_dec(b""), None);
    assert_eq!(split_ascii_whitespace(b" a  bc\t"), vec![b"a".to_vec(), b"bc".to_vec()]);
}

#[test]
fn video_fit() {
    assert_eq!(scale_fit(1920, 1080, 640, 480), (Point::new(0, 60), VideoSize::new(640, 360)));
    assert_eq!(scale_fit(1080, 1920, 640, 480), (Point::new(185, 0), VideoSize::new(270, 480)));
    assert_eq!(VideoSize::new(4, 3).scale_fit(&VideoSize::new(8, 6)), (Point::new(0, 0), VideoSize::new(8, 6)));
    assert_eq!(Point::new(1, 2).add(&Point::new(3, 4)), Point::new(4, 6));
    assert_eq!(YuvColor::black().y, 16);
}

#[test]
fn ring_buffer_rotation() {
    let mut b: RwBufVec<i16> = RwBufVec::new(4);
    b.push_rotate(&[1, 2, 3]);
    assert_eq!(b.rdata(), &[1, 2, 3]);
    b.push_rotate(&[4, 5]);
    assert_eq!(b.rdata(), &[2, 3, 4, 5]);
    b.push_rotate(&[6, 7, 8, 9, 10]);
    assert_eq!(b.rdata(), &[7, 8, 9, 10]);
    b.radvance(1);
    assert_eq!(b.rlen(), 3);
    let r = b.rsplit_to(2);
    assert_eq!(b.at(&r), &[8, 9]);
    assert_eq!(b.rdata(), &[10]);
    b.trim();
    assert_eq!(b.wsize(), 3);
    b.trim_and_check_reserve(2);
    assert_eq!(b.rdata(), &[10]);
}

#[test]
fn pcm_mix_saturates() {
    let mut m = PcmMixer::new(8);
    let a = m.add_ch();
    let b = m.add_ch();
    assert_ne!(a, b);
    m.update_ch(&a, &[30000, 1, 2]);
    m.update_ch(&b, &[10000, -5]);
    let mut out = [7i16; 4];
    m.pull_mix(&mut out);
    assert_eq!(out, [32767, -4, 2, 0]);
    m.remove_ch(&a);
    let mut out = [1i16; 2];
    m.pull_mix(&mut out);
    assert_eq!(out, [0, 0]);

    let mut t = PcmTimedMixer::new(1000, 1);
    let mut buf = [0i16; 10];
    assert_eq!(t.try_pull(100, &mut m, &mut buf), None);
    assert_eq!(t.try_pull(105, &mut m, &mut buf), None);
    assert_eq!(t.try_pull(110, &mut m, &mut buf), Some(100));
    assert_eq!(t.try_pull(115, &mut m, &mut buf), None);
    assert_eq!(t.try_pull(120, &mut m, &mut buf), Some(110));
    assert_eq!(t.millis_to_len(20), 20);
}

#[test]
fn read_buffer() {
    let mut v = VecBuf::from_vec(vec![0; 2]);
    v.spare_mut(4);
    v.take_up(&[1, 2, 3]);
    assert_eq!(v.as_slice(), &[1, 2, 3]);
    assert!(v.is_full(3));
    v.clear();
    assert!(v.as_slice().is_empty());
}

#[test]
fn packet_classification() {
    assert_eq!(classify_packet(&[0x80, 200, 0, 1]), PacketKind::Rtcp);
    assert_eq!(classify_packet(&[0x80, 0xE0, 0, 1, 0, 0, 0, 0, 0, 0, 0, 0]), PacketKind::Rtp(96));
    assert_eq!(classify_packet(&[0x40, 96, 0, 1, 0, 0, 0, 0, 0, 0, 0, 0]), PacketKind::Invalid);
    assert_eq!(classify_packet(&[0x80, 96, 0]), PacketKind::Invalid);
}
