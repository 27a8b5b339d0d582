//! The channel container: record types of its own, and the muxer that writes
//! the file header, channel additions, channel packets and the end marker.
use vstd::prelude::*;
use vstd::string::StringSliceAdditionalSpecFns;
use crate::header::{Type, records_spec};
use crate::tag_buf::{TagBuf, chunks_spec, lemma_write_fresh, write_spec, be_i64_spec};
use crate::seg_buf::{SegList, flatten};
use crate::varint::{varint_spec, zigzag_spec, varint64_to_vec, encode_zig_zag_64};

verus! {

/// Magic string of this container's files.
pub const TLV_MAGIC: &'static str = "CINN-TLV";

/// Record types of the container, from `Type::CUSTOM_VALUE` on.
#[derive(Debug, Clone, Copy, PartialEq, Eq, Structural, PartialOrd, Ord)]
pub enum TlvType {
    CUSTOM,
    AddRoom,
    RemoveRoom,
    AddCh,
    RemoveCh,
    ChData,
    Max,
}

/// The type byte of each container record type.
pub open spec fn tlv_value(t: TlvType) -> u8 {
    match t {
        TlvType::CUSTOM => 16,
        TlvType::AddRoom => 18,
        TlvType::RemoveRoom => 19,
        TlvType::AddCh => 20,
        TlvType::RemoveCh => 21,
        TlvType::ChData => 22,
        TlvType::Max => 23,
    }
}

impl TlvType {
    pub fn value(&self) -> (r: u8)
        ensures
            r == tlv_value(*self),
    {
        match self {
            TlvType::CUSTOM => 16,
            TlvType::AddRoom => 18,
            TlvType::RemoveRoom => 19,
            TlvType::AddCh => 20,
            TlvType::RemoveCh => 21,
            TlvType::ChData => 22,
            TlvType::Max => 23,
        }
    }

    pub fn rtype(&self) -> (r: Type)
        ensures
            r.0 == tlv_value(*self),
    {
        Type::new(self.value())
    }

    /// The record types that carry container data, `AddRoom` to `ChData`.
    pub fn type_iter() -> (r: Vec<Type>)
        ensures
            r@.len() == 5,
            forall|i: int| 0 <= i < 5 ==> r@[i].0 == 18 + i,
    {
        let mut r: Vec<Type> = Vec::new();
        let mut v: u8 = 18;
        while v < 23
            invariant
                18 <= v <= 23,
                r@.len() == v - 18,
                forall|i: int| 0 <= i < r@.len() ==> r@[i].0 == 18 + i,
            decreases 23 - v,
        {
            r.push(Type::new(v));
            v = v + 1;
        }
        r
    }

    /// The container record type of `t`, if it is one that carries data.
    pub fn try_from_type(t: Type) -> (r: Option<TlvType>)
        ensures
            r matches Some(x) ==> tlv_value(x) == t.0,
            (18 <= t.0 <= 22) <==> r is Some,
    {
        match t.value() {
            18 => Some(TlvType::AddRoom),
            19 => Some(TlvType::RemoveRoom),
            20 => Some(TlvType::AddCh),
            21 => Some(TlvType::RemoveCh),
            22 => Some(TlvType::ChData),
            _ => None,
        }
    }
}

/// A channel as the writer declares it: a name, the first channel id, and
/// the session description.
pub struct ChInfo {
    pub name: String,
    pub ch_id: u64,
    pub sdp: String,
}

/// Payload of a packet record.
pub open spec fn ch_data_payload(ts: i64, ch_id: u64, data: Seq<u8>) -> Seq<u8> {
    varint_spec(zigzag_spec(ts as int)) + varint_spec(ch_id as nat) + data
}

/// Payload of a timestamped text record.
pub open spec fn ts_text_payload(ts: i64, text: Seq<u8>) -> Seq<u8> {
    varint_spec(zigzag_spec(ts as int)) + text
}

/// What the file header says of the file.
pub struct FileInfoRef<'a> {
    pub magic: &'a str,
    pub desc: Option<&'a str>,
}

/// Writes container records into a `TagBuf`; timestamps and channel ids are
/// written relative to a base of zero.
pub struct Muxer {
    basetime: i64,
    baseid: u64,
}

/// Appends `payload` to `v`.
fn extend(v: &mut Vec<u8>, payload: &[u8])
    ensures
        final(v)@ == old(v)@ + payload@,
{
    let mut i: usize = 0;
    while i < payload.len()
        invariant
            i <= payload@.len(),
            v@ == old(v)@ + payload@.take(i as int),
        decreases payload@.len() - i,
    {
        v.push(payload[i]);
        i = i + 1;
        proof {
            assert(v@ =~= old(v)@ + payload@.take(i as int));
        }
    }
    proof {
        assert(payload@.take(i as int) =~= payload@);
    }
}

impl Muxer {
    pub closed spec fn spec_basetime(&self) -> i64 {
        self.basetime
    }

    pub closed spec fn spec_baseid(&self) -> u64 {
        self.baseid
    }

    pub fn new() -> (r: Self)
        ensures
            r.spec_basetime() == 0,
            r.spec_baseid() == 0,
    {
        Self { basetime: 0, baseid: 0 }
    }

    /// One record of type `t` holding `payload` (split where it outgrows one).
    fn put_record(buf: &mut TagBuf, t: Type, payload: &[u8])
        requires
            old(buf).wf(),
            old(buf).spec_total() + 5 * payload@.len() + 16 <= usize::MAX,
        ensures
            final(buf).wf(),
            final(buf).spec_open() is None,
            final(buf).spec_done() == old(buf).closed_view() + chunks_spec(t.0, payload@),
            final(buf).spec_total() <= old(buf).spec_total() + 5 * payload@.len() + 8,
    {
        buf.begin_tag(t);
        buf.append_last(payload);
        proof {
            lemma_write_fresh(t.0, old(buf).closed_view(), payload@);
        }
    }

    /// A packet record: the timestamp relative to the base, the channel id
    /// relative to the base, and the packet bytes.
    pub fn mux_ch_data_with_ts(&self, buf: &mut TagBuf, ch_id: u64, data: &[u8], ts: i64)
        requires
            old(buf).wf(),
            old(buf).spec_total() + 5 * data@.len() + 128 <= usize::MAX,
            self.spec_basetime() == 0,
            self.spec_baseid() == 0,
        ensures
            final(buf).wf(),
            final(buf).spec_open() is None,
            final(buf).spec_done() == old(buf).closed_view() + chunks_spec(22, ch_data_payload(ts, ch_id, data@)),
    {
        let delta_ts = ts - self.basetime;
        let delta_id = ch_id - self.baseid;
        let mut payload = varint64_to_vec(encode_zig_zag_64(delta_ts));
        let id = varint64_to_vec(delta_id);
        extend(&mut payload, id.as_slice());
        extend(&mut payload, data);
        proof {
            assert(payload@ =~= ch_data_payload(ts, ch_id, data@));
        }
        Self::put_record(buf, TlvType::ChData.rtype(), payload.as_slice());
    }

    /// A packet record stamped with the current time.
    pub fn mux_ch_data(&self, buf: &mut TagBuf, ch_id: u64, data: &[u8])
        requires
            old(buf).wf(),
            old(buf).spec_total() + 5 * data@.len() + 128 <= usize::MAX,
            self.spec_basetime() == 0,
            self.spec_baseid() == 0,
        ensures
            final(buf).wf(),
            final(buf).spec_open() is None,
            exists|ts: i64| final(buf).spec_done() == old(buf).closed_view() + #[trigger] chunks_spec(22, ch_data_payload(ts, ch_id, data@)),
    {
        let ts = crate::clock::now_millis();
        self.mux_ch_data_with_ts(buf, ch_id, data, ts);
    }

    /// A record of type `rtype`: the time relative to the base, then `content`.
    pub fn mux_string_with_ts(&self, buf: &mut TagBuf, rtype: Type, content: &str, ts: i64)
        requires
            old(buf).wf(),
            old(buf).spec_total() + 5 * content.spec_bytes().len() + 128 <= usize::MAX,
            self.spec_basetime() == 0,
        ensures
            final(buf).wf(),
            final(buf).spec_open() is None,
            final(buf).spec_done() == old(buf).closed_view() + chunks_spec(rtype.0, ts_text_payload(ts, content.spec_bytes())),
    {
        let delta_ts = ts - self.basetime;
        let mut payload = varint64_to_vec(encode_zig_zag_64(delta_ts));
        extend(&mut payload, content.as_bytes());
        Self::put_record(buf, rtype, payload.as_slice());
    }

    /// A record of type `rtype` stamped with the current time.
    pub fn mux_string(&self, buf: &mut TagBuf, rtype: Type, content: &str)
        requires
            old(buf).wf(),
            old(buf).spec_total() + 5 * content.spec_bytes().len() + 128 <= usize::MAX,
            self.spec_basetime() == 0,
        ensures
            final(buf).wf(),
            final(buf).spec_open() is None,
            exists|ts: i64| final(buf).spec_done() == old(buf).closed_view() + #[trigger] chunks_spec(rtype.0, ts_text_payload(ts, content.spec_bytes())),
    {
        let ts = crate::clock::now_millis();
        self.mux_string_with_ts(buf, rtype, content, ts);
    }

    /// The file header: an `ATTACH_BEGIN` record with the time, the magic as
    /// a unit and the description, then an empty `ATTACH_END` record.
    pub fn mux_file_header_with_ts(&self, buf: &mut TagBuf, info: &FileInfoRef, ts: i64)
        requires
            old(buf).wf(),
            old(buf).spec_total() + 5 * (info.magic.spec_bytes().len() + desc_bytes(info.desc).len()) + 256 <= usize::MAX,
            info.magic.spec_bytes().len() <= u32::MAX,
        ensures
            final(buf).wf(),
            final(buf).spec_open() is None,
            final(buf).spec_done() == old(buf).closed_view() + chunks_spec(Type::ATTACH_BEGIN_VALUE,
                header_payload(ts, info.magic.spec_bytes(), desc_bytes(info.desc))) + seq![(Type::ATTACH_END_VALUE, Seq::<u8>::empty())],
    {
        let mut payload: Vec<u8> = Vec::new();
        let tsb = i64_be_vec(ts);
        extend(&mut payload, tsb.as_slice());
        let mb = info.magic.as_bytes();
        let lenb = varint64_to_vec(mb.len() as u64);
        extend(&mut payload, lenb.as_slice());
        extend(&mut payload, mb);
        let desc: &str = match info.desc {
            Some(d) => d,
            None => "",
        };
        proof {
            assert(desc.spec_bytes() == desc_bytes(info.desc)) by {
                if info.desc is None {
                    reveal_strlit("");
                    assert(desc@ =~= Seq::<char>::empty());
                    assert(vstd::utf8::encode_utf8(Seq::<char>::empty()) =~= Seq::<u8>::empty());
                }
            }
        }
        extend(&mut payload, desc.as_bytes());
        proof {
            assert(payload@ =~= header_payload(ts, info.magic.spec_bytes(), desc_bytes(info.desc)));
        }
        Self::put_record(buf, Type::attach_begin(), payload.as_slice());
        let ghost mid = buf.spec_done();
        buf.begin_tag(Type::attach_end());
        buf.finish();
        proof {
            assert(buf.spec_done() =~= mid.push((Type::ATTACH_END_VALUE, Seq::<u8>::empty())));
        }
    }

    /// The file header, stamped with the current time.
    pub fn mux_file_header(&self, buf: &mut TagBuf, info: &FileInfoRef)
        requires
            old(buf).wf(),
            old(buf).spec_total() + 5 * (info.magic.spec_bytes().len() + desc_bytes(info.desc).len()) + 256 <= usize::MAX,
            info.magic.spec_bytes().len() <= u32::MAX,
        ensures
            final(buf).wf(),
            final(buf).spec_open() is None,
            exists|ts: i64| final(buf).spec_done() == old(buf).closed_view() + #[trigger] chunks_spec(Type::ATTACH_BEGIN_VALUE,
                header_payload(ts, info.magic.spec_bytes(), desc_bytes(info.desc))) + seq![(Type::ATTACH_END_VALUE, Seq::<u8>::empty())],
    {
        let ts = crate::clock::now_millis();
        self.mux_file_header_with_ts(buf, info, ts);
    }
}

/// Bytes of an optional description, empty when there is none.
pub open spec fn desc_bytes(d: Option<&str>) -> Seq<u8> {
    match d {
        Some(s) => s.spec_bytes(),
        None => Seq::empty(),
    }
}

/// Payload of the header record.
pub open spec fn header_payload(ts: i64, magic: Seq<u8>, desc: Seq<u8>) -> Seq<u8> {
    be_i64_spec(ts) + varint_spec(magic.len()) + magic + desc
}

fn i64_be_vec(v: i64) -> (r: Vec<u8>)
    ensures
        r@ == be_i64_spec(v),
{
    let b = crate::tag_buf::i64_be_bytes(v);
    crate::varint::slice_to_vec(&b)
}

/// The writing side of a container file: records are built in a `TagBuf`,
/// and each call hands back the segments to write out.
pub struct TlvCustomWriter {
    muxer: Muxer,
    buf: TagBuf,
}

impl TlvCustomWriter {
    pub closed spec fn wf(&self) -> bool {
        &&& self.buf.wf()
        &&& self.buf.spec_open() is None
        &&& self.buf.spec_done() == Seq::<(u8, Seq<u8>)>::empty()
        &&& self.muxer.spec_basetime() == 0
        &&& self.muxer.spec_baseid() == 0
    }

    /// Bytes produced so far.
    pub closed spec fn spec_total(&self) -> nat {
        self.buf.spec_total()
    }

    pub fn new() -> (r: Self)
        ensures
            r.wf(),
            r.spec_total() == 0,
    {
        Self { muxer: Muxer::new(), buf: TagBuf::new() }
    }

    /// Bytes produced so far.
    pub fn len(&self) -> (r: usize)
        ensures
            r == self.spec_total(),
    {
        self.buf.len()
    }

    /// The file header with this container's magic and no description.
    pub fn write_header(&mut self) -> (r: SegList)
        requires
            old(self).wf(),
            old(self).spec_total() + 1024 <= usize::MAX,
        ensures
            final(self).wf(),
            exists|ts: i64| flatten(r.spec_segs()) == #[trigger] records_spec(chunks_spec(Type::ATTACH_BEGIN_VALUE,
                header_payload(ts, TLV_MAGIC.spec_bytes(), Seq::empty())) + seq![(Type::ATTACH_END_VALUE, Seq::<u8>::empty())]),
    {
        proof {
            reveal_strlit("CINN-TLV");
            assert(vstd::utf8::is_ascii_chars(TLV_MAGIC@));
            vstd::utf8::is_ascii_chars_encode_utf8(TLV_MAGIC@);
            assert(vstd::utf8::encode_utf8(Seq::<char>::empty()) =~= Seq::<u8>::empty());
        }
        let info = FileInfoRef { magic: TLV_MAGIC, desc: None };
        self.muxer.mux_file_header(&mut self.buf, &info);
        self.buf.split()
    }

    /// A channel addition: the time, then `content` (the channel description
    /// as JSON text).
    pub fn write_adding_ch(&mut self, content: &str) -> (r: SegList)
        requires
            old(self).wf(),
            old(self).spec_total() + 5 * content.spec_bytes().len() + 256 <= usize::MAX,
        ensures
            final(self).wf(),
            exists|ts: i64| flatten(r.spec_segs()) == #[trigger] records_spec(chunks_spec(20, ts_text_payload(ts, content.spec_bytes()))),
    {
        self.muxer.mux_string(&mut self.buf, TlvType::AddCh.rtype(), content);
        self.buf.split()
    }

    /// A packet of channel `ch_id` stamped with the current time.
    pub fn write_ch_data(&mut self, ch_id: u64, data: &[u8]) -> (r: SegList)
        requires
            old(self).wf(),
            old(self).spec_total() + 5 * data@.len() + 256 <= usize::MAX,
        ensures
            final(self).wf(),
            exists|ts: i64| flatten(r.spec_segs()) == #[trigger] records_spec(chunks_spec(22, ch_data_payload(ts, ch_id, data@))),
    {
        self.muxer.mux_ch_data(&mut self.buf, ch_id, data);
        self.buf.split()
    }

    /// A packet of channel `ch_id` with the time `ts`.
    pub fn write_ch_data_with_ts(&mut self, ch_id: u64, data: &[u8], ts: i64) -> (r: SegList)
        requires
            old(self).wf(),
            old(self).spec_total() + 5 * data@.len() + 256 <= usize::MAX,
        ensures
            final(self).wf(),
            flatten(r.spec_segs()) == records_spec(chunks_spec(22, ch_data_payload(ts, ch_id, data@))),
    {
        self.muxer.mux_ch_data_with_ts(&mut self.buf, ch_id, data, ts);
        self.buf.split()
    }

    /// The end marker.
    pub fn write_file_end(&mut self) -> (r: SegList)
        requires
            old(self).wf(),
            old(self).spec_total() + 1024 <= usize::MAX,
        ensures
            final(self).wf(),
            exists|ts: i64| flatten(r.spec_segs()) == #[trigger] records_spec(chunks_spec(Type::FILE_END_VALUE, ts_text_payload(ts, "tlv file end".spec_bytes()))),
    {
        proof {
            reveal_strlit("tlv file end");
            assert(vstd::utf8::is_ascii_chars("tlv file end"@));
            vstd::utf8::is_ascii_chars_encode_utf8("tlv file end"@);
        }
        self.muxer.mux_string(&mut self.buf, Type::file_end(), "tlv file end");
        self.buf.split()
    }
}

} // verus!
