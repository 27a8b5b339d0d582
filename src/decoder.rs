//! Turning bytes back into records: incrementally as chunks arrive, or over
//! whole files, checking the header record that opens each file.
use vstd::prelude::*;
use vstd::string::StringSliceAdditionalSpecFns;
use crate::header::{
    Type, Header, MAX_RECORD_LEN, parse_record_spec, parse_records_spec, records_spec,
    lemma_records_round_trip,
};
use crate::tag_value::{TagRef, ValueError, unit_spec, i64_str2_spec};
use crate::tag_buf::{TagBuf, write_spec};
use crate::seg_buf::flatten;

verus! {

/// The view of a list of owned records.
pub open spec fn records_view(rs: Seq<(Type, Vec<u8>)>) -> Seq<(u8, Seq<u8>)> {
    rs.map_values(|r: (Type, Vec<u8>)| (r.0.0, r.1@))
}

/// Frames records out of bytes that arrive in chunks.
#[derive(Debug, Default)]
pub struct TlvDecoder;

impl TlvDecoder {
    pub fn new() -> (r: Self) {
        TlvDecoder
    }

    /// Takes the first whole record off the front of `src`; `None`, leaving
    /// `src` as it is, until enough bytes have arrived.
    pub fn decode(&mut self, src: &mut Vec<u8>) -> (r: Option<(Type, Vec<u8>)>)
        ensures
            (match parse_record_spec(old(src)@) {
                None => r is None && final(src)@ == old(src)@,
                Some((t, p, rest)) => r matches Some((rt, data)) && rt.0 == t && data@ == p && final(src)@ == rest,
            }),
    {
        match Header::try_parse(src.as_slice()) {
            Some((rtype, len)) => {
                if len > src.len() - Header::SIZE {
                    return None;
                }
                let mut tail = src.split_off(Header::SIZE);
                let rest = tail.split_off(len);
                let ghost whole = old(src)@;
                proof {
                    assert(tail@ =~= whole.subrange(4, 4 + len));
                    assert(rest@ =~= whole.subrange(4 + len, whole.len() as int));
                }
                *src = rest;
                Some((rtype, tail))
            },
            None => None,
        }
    }
}

/// Copies a slice into a new vector.
fn to_owned_bytes(s: &[u8]) -> (r: Vec<u8>)
    ensures
        r@ == s@,
{
    crate::varint::slice_to_vec(s)
}

/// Reads every record of `data`; `None` when it ends inside a record.
pub fn parse_records(data: &[u8]) -> (r: Option<Vec<(Type, Vec<u8>)>>)
    ensures
        (match parse_records_spec(data@) {
            None => r is None,
            Some(rs) => r matches Some(v) && records_view(v@) == rs,
        }),
{
    let mut out: Vec<(Type, Vec<u8>)> = Vec::new();
    let mut rest: &[u8] = data;
    proof {
        assert(records_view(out@) =~= Seq::<(u8, Seq<u8>)>::empty());
    }
    loop
        invariant
            (match parse_records_spec(data@) {
                None => parse_records_spec(rest@) is None,
                Some(all) => parse_records_spec(rest@) matches Some(tail) && all == records_view(out@) + tail,
            }),
        decreases rest@.len(),
    {
        if rest.len() == 0 {
            proof {
                assert(records_view(out@) + Seq::<(u8, Seq<u8>)>::empty() =~= records_view(out@));
            }
            return Some(out);
        }
        match TagRef::parse_slice(rest) {
            Ok((tag, tail)) => {
                let ghost before = rest@;
                let rt = tag.rtype();
                let v = to_owned_bytes(tag.value().as_slice());
                let ghost old_out = records_view(out@);
                out.push((rt, v));
                proof {
                    assert(records_view(out@) =~= old_out.push((rt.0, v@)));
                    let (t, p, rr) = parse_record_spec(before)->0;
                    assert(tail@.len() < before.len());
                    match parse_records_spec(data@) {
                        Some(all) => {
                            let tl = parse_records_spec(rr)->0;
                            assert(all =~= records_view(out@) + tl);
                        },
                        None => {},
                    }
                }
                rest = tail;
            },
            Err(_) => {
                return None;
            },
        }
    }
}

/// Encodes `rs` one record each, one after another.
pub fn encode_records(rs: &Vec<(Type, Vec<u8>)>) -> (r: Vec<u8>)
    requires
        forall|i: int| 0 <= i < rs@.len() ==> (#[trigger] rs@[i]).1@.len() <= MAX_RECORD_LEN,
        rs@.len() * 8 + 5 * sum_lens(rs@) + 8 <= usize::MAX,
    ensures
        r@ == records_spec(records_view(rs@)),
{
    let mut buf = TagBuf::new();
    let mut i: usize = 0;
    proof {
        assert(records_view(rs@).take(0) =~= Seq::<(u8, Seq<u8>)>::empty());
    }
    while i < rs.len()
        invariant
            buf.wf(),
            buf.spec_open() is None,
            i <= rs@.len(),
            buf.spec_done() == records_view(rs@).take(i as int),
            buf.spec_total() <= i * 8 + 5 * sum_lens(rs@.take(i as int)),
            forall|j: int| 0 <= j < rs@.len() ==> (#[trigger] rs@[j]).1@.len() <= MAX_RECORD_LEN,
            rs@.len() * 8 + 5 * sum_lens(rs@) + 8 <= usize::MAX,
        decreases rs@.len() - i,
    {
        proof {
            lemma_sum_lens_take(rs@, i as int);
            lemma_sum_lens_mono(rs@, i + 1);
        }
        let (t, p) = &rs[i];
        buf.begin_tag(*t);
        buf.append_last(p.as_slice());
        proof {
            assert(Seq::<u8>::empty() + p@ =~= p@);
            assert(write_spec(t.0, records_view(rs@).take(i as int), Seq::empty(), p@)
                == (records_view(rs@).take(i as int), p@));
            assert(records_view(rs@).take(i + 1) =~= records_view(rs@).take(i as int).push((t.0, p@)));
        }
        i = i + 1;
    }
    proof {
        assert(records_view(rs@).take(i as int) =~= records_view(rs@));
    }
    buf.to_vec()
}

/// Total payload length of `rs`.
pub open spec fn sum_lens(rs: Seq<(Type, Vec<u8>)>) -> nat
    decreases rs.len(),
{
    if rs.len() == 0 {
        0
    } else {
        sum_lens(rs.drop_last()) + rs.last().1@.len()
    }
}

proof fn lemma_sum_lens_take(rs: Seq<(Type, Vec<u8>)>, i: int)
    requires
        0 <= i < rs.len(),
    ensures
        sum_lens(rs.take(i + 1)) == sum_lens(rs.take(i)) + rs[i].1@.len(),
{
    assert(rs.take(i + 1).drop_last() =~= rs.take(i));
}

proof fn lemma_sum_lens_mono(rs: Seq<(Type, Vec<u8>)>, i: int)
    requires
        0 <= i <= rs.len(),
    ensures
        sum_lens(rs.take(i)) <= sum_lens(rs),
    decreases rs.len() - i,
{
    if i < rs.len() {
        lemma_sum_lens_take(rs, i);
        lemma_sum_lens_mono(rs, i + 1);
    } else {
        assert(rs.take(i) =~= rs);
    }
}

/// Encoding records with `encode_records` and reading the bytes back with
/// `parse_records` gives the same records.
pub proof fn lemma_encode_parse_round_trip(rs: Seq<(Type, Vec<u8>)>)
    requires
        forall|i: int| 0 <= i < rs.len() ==> (#[trigger] rs[i]).1@.len() <= MAX_RECORD_LEN,
    ensures
        parse_records_spec(records_spec(records_view(rs))) == Some(records_view(rs)),
{
    assert forall|i: int| 0 <= i < records_view(rs).len() implies #[trigger] records_view(rs)[i].1.len() <= MAX_RECORD_LEN by {
        assert(records_view(rs)[i].1 == rs[i].1@);
    }
    lemma_records_round_trip(records_view(rs));
}

/// Why a file or stream of records could not be read.
#[derive(Debug, Clone, Copy, PartialEq, Eq, Structural)]
pub enum ReadError {
    /// The bytes end inside a record header or payload.
    Truncated,
    /// The first record is not the file header.
    NotAttachBegin,
    /// The file header's fields do not decode.
    BadHeader(ValueError),
    /// The file header names another magic string.
    MagicMismatch,
}

/// Whether two byte sequences are equal.
pub fn bytes_eq(a: &[u8], b: &[u8]) -> (r: bool)
    ensures
        r == (a@ == b@),
{
    if a.len() != b.len() {
        return false;
    }
    let mut i: usize = 0;
    while i < a.len()
        invariant
            a@.len() == b@.len(),
            i <= a@.len(),
            a@.take(i as int) == b@.take(i as int),
        decreases a@.len() - i,
    {
        if a[i] != b[i] {
            proof {
                assert(a@[i as int] != b@[i as int]);
            }
            return false;
        }
        proof {
            assert(a@.take(i + 1) =~= a@.take(i as int).push(a@[i as int]));
            assert(b@.take(i + 1) =~= b@.take(i as int).push(b@[i as int]));
        }
        i = i + 1;
    }
    proof {
        assert(a@.take(i as int) =~= a@);
        assert(b@.take(i as int) =~= b@);
    }
    true
}

/// The timestamp, magic and description that a file's header record holds.
pub struct FileHeader {
    pub ts: i64,
    pub magic: String,
    pub desc: String,
}

/// What checking the header record at the start of `s` gives: the
/// timestamp and the bytes of the magic and description texts.
pub open spec fn file_header_spec(s: Seq<u8>, expect: Option<Seq<u8>>) -> Result<(i64, Seq<u8>, Seq<u8>), ReadError> {
    match parse_record_spec(s) {
        None => Err(ReadError::Truncated),
        Some((t, p, rest)) => if t != Type::ATTACH_BEGIN_VALUE {
            Err(ReadError::NotAttachBegin)
        } else {
            match i64_str2_spec(p) {
                Err(e) => Err(ReadError::BadHeader(e)),
                Ok((ts, m, d)) => if expect matches Some(e) && e != m {
                    Err(ReadError::MagicMismatch)
                } else {
                    Ok((ts, m, d))
                },
            }
        },
    }
}

/// Checks that the first record of `data` is the file header and, when
/// `expect` is given, that it names that magic string.
pub fn check_file_header(data: &[u8], expect: Option<&str>) -> (r: Result<FileHeader, ReadError>)
    ensures
        (match file_header_spec(data@, opt_bytes(expect)) {
            Ok((ts, m, d)) => r matches Ok(h) && h.ts == ts && encode_utf8_of(h.magic@) == m
                && encode_utf8_of(h.desc@) == d,
            Err(e) => r == Err::<FileHeader, ReadError>(e),
        }),
{
    match TagRef::parse_slice(data) {
        Ok((tag, _)) => {
            if tag.rtype().value() != Type::ATTACH_BEGIN_VALUE {
                return Err(ReadError::NotAttachBegin);
            }
            match tag.value().as_i64_str2() {
                Ok((ts, magic, desc)) => {
                    if let Some(e) = expect {
                        if !bytes_eq(e.as_bytes(), magic.as_bytes()) {
                            return Err(ReadError::MagicMismatch);
                        }
                    }
                    let m = magic.to_owned();
                    let d = desc.to_owned();
                    Ok(FileHeader { ts, magic: m, desc: d })
                },
                Err(e) => Err(ReadError::BadHeader(e)),
            }
        },
        Err(_) => Err(ReadError::Truncated),
    }
}

/// The bytes of an optional text.
pub open spec fn opt_bytes(s: Option<&str>) -> Option<Seq<u8>> {
    match s {
        Some(x) => Some(x.spec_bytes()),
        None => None,
    }
}

pub open spec fn encode_utf8_of(s: Seq<char>) -> Seq<u8> {
    vstd::utf8::encode_utf8(s)
}

/// Reads the records of one file held in memory, skipping `ATTACH_END`.
pub struct TlvFileSyncReader {
    data: Vec<u8>,
    pos: usize,
}

impl TlvFileSyncReader {
    pub closed spec fn spec_data(&self) -> Seq<u8> {
        self.data@
    }

    pub closed spec fn spec_pos(&self) -> nat {
        self.pos as nat
    }

    /// The bytes not read yet.
    pub open spec fn remaining(&self) -> Seq<u8> {
        self.spec_data().skip(self.spec_pos() as int)
    }

    pub open spec fn wf(&self) -> bool {
        self.spec_pos() <= self.spec_data().len()
    }

    /// Checks the file header (see `check_file_header`) and starts reading
    /// from the start of the file, so that the header is read again.
    pub fn open_with_magic(data: Vec<u8>, magic: Option<&str>) -> (r: Result<Self, ReadError>)
        ensures
            r matches Ok(rd) ==> rd.wf() && rd.spec_data() == data@ && rd.spec_pos() == 0,
            (match file_header_spec(data@, opt_bytes(magic)) {
                Ok(_) => r is Ok,
                Err(e) => r == Err::<TlvFileSyncReader, ReadError>(e),
            }),
    {
        match check_file_header(data.as_slice(), magic) {
            Ok(_) => Ok(Self { data, pos: 0 }),
            Err(e) => Err(e),
        }
    }

    /// The next record that is not `ATTACH_END`; `Truncated` at the end of
    /// the data or inside a record.
    pub fn read_next(&mut self) -> (r: Result<(Type, Vec<u8>), ReadError>)
        requires
            old(self).wf(),
        ensures
            final(self).wf(),
            final(self).spec_data() == old(self).spec_data(),
            r matches Ok((t, p)) ==> t.0 != Type::ATTACH_END_VALUE && next_record_spec(old(self).remaining()) == Some(
                (t.0, p@, final(self).remaining()),
            ),
            r is Err ==> next_record_spec(old(self).remaining()) is None
                && r == Err::<(Type, Vec<u8>), ReadError>(ReadError::Truncated),
            next_record_spec(old(self).remaining()) is None ==> r is Err,
    {
        loop
            invariant
                self.wf(),
                self.spec_data() == old(self).spec_data(),
                next_record_spec(self.remaining()) == next_record_spec(old(self).remaining()),
            decreases self.spec_data().len() - self.spec_pos(),
        {
            let (_, rest) = self.data.as_slice().split_at(self.pos);
            proof {
                assert(rest@ =~= self.remaining());
            }
            match TagRef::parse_slice(rest) {
                Ok((tag, tail)) => {
                    let t = tag.rtype();
                    let p = to_owned_bytes(tag.value().as_slice());
                    let ghost before = self.remaining();
                    self.pos = self.data.len() - tail.len();
                    proof {
                        assert(tail@ =~= self.remaining());
                        assert(tail@.len() < before.len());
                    }
                    if t.value() != Type::ATTACH_END_VALUE {
                        return Ok((t, p));
                    }
                },
                Err(_) => {
                    return Err(ReadError::Truncated);
                },
            }
        }
    }
}

/// The first record of `s` that is not `ATTACH_END`, with the bytes after it.
pub open spec fn next_record_spec(s: Seq<u8>) -> Option<(u8, Seq<u8>, Seq<u8>)>
    decreases s.len(),
{
    match parse_record_spec(s) {
        None => None,
        Some((t, p, rest)) => if t != Type::ATTACH_END_VALUE {
            Some((t, p, rest))
        } else if rest.len() < s.len() {
            next_record_spec(rest)
        } else {
            None
        },
    }
}

/// Reads several files, held in memory, as one stream of records: each file
/// must open with the header record, and the end of one file leads on to the
/// next.
pub struct TlvFileListReader {
    file_list: Vec<Vec<u8>>,
    next: usize,
    magic: Option<String>,
    state: Option<TlvFileSyncReader>,
}

impl TlvFileListReader {
    /// Number of files not opened yet.
    pub closed spec fn spec_left(&self) -> nat {
        (self.file_list@.len() - self.next) as nat
    }

    pub closed spec fn spec_state(&self) -> Option<TlvFileSyncReader> {
        self.state
    }

    /// The files not opened yet, in order.
    pub closed spec fn spec_files_left(&self) -> Seq<Seq<u8>> {
        crate::seg_buf::views(self.file_list@).skip(self.next as int)
    }

    /// What is left to read of the open file, if one is open.
    pub open spec fn spec_cur(&self) -> Option<Seq<u8>> {
        match self.spec_state() {
            Some(rd) => Some(rd.remaining()),
            None => None,
        }
    }

    /// The bytes of the magic that each file must name, if any.
    pub closed spec fn spec_magic(&self) -> Option<Seq<u8>> {
        match self.magic {
            Some(m) => Some(vstd::utf8::encode_utf8(m@)),
            None => None,
        }
    }

    pub closed spec fn wf(&self) -> bool {
        &&& self.next <= self.file_list@.len()
        &&& self.state matches Some(s) ==> s.wf()
    }

    /// A reader of the files in `file_list`, in that order.
    pub fn new(magic: Option<String>, file_list: Vec<Vec<u8>>) -> (r: Self)
        ensures
            r.wf(),
            r.spec_left() == file_list@.len(),
            r.spec_files_left() == crate::seg_buf::views(file_list@),
            r.spec_state() is None,
    {
        let r = Self { file_list, next: 0, magic, state: None };
        proof {
            assert(r.spec_files_left() =~= crate::seg_buf::views(file_list@));
        }
        r
    }

    /// Adds a file after the ones given so far, to be read once they are.
    pub fn add_file(&mut self, data: Vec<u8>)
        requires
            old(self).wf(),
        ensures
            final(self).wf(),
            final(self).spec_files_left() == old(self).spec_files_left().push(data@),
            final(self).spec_cur() == old(self).spec_cur(),
            final(self).spec_magic() == old(self).spec_magic(),
    {
        let ghost left = self.spec_files_left();
        self.file_list.push(data);
        proof {
            assert(self.spec_files_left() =~= left.push(data@));
        }
    }

    /// The next record of the stream, `None` once every file is read; when
    /// the open file is used up, the next file's header is checked, and a
    /// header that does not check is the error.
    pub fn read_next(&mut self) -> (r: Result<Option<(Type, Vec<u8>)>, ReadError>)
        requires
            old(self).wf(),
        ensures
            final(self).wf(),
            final(self).spec_magic() == old(self).spec_magic(),
            ({
                let (res, cur, left) = list_step(old(self).spec_cur(), old(self).spec_files_left(), old(self).spec_magic());
                &&& final(self).spec_cur() == cur
                &&& final(self).spec_files_left() == left
                &&& match res {
                    Ok(None) => r matches Ok(None),
                    Ok(Some((t, p))) => r matches Ok(Some((rt, rp))) && rt.0 == t && rp@ == p,
                    Err(e) => r == Err::<Option<(Type, Vec<u8>)>, ReadError>(e),
                }
            }),
    {
        loop
            invariant
                self.wf(),
                self.spec_magic() == old(self).spec_magic(),
                list_step(self.spec_cur(), self.spec_files_left(), self.spec_magic())
                    == list_step(old(self).spec_cur(), old(self).spec_files_left(), old(self).spec_magic()),
            decreases self.spec_files_left().len(), if self.spec_state() is Some { 1int } else { 0int },
        {
            match &mut self.state {
                Some(state) => {
                    let r = state.read_next();
                    if let Ok(rec) = r {
                        return Ok(Some(rec));
                    }
                },
                None => {},
            }
            if self.next >= self.file_list.len() {
                self.state = None;
                return Ok(None);
            }
            let data = crate::varint::slice_to_vec(self.file_list[self.next].as_slice());
            let ghost left = self.spec_files_left();
            proof {
                assert(data@ == left[0]);
            }
            self.next = self.next + 1;
            proof {
                assert(self.spec_files_left() =~= left.drop_first());
            }
            let m: Option<&str> = match &self.magic {
                Some(s) => Some(s.as_str()),
                None => None,
            };
            proof {
                assert(crate::decoder::opt_bytes(m) == self.spec_magic());
            }
            match TlvFileSyncReader::open_with_magic(data, m) {
                Ok(rd) => {
                    self.state = Some(rd);
                    proof {
                        assert(self.spec_cur()->0 =~= left[0]);
                    }
                },
                Err(e) => {
                    self.state = None;
                    return Err(e);
                },
            }
        }
    }
}

/// One read from a list of files: the result, then what is left of the
/// open file and the files not opened yet.
pub open spec fn list_step(cur: Option<Seq<u8>>, left: Seq<Seq<u8>>, magic: Option<Seq<u8>>)
    -> (Result<Option<(u8, Seq<u8>)>, ReadError>, Option<Seq<u8>>, Seq<Seq<u8>>)
    decreases left.len(), if cur is Some { 1int } else { 0int },
{
    let used_up = match cur {
        Some(rem) => next_record_spec(rem) is None,
        None => true,
    };
    if !used_up {
        let (t, p, rest) = next_record_spec(cur->0)->0;
        (Ok(Some((t, p))), Some(rest), left)
    } else if left.len() == 0 {
        (Ok(None), None, left)
    } else {
        match file_header_spec(left[0], magic) {
            Err(e) => (Err(e), None, left.drop_first()),
            Ok(_) => list_step(Some(left[0]), left.drop_first(), magic),
        }
    }
}

} // verus!
