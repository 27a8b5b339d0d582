//! Record framing: a one-byte type and a three-byte big-endian length in
//! front of each payload.
use vstd::prelude::*;

verus! {

/// Longest payload a single record can carry.
pub const MAX_RECORD_LEN: usize = 0xFF_FFFF;

/// The type byte of a record. Values below `Type::CUSTOM_VALUE` are reserved
/// for the framing itself.
#[derive(Debug, Clone, Copy, PartialEq, Eq, Structural, PartialOrd, Ord, Hash)]
pub struct Type(pub u8);

pub type TypeRaw = u8;

impl Type {
    pub const MAGIC_VALUE: u8 = 1;

    pub const ATTACH_BEGIN_VALUE: u8 = 2;

    pub const ATTACH_END_VALUE: u8 = 3;

    pub const FILE_END_VALUE: u8 = 4;

    /// Debug text; kept apart from `FILE_END_VALUE` so that it never ends a file.
    pub const DEBUG_VALUE: u8 = 5;

    pub const BUILD_IN_START_VALUE: u8 = 1;

    pub const BUILD_IN_END_VALUE: u8 = 6;

    pub const CUSTOM_VALUE: u8 = 16;

    pub fn magic() -> (r: Type)
        ensures
            r.spec_value() == Self::MAGIC_VALUE,
    {
        Type(Self::MAGIC_VALUE)
    }

    pub fn attach_begin() -> (r: Type)
        ensures
            r.spec_value() == Self::ATTACH_BEGIN_VALUE,
    {
        Type(Self::ATTACH_BEGIN_VALUE)
    }

    pub fn attach_end() -> (r: Type)
        ensures
            r.spec_value() == Self::ATTACH_END_VALUE,
    {
        Type(Self::ATTACH_END_VALUE)
    }

    pub fn file_end() -> (r: Type)
        ensures
            r.spec_value() == Self::FILE_END_VALUE,
    {
        Type(Self::FILE_END_VALUE)
    }

    pub fn debug() -> (r: Type)
        ensures
            r.spec_value() == Self::DEBUG_VALUE,
    {
        Type(Self::DEBUG_VALUE)
    }

    pub fn custom() -> (r: Type)
        ensures
            r.spec_value() == Self::CUSTOM_VALUE,
    {
        Type(Self::CUSTOM_VALUE)
    }

    pub open spec fn spec_value(&self) -> u8 {
        self.0
    }

    pub fn new(v: TypeRaw) -> (r: Self)
        ensures
            r.spec_value() == v,
    {
        Type(v)
    }

    pub fn value(&self) -> (r: u8)
        ensures
            r == self.spec_value(),
    {
        self.0
    }

    /// Reserved for the framing (below `CUSTOM_VALUE`).
    pub fn is_build_in(&self) -> (r: bool)
        ensures
            r == (self.spec_value() < Self::CUSTOM_VALUE),
    {
        self.0 < Self::CUSTOM_VALUE
    }

    pub fn is_debug_data(&self) -> (r: bool)
        ensures
            r == (self.spec_value() == Self::DEBUG_VALUE),
    {
        self.0 == Self::DEBUG_VALUE
    }

    /// The built-in types, from `BUILD_IN_START` up to but not including
    /// `BUILD_IN_END`.
    pub fn build_in_iter() -> (r: Vec<Type>)
        ensures
            r@.len() == 5,
            forall|i: int| 0 <= i < 5 ==> r@[i].spec_value() == i + 1,
    {
        let mut r: Vec<Type> = Vec::new();
        let mut v: u8 = 1;
        while v < 6
            invariant
                1 <= v <= 6,
                r@.len() == v - 1,
                forall|i: int| 0 <= i < r@.len() ==> r@[i].spec_value() == i + 1,
            decreases 6 - v,
        {
            r.push(Type(v));
            v = v + 1;
        }
        r
    }
}

/// The four header bytes of a record of type `t` and payload length `len`.
pub open spec fn header_spec(t: u8, len: nat) -> Seq<u8> {
    seq![t, ((len / 0x1_0000) % 0x100) as u8, ((len / 0x100) % 0x100) as u8, (len % 0x100) as u8]
}

/// A whole record: header, then payload.
pub open spec fn record_spec(t: u8, payload: Seq<u8>) -> Seq<u8> {
    header_spec(t, payload.len()) + payload
}

/// Records one after another.
pub open spec fn records_spec(rs: Seq<(u8, Seq<u8>)>) -> Seq<u8>
    decreases rs.len(),
{
    if rs.len() == 0 {
        Seq::empty()
    } else {
        record_spec(rs[0].0, rs[0].1) + records_spec(rs.drop_first())
    }
}

/// The payload length that the header at the start of `s` announces.
pub open spec fn header_len_spec(s: Seq<u8>) -> nat {
    s[1] as nat * 0x1_0000 + s[2] as nat * 0x100 + s[3] as nat
}

/// Splits the first record off `s`: its type, payload and what follows;
/// `None` when `s` does not start with a whole record.
pub open spec fn parse_record_spec(s: Seq<u8>) -> Option<(u8, Seq<u8>, Seq<u8>)> {
    if s.len() < 4 || 4 + header_len_spec(s) > s.len() {
        None
    } else {
        let end = 4 + header_len_spec(s);
        Some((s[0], s.subrange(4, end as int), s.subrange(end as int, s.len() as int)))
    }
}

/// Reads records until `s` is used up; `None` when it ends inside a record.
pub open spec fn parse_records_spec(s: Seq<u8>) -> Option<Seq<(u8, Seq<u8>)>>
    decreases s.len(),
{
    if s.len() == 0 {
        Some(Seq::empty())
    } else {
        match parse_record_spec(s) {
            None => None,
            Some((t, p, rest)) => match parse_records_spec(rest) {
                None => None,
                Some(rs) => Some(seq![(t, p)] + rs),
            },
        }
    }
}

/// The header of a record with a payload that fits announces its length.
pub proof fn lemma_header_len(t: u8, len: nat, rest: Seq<u8>)
    requires
        len <= MAX_RECORD_LEN,
    ensures
        header_len_spec(header_spec(t, len) + rest) == len,
        (header_spec(t, len) + rest)[0] == t,
{
    let s = header_spec(t, len) + rest;
    assert(s[1] == ((len / 0x1_0000) % 0x100) as u8);
    assert(s[2] == ((len / 0x100) % 0x100) as u8);
    assert(s[3] == (len % 0x100) as u8);
}

/// A record followed by anything parses back into its type, its payload and
/// what followed.
pub proof fn lemma_parse_record(t: u8, p: Seq<u8>, rest: Seq<u8>)
    requires
        p.len() <= MAX_RECORD_LEN,
    ensures
        parse_record_spec(record_spec(t, p) + rest) == Some((t, p, rest)),
{
    let s = record_spec(t, p) + rest;
    assert(s =~= header_spec(t, p.len()) + (p + rest));
    lemma_header_len(t, p.len(), p + rest);
    assert(s.subrange(4, 4 + p.len() as int) =~= p);
    assert(s.subrange(4 + p.len() as int, s.len() as int) =~= rest);
}

/// Encoding any sequence of records whose payloads fit, and reading the bytes
/// back, gives the same sequence.
pub proof fn lemma_records_round_trip(rs: Seq<(u8, Seq<u8>)>)
    requires
        forall|i: int| 0 <= i < rs.len() ==> #[trigger] rs[i].1.len() <= MAX_RECORD_LEN,
    ensures
        parse_records_spec(records_spec(rs)) == Some(rs),
    decreases rs.len(),
{
    if rs.len() > 0 {
        let tail = rs.drop_first();
        assert forall|i: int| 0 <= i < tail.len() implies #[trigger] tail[i].1.len() <= MAX_RECORD_LEN by {
            assert(tail[i] == rs[i + 1]);
        }
        lemma_records_round_trip(tail);
        lemma_parse_record(rs[0].0, rs[0].1, records_spec(tail));
        assert(records_spec(rs).len() > 0);
        assert(seq![(rs[0].0, rs[0].1)] + tail =~= rs);
    }
}

/// Appending a record appends its bytes.
pub proof fn lemma_records_push(rs: Seq<(u8, Seq<u8>)>, t: u8, p: Seq<u8>)
    ensures
        records_spec(rs.push((t, p))) == records_spec(rs) + record_spec(t, p),
    decreases rs.len(),
{
    if rs.len() == 0 {
        assert(rs.push((t, p)).drop_first() =~= Seq::<(u8, Seq<u8>)>::empty());
        assert(records_spec(Seq::<(u8, Seq<u8>)>::empty()) == Seq::<u8>::empty());
        assert(rs.push((t, p))[0] == (t, p));
        assert(records_spec(rs) == Seq::<u8>::empty());
        assert(records_spec(rs.push((t, p))) =~= record_spec(t, p));
    } else {
        assert(rs.push((t, p)).drop_first() =~= rs.drop_first().push((t, p)));
        lemma_records_push(rs.drop_first(), t, p);
        assert(records_spec(rs.push((t, p))) =~= records_spec(rs) + record_spec(t, p));
    }
}

/// A record header: type and payload length.
pub struct Header(pub Type, pub u32);

impl Header {
    pub const SIZE: usize = 4;

    /// The header's four bytes; the length must fit in three bytes.
    pub fn to_bytes(&self) -> (r: [u8; 4])
        requires
            self.1 <= MAX_RECORD_LEN,
        ensures
            r@ == header_spec(self.0.spec_value(), self.1 as nat),
    {
        let len = self.1;
        let r: [u8; 4] = [self.0.value(), ((len / 0x1_0000) % 0x100) as u8, ((len / 0x100) % 0x100) as u8, (len % 0x100) as u8];
        proof {
            assert(r@ =~= header_spec(self.0.spec_value(), self.1 as nat));
        }
        r
    }

    /// Type and payload length from the first four bytes of `buf`, or `None`
    /// when it is shorter.
    pub fn try_parse(buf: &[u8]) -> (r: Option<(Type, usize)>)
        ensures
            buf@.len() < 4 ==> r is None,
            buf@.len() >= 4 ==> r == Some((Type(buf@[0]), header_len_spec(buf@) as usize)),
            buf@.len() >= 4 ==> header_len_spec(buf@) <= MAX_RECORD_LEN,
    {
        if buf.len() >= Self::SIZE {
            Some(Self::parse_buf(buf))
        } else {
            None
        }
    }

    /// Type and payload length from the first four bytes of `buf`.
    pub fn parse_buf(buf: &[u8]) -> (r: (Type, usize))
        requires
            buf@.len() >= 4,
        ensures
            r == (Type(buf@[0]), header_len_spec(buf@) as usize),
            header_len_spec(buf@) <= MAX_RECORD_LEN,
    {
        let len: usize = (buf[1] as usize) * 0x1_0000 + (buf[2] as usize) * 0x100 + (buf[3] as usize);
        (Type(buf[0]), len)
    }
}

} // verus!
