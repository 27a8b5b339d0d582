//! Reading records and the fields inside their payloads.
use vstd::prelude::*;
use vstd::utf8::valid_utf8;
use vstd::string::StringSliceAdditionalSpecFns;
use crate::header::{Type, Header, MAX_RECORD_LEN, header_len_spec, parse_record_spec};
use crate::varint::{
    decode_varint32, decode_varint64, decode_zig_zag_64, varint_decode_spec, unzigzag_spec,
};

verus! {

/// Relies on `std::str::from_utf8`: it accepts exactly the valid UTF-8 byte
/// sequences, and the string it returns has those bytes.
#[verifier::external_body]
pub(crate) fn utf8_str<'a>(b: &'a [u8]) -> (r: Option<&'a str>)
    ensures
        r is Some <==> valid_utf8(b@),
        r matches Some(s) ==> s.spec_bytes() == b@,
{
    match std::str::from_utf8(b) {
        Ok(s) => Some(s),
        Err(_) => None,
    }
}

/// `256` raised to `k`.
pub open spec fn pow256(k: nat) -> nat
    decreases k,
{
    if k == 0 {
        1
    } else {
        256 * pow256((k - 1) as nat)
    }
}

/// The unsigned big-endian number held in `s`.
pub open spec fn be_value(s: Seq<u8>) -> nat
    decreases s.len(),
{
    if s.len() == 0 {
        0
    } else {
        be_value(s.drop_last()) * 256 + s.last() as nat
    }
}

/// The signed value of 64 bits in two's complement.
pub open spec fn i64_of_bits(u: nat) -> int {
    if u < 0x8000_0000_0000_0000 {
        u as int
    } else {
        u as int - 0x1_0000_0000_0000_0000
    }
}

/// A unit: a varint length, then that many bytes. Gives the bytes and what
/// follows, or `None` when `s` does not start with a whole unit.
pub open spec fn unit_spec(s: Seq<u8>) -> Option<(Seq<u8>, Seq<u8>)> {
    match varint_decode_spec(s, 5, u32::MAX as nat) {
        Some(Some((l, n))) => if n + l <= s.len() {
            Some((s.subrange(n as int, (n + l) as int), s.subrange((n + l) as int, s.len() as int)))
        } else {
            None
        },
        _ => None,
    }
}

/// Splits `s` into consecutive units; `None` when something is left over.
pub open spec fn units_spec(s: Seq<u8>) -> Option<Seq<Seq<u8>>>
    decreases s.len(),
{
    if s.len() == 0 {
        Some(Seq::empty())
    } else {
        match unit_spec(s) {
            Some((u, rest)) => if rest.len() < s.len() {
                match units_spec(rest) {
                    Some(us) => Some(seq![u] + us),
                    None => None,
                }
            } else {
                None
            },
            None => None,
        }
    }
}

/// What `as_i64_str2` gives for the payload `d`: the value, then the bytes
/// of the two texts.
pub open spec fn i64_str2_spec(d: Seq<u8>) -> Result<(i64, Seq<u8>, Seq<u8>), ValueError> {
    if d.len() < 8 {
        Err(ValueError::TooShort)
    } else {
        match unit_spec(d.skip(8)) {
            None => Err(ValueError::BadVarint),
            Some((m, rest)) => if !valid_utf8(m) || !valid_utf8(rest) {
                Err(ValueError::BadUtf8)
            } else {
                Ok((i64_of_bits(be_value(d.take(8))) as i64, m, rest))
            },
        }
    }
}

/// A field that could not be read from a payload.
#[derive(Debug, Clone, Copy, PartialEq, Eq, Structural)]
pub enum ValueError {
    /// Fewer bytes left than the field needs.
    TooShort,
    /// A varint or unit length that does not decode.
    BadVarint,
    /// Text that is not UTF-8.
    BadUtf8,
    /// Bytes left after the last expected field.
    Trailing,
}

proof fn lemma_be_bound(s: Seq<u8>)
    ensures
        be_value(s) < pow256(s.len()),
    decreases s.len(),
{
    if s.len() > 0 {
        lemma_be_bound(s.drop_last());
        let p = pow256((s.len() - 1) as nat);
        let v = be_value(s.drop_last());
        assert(v * 256 + s.last() < 256 * p) by (nonlinear_arith)
            requires
                v < p,
                s.last() < 256,
        ;
    }
}

/// The big-endian number in the first `n` bytes of `s`.
fn read_be(s: &[u8], n: usize) -> (r: u64)
    requires
        n <= 8,
        n <= s@.len(),
    ensures
        r == be_value(s@.take(n as int)),
{
    let mut acc: u64 = 0;
    let mut i: usize = 0;
    proof {
        assert(s@.take(0) =~= Seq::<u8>::empty());
        assert(pow256(0) == 1);
        assert(pow256(1) == 256);
        assert(pow256(2) == 0x1_0000);
        assert(pow256(3) == 0x100_0000);
        assert(pow256(4) == 0x1_0000_0000);
        assert(pow256(5) == 0x100_0000_0000);
        assert(pow256(6) == 0x1_0000_0000_0000);
        assert(pow256(7) == 0x100_0000_0000_0000);
        assert(pow256(8) == 0x1_0000_0000_0000_0000);
    }
    while i < n
        invariant
            i <= n <= 8,
            n <= s@.len(),
            acc == be_value(s@.take(i as int)),
            pow256(8) == 0x1_0000_0000_0000_0000,
        decreases n - i,
    {
        proof {
            lemma_be_bound(s@.take(i as int));
            lemma_pow256_mono(i as nat, 7);
            assert(s@.take(i + 1).drop_last() =~= s@.take(i as int));
            assert(acc * 256 + 255 < 0x1_0000_0000_0000_0000) by (nonlinear_arith)
                requires
                    acc < pow256(i as nat),
                    pow256(i as nat) <= pow256(7),
                    pow256(8) == 256 * pow256(7),
                    pow256(8) == 0x1_0000_0000_0000_0000,
            ;
        }
        acc = acc * 256 + s[i] as u64;
        i = i + 1;
    }
    acc
}

proof fn lemma_pow256_mono(a: nat, b: nat)
    requires
        a <= b,
    ensures
        pow256(a) <= pow256(b),
    decreases b,
{
    if a < b {
        lemma_pow256_mono(a, (b - 1) as nat);
    }
}

/// Reinterprets 64 bits as a signed value.
fn i64_from_bits(u: u64) -> (r: i64)
    ensures
        r == i64_of_bits(u as nat),
{
    if u <= 0x7FFF_FFFF_FFFF_FFFF {
        u as i64
    } else {
        ((u - 0x8000_0000_0000_0000) as i64) - 0x7FFF_FFFF_FFFF_FFFF - 1
    }
}

/// Splits a unit off the front of `data`.
fn cut_unit_of<'a>(data: &'a [u8]) -> (r: Option<(&'a [u8], &'a [u8])>)
    ensures
        (match unit_spec(data@) {
            None => r is None,
            Some((u, rest)) => r matches Some((a, b)) && a@ == u && b@ == rest,
        }),
{
    proof {
        crate::varint::lemma_unit_shrinks(data@);
    }
    match decode_varint32(data) {
        Ok(Some((len, pos))) => {
            if len as usize <= data.len() - pos {
                let (_, tail) = data.split_at(pos);
                let (unit, rest) = tail.split_at(len as usize);
                proof {
                    assert(unit@ =~= data@.subrange(pos as int, pos + len));
                    assert(rest@ =~= data@.subrange(pos + len, data@.len() as int));
                }
                Some((unit, rest))
            } else {
                None
            }
        },
        _ => None,
    }
}

/// One record read from a byte slice: its type and payload.
pub struct TagRef<'a> {
    rtype: Type,
    data: &'a [u8],
}

impl<'a> TagRef<'a> {
    pub closed spec fn spec_rtype(&self) -> Type {
        self.rtype
    }

    pub closed spec fn spec_data(&self) -> Seq<u8> {
        self.data@
    }

    pub fn new(rtype: Type, data: &'a [u8]) -> (r: Self)
        ensures
            r.spec_rtype() == rtype,
            r.spec_data() == data@,
    {
        Self { rtype, data }
    }

    /// Reads the record at the start of `buf` and returns it with the bytes
    /// that follow; fails when `buf` does not start with a whole record.
    pub fn parse_slice(buf: &'a [u8]) -> (r: Result<(Self, &'a [u8]), ()>)
        ensures
            (match parse_record_spec(buf@) {
                None => r is Err,
                Some((t, p, rest)) => r matches Ok((tag, tail)) && tag.spec_rtype().spec_value() == t
                    && tag.spec_data() == p && tail@ == rest,
            }),
    {
        match Header::try_parse(buf) {
            Some((rtype, len)) => {
                if len > buf.len() - Header::SIZE {
                    return Err(());
                }
                let (_, tail) = buf.split_at(Header::SIZE);
                let (value, remaining) = tail.split_at(len);
                proof {
                    assert(value@ =~= buf@.subrange(4, 4 + len));
                    assert(remaining@ =~= buf@.subrange(4 + len, buf@.len() as int));
                }
                Ok((Self::new(rtype, value), remaining))
            },
            None => Err(()),
        }
    }

    /// Header and payload size.
    pub fn full_len(&self) -> (r: usize)
        requires
            self.spec_data().len() + 4 <= usize::MAX,
        ensures
            r == Header::SIZE + self.spec_data().len(),
    {
        Header::SIZE + self.data.len()
    }

    /// Whether this record ends its value: a record of the maximum length
    /// may be continued by the next one of the same type.
    pub fn is_last(&self) -> (r: bool)
        ensures
            r == (self.spec_data().len() < MAX_RECORD_LEN),
    {
        self.data.len() < MAX_RECORD_LEN
    }

    pub fn rtype(&self) -> (r: Type)
        ensures
            r == self.spec_rtype(),
    {
        self.rtype
    }

    pub fn value(&self) -> (r: ValueRef<'a>)
        ensures
            r.spec_data() == self.spec_data(),
    {
        ValueRef::new(self.data)
    }
}

/// A payload being read field by field from the front.
#[derive(Clone, Copy)]
pub struct ValueRef<'a> {
    data: &'a [u8],
}

impl<'a> ValueRef<'a> {
    /// The bytes not yet read.
    pub closed spec fn spec_data(&self) -> Seq<u8> {
        self.data@
    }

    pub fn new(data: &'a [u8]) -> (r: Self)
        ensures
            r.spec_data() == data@,
    {
        Self { data }
    }

    pub fn as_slice(&self) -> (r: &'a [u8])
        ensures
            r@ == self.spec_data(),
    {
        self.data
    }

    fn cut_slice_origin(&mut self, n: usize) -> (r: Result<&'a [u8], ValueError>)
        ensures
            old(self).spec_data().len() < n ==> r == Err::<&'a [u8], ValueError>(ValueError::TooShort)
                && final(self).spec_data() == old(self).spec_data(),
            old(self).spec_data().len() >= n ==> (r matches Ok(c) && c@ == old(self).spec_data().take(n as int)
                && final(self).spec_data() == old(self).spec_data().skip(n as int)),
    {
        if self.data.len() < n {
            return Err(ValueError::TooShort);
        }
        let (cut, rest) = self.data.split_at(n);
        self.data = rest;
        proof {
            assert(cut@ =~= old(self).spec_data().take(n as int));
            assert(rest@ =~= old(self).spec_data().skip(n as int));
        }
        Ok(cut)
    }

    /// Takes the next `n` bytes.
    pub fn cut_slice(&mut self, n: usize) -> (r: Result<&'a [u8], ValueError>)
        ensures
            old(self).spec_data().len() < n ==> r == Err::<&'a [u8], ValueError>(ValueError::TooShort)
                && final(self).spec_data() == old(self).spec_data(),
            old(self).spec_data().len() >= n ==> (r matches Ok(c) && c@ == old(self).spec_data().take(n as int)
                && final(self).spec_data() == old(self).spec_data().skip(n as int)),
    {
        self.cut_slice_origin(n)
    }

    /// Takes a big-endian signed 64-bit value.
    pub fn cut_i64(&mut self) -> (r: Result<i64, ValueError>)
        ensures
            old(self).spec_data().len() < 8 ==> r == Err::<i64, ValueError>(ValueError::TooShort)
                && final(self).spec_data() == old(self).spec_data(),
            old(self).spec_data().len() >= 8 ==> r == Ok::<i64, ValueError>(
                i64_of_bits(be_value(old(self).spec_data().take(8))) as i64)
                && final(self).spec_data() == old(self).spec_data().skip(8),
    {
        let cut = self.cut_slice_origin(8)?;
        let u = read_be(cut, 8);
        proof {
            assert(cut@.take(8) =~= cut@);
        }
        Ok(i64_from_bits(u))
    }

    /// A timestamp in milliseconds, as `cut_i64`.
    pub fn cut_milli(&mut self) -> (r: Result<i64, ValueError>)
        ensures
            old(self).spec_data().len() < 8 ==> r == Err::<i64, ValueError>(ValueError::TooShort)
                && final(self).spec_data() == old(self).spec_data(),
            old(self).spec_data().len() >= 8 ==> r == Ok::<i64, ValueError>(
                i64_of_bits(be_value(old(self).spec_data().take(8))) as i64)
                && final(self).spec_data() == old(self).spec_data().skip(8),
    {
        self.cut_i64()
    }

    /// Takes a big-endian unsigned 64-bit value.
    pub fn cut_u64(&mut self) -> (r: Result<u64, ValueError>)
        ensures
            old(self).spec_data().len() < 8 ==> r == Err::<u64, ValueError>(ValueError::TooShort)
                && final(self).spec_data() == old(self).spec_data(),
            old(self).spec_data().len() >= 8 ==> r == Ok::<u64, ValueError>(
                be_value(old(self).spec_data().take(8)) as u64)
                && final(self).spec_data() == old(self).spec_data().skip(8),
    {
        let cut = self.cut_slice_origin(8)?;
        proof {
            assert(cut@.take(8) =~= cut@);
        }
        Ok(read_be(cut, 8))
    }

    /// Takes a byte; any value but zero is true.
    pub fn cut_bool(&mut self) -> (r: Result<bool, ValueError>)
        ensures
            old(self).spec_data().len() < 1 ==> r == Err::<bool, ValueError>(ValueError::TooShort)
                && final(self).spec_data() == old(self).spec_data(),
            old(self).spec_data().len() >= 1 ==> r == Ok::<bool, ValueError>(old(self).spec_data()[0] != 0)
                && final(self).spec_data() == old(self).spec_data().skip(1),
    {
        let cut = self.cut_slice_origin(1)?;
        Ok(cut[0] != 0)
    }

    pub fn cut_u8(&mut self) -> (r: Result<u8, ValueError>)
        ensures
            old(self).spec_data().len() < 1 ==> r == Err::<u8, ValueError>(ValueError::TooShort)
                && final(self).spec_data() == old(self).spec_data(),
            old(self).spec_data().len() >= 1 ==> r == Ok::<u8, ValueError>(old(self).spec_data()[0])
                && final(self).spec_data() == old(self).spec_data().skip(1),
    {
        let cut = self.cut_slice_origin(1)?;
        Ok(cut[0])
    }

    /// Takes a big-endian 16-bit value.
    pub fn cut_u16(&mut self) -> (r: Result<u16, ValueError>)
        ensures
            old(self).spec_data().len() < 2 ==> r == Err::<u16, ValueError>(ValueError::TooShort)
                && final(self).spec_data() == old(self).spec_data(),
            old(self).spec_data().len() >= 2 ==> r == Ok::<u16, ValueError>(
                (old(self).spec_data()[0] as nat * 256 + old(self).spec_data()[1] as nat) as u16)
                && final(self).spec_data() == old(self).spec_data().skip(2),
    {
        let cut = self.cut_slice_origin(2)?;
        Ok((cut[0] as u16) * 256 + cut[1] as u16)
    }

    /// Takes a unit: a varint length and that many bytes.
    pub fn cut_unit(&mut self) -> (r: Result<&'a [u8], ValueError>)
        ensures
            (match unit_spec(old(self).spec_data()) {
                None => r == Err::<&'a [u8], ValueError>(ValueError::BadVarint)
                    && final(self).spec_data() == old(self).spec_data(),
                Some((u, rest)) => r matches Ok(c) && c@ == u && final(self).spec_data() == rest,
            }),
    {
        match cut_unit_of(self.data) {
            Some((unit, rest)) => {
                self.data = rest;
                Ok(unit)
            },
            None => Err(ValueError::BadVarint),
        }
    }

    /// Takes a unit that holds UTF-8 text.
    pub fn cut_str(&mut self) -> (r: Result<&'a str, ValueError>)
        ensures
            (match unit_spec(old(self).spec_data()) {
                None => r == Err::<&'a str, ValueError>(ValueError::BadVarint)
                    && final(self).spec_data() == old(self).spec_data(),
                Some((u, rest)) => if valid_utf8(u) {
                    r matches Ok(s) && s.spec_bytes() == u && final(self).spec_data() == rest
                } else {
                    r == Err::<&'a str, ValueError>(ValueError::BadUtf8) && final(self).spec_data() == rest
                },
            }),
    {
        let unit = self.cut_unit()?;
        match utf8_str(unit) {
            Some(s) => Ok(s),
            None => Err(ValueError::BadUtf8),
        }
    }

    /// Takes an unsigned varint.
    pub fn cut_var_u64(&mut self) -> (r: Result<u64, ValueError>)
        ensures
            (match varint_decode_spec(old(self).spec_data(), 10, u64::MAX as nat) {
                Some(Some((v, n))) => r == Ok::<u64, ValueError>(v as u64)
                    && final(self).spec_data() == old(self).spec_data().skip(n as int),
                _ => r == Err::<u64, ValueError>(ValueError::BadVarint)
                    && final(self).spec_data() == old(self).spec_data(),
            }),
    {
        match decode_varint64(self.data) {
            Ok(Some((v, n))) => {
                proof {
                    crate::varint::lemma_decoded_len(self.data@, 10, u64::MAX as nat);
                }
                let (_, rest) = self.data.split_at(n);
                self.data = rest;
                proof {
                    assert(rest@ =~= old(self).spec_data().skip(n as int));
                }
                Ok(v)
            },
            _ => Err(ValueError::BadVarint),
        }
    }

    /// Takes a zigzag-mapped signed varint.
    pub fn cut_var_i64(&mut self) -> (r: Result<i64, ValueError>)
        ensures
            (match varint_decode_spec(old(self).spec_data(), 10, u64::MAX as nat) {
                Some(Some((v, n))) => r == Ok::<i64, ValueError>(unzigzag_spec(v) as i64)
                    && final(self).spec_data() == old(self).spec_data().skip(n as int),
                _ => r == Err::<i64, ValueError>(ValueError::BadVarint)
                    && final(self).spec_data() == old(self).spec_data(),
            }),
    {
        let v = self.cut_var_u64()?;
        Ok(decode_zig_zag_64(v))
    }

    /// The whole payload as a signed 64-bit value, with nothing after it.
    pub fn as_i64(&self) -> (r: Result<i64, ValueError>)
        ensures
            self.spec_data().len() < 8 ==> r == Err::<i64, ValueError>(ValueError::TooShort),
            self.spec_data().len() > 8 ==> r == Err::<i64, ValueError>(ValueError::Trailing),
            self.spec_data().len() == 8 ==> r == Ok::<i64, ValueError>(i64_of_bits(be_value(self.spec_data())) as i64),
    {
        let mut v = *self;
        let x = v.cut_i64()?;
        if v.data.len() != 0 {
            return Err(ValueError::Trailing);
        }
        proof {
            assert(self.spec_data().take(8) =~= self.spec_data());
        }
        Ok(x)
    }

    /// The whole payload as UTF-8 text.
    pub fn as_str(&self) -> (r: Result<&'a str, ValueError>)
        ensures
            r is Ok <==> valid_utf8(self.spec_data()),
            r matches Ok(s) ==> s.spec_bytes() == self.spec_data(),
            r is Err ==> r == Err::<&'a str, ValueError>(ValueError::BadUtf8),
    {
        match utf8_str(self.data) {
            Some(s) => Ok(s),
            None => Err(ValueError::BadUtf8),
        }
    }

    /// A signed 64-bit value, then UTF-8 text to the end.
    pub fn as_i64_str(&self) -> (r: Result<(i64, &'a str), ValueError>)
        ensures
            self.spec_data().len() < 8 ==> r == Err::<(i64, &'a str), ValueError>(ValueError::TooShort),
            self.spec_data().len() >= 8 ==> (r is Ok <==> valid_utf8(self.spec_data().skip(8))),
            r matches Ok((v, s)) ==> v == i64_of_bits(be_value(self.spec_data().take(8))) as i64
                && s.spec_bytes() == self.spec_data().skip(8),
    {
        let mut v = *self;
        let x = v.cut_i64()?;
        let s = v.as_str()?;
        Ok((x, s))
    }

    /// A signed 64-bit value, a text unit, then text to the end: the layout
    /// of the header record that opens a file.
    pub fn as_i64_str2(&self) -> (r: Result<(i64, &'a str, &'a str), ValueError>)
        ensures
            (match i64_str2_spec(self.spec_data()) {
                Ok((v, m, d)) => r matches Ok((a, b, c)) && a == v && b.spec_bytes() == m && c.spec_bytes() == d,
                Err(e) => r == Err::<(i64, &'a str, &'a str), ValueError>(e),
            }),
    {
        let mut v = *self;
        let x = v.cut_i64()?;
        let s1 = v.cut_str()?;
        let s2 = v.as_str()?;
        Ok((x, s1, s2))
    }

    /// Same as `as_i64_str2`: timestamp, magic text and description.
    pub fn as_magic(&self) -> (r: Result<(i64, &'a str, &'a str), ValueError>)
        ensures
            (match i64_str2_spec(self.spec_data()) {
                Ok((v, m, d)) => r matches Ok((a, b, c)) && a == v && b.spec_bytes() == m && c.spec_bytes() == d,
                Err(e) => r == Err::<(i64, &'a str, &'a str), ValueError>(e),
            }),
    {
        self.as_i64_str2()
    }

    /// Exactly two text units.
    pub fn as_ustr2(&self) -> (r: Result<(&'a str, &'a str), ValueError>)
        ensures
            r matches Ok((s1, s2)) ==> {
                &&& unit_spec(self.spec_data()) matches Some((u1, rest1))
                &&& unit_spec(rest1) matches Some((u2, rest2))
                &&& rest2.len() == 0
                &&& s1.spec_bytes() == u1
                &&& s2.spec_bytes() == u2
            },
            ({
                (unit_spec(self.spec_data()) matches Some((u1, rest1)) && unit_spec(rest1) matches Some((u2, rest2))
                    && rest2.len() == 0 && valid_utf8(u1) && valid_utf8(u2)) ==> r is Ok
            }),
    {
        let mut v = *self;
        let s1 = v.cut_str()?;
        let s2 = v.cut_str()?;
        if v.data.len() != 0 {
            return Err(ValueError::Trailing);
        }
        Ok((s1, s2))
    }

    /// Exactly two units.
    pub fn as_units2(&self) -> (r: Result<(&'a [u8], &'a [u8]), ValueError>)
        ensures
            (match unit_spec(self.spec_data()) {
                Some((u1, rest1)) => match unit_spec(rest1) {
                    Some((u2, rest2)) => if rest2.len() == 0 {
                        r matches Ok((a, b)) && a@ == u1 && b@ == u2
                    } else {
                        r == Err::<(&'a [u8], &'a [u8]), ValueError>(ValueError::Trailing)
                    },
                    None => r == Err::<(&'a [u8], &'a [u8]), ValueError>(ValueError::BadVarint),
                },
                None => r == Err::<(&'a [u8], &'a [u8]), ValueError>(ValueError::BadVarint),
            }),
    {
        let mut v = *self;
        let a = v.cut_unit()?;
        let b = v.cut_unit()?;
        if v.data.len() != 0 {
            return Err(ValueError::Trailing);
        }
        Ok((a, b))
    }

    /// The whole payload as a list of units.
    pub fn as_units(&self) -> (r: Result<UnitsRef<'a>, ValueError>)
        ensures
            (match units_spec(self.spec_data()) {
                Some(us) => r matches Ok(u) && u.spec_data() == self.spec_data() && u.spec_num() == us.len(),
                None => r == Err::<UnitsRef<'a>, ValueError>(ValueError::Trailing),
            }),
    {
        UnitsRef::parse(self.data)
    }
}

/// A payload made of units, with their count.
#[derive(Clone, Copy)]
pub struct UnitsRef<'a> {
    data: &'a [u8],
    num: usize,
}

impl<'a> UnitsRef<'a> {
    pub closed spec fn spec_data(&self) -> Seq<u8> {
        self.data@
    }

    pub closed spec fn spec_num(&self) -> nat {
        self.num as nat
    }

    /// Counts the units of `data`; fails when bytes are left that do not
    /// form a whole unit.
    pub fn parse(data: &'a [u8]) -> (r: Result<Self, ValueError>)
        ensures
            (match units_spec(data@) {
                Some(us) => r matches Ok(u) && u.spec_data() == data@ && u.spec_num() == us.len(),
                None => r == Err::<UnitsRef<'a>, ValueError>(ValueError::Trailing),
            }),
    {
        let mut iter = RangeIter::new(data);
        let mut num: usize = 0;
        proof {
            assert(data@.skip(0) =~= data@);
        }
        loop
            invariant
                iter.spec_all() == data@,
                iter.spec_pos() <= data@.len(),
                num <= iter.spec_pos(),
                (match units_spec(data@) {
                    Some(us) => units_spec(data@.skip(iter.spec_pos() as int)) matches Some(ts)
                        && us.len() == num + ts.len(),
                    None => units_spec(data@.skip(iter.spec_pos() as int)) is None,
                }),
            decreases data@.len() - iter.spec_pos(),
        {
            let ghost before = iter.spec_pos();
            proof {
                lemma_units_step(data@.skip(before as int));
            }
            match iter.next() {
                Some(_) => {
                    proof {
                        assert(data@.skip(iter.spec_pos() as int) =~= (unit_spec(data@.skip(before as int))->0).1);
                    }
                    num = num + 1;
                },
                None => {
                    if iter.pos != data.len() {
                        return Err(ValueError::Trailing);
                    }
                    proof {
                        assert(data@.skip(data@.len() as int) =~= Seq::<u8>::empty());
                    }
                    return Ok(Self { data, num });
                },
            }
        }
    }

    pub fn num(&self) -> (r: usize)
        ensures
            r == self.spec_num(),
    {
        self.num
    }

    /// The units one after another.
    pub fn iter(&self) -> (r: SliceIter<'a>)
        ensures
            r.spec_all() == self.spec_data(),
            r.spec_pos() == 0,
    {
        SliceIter(RangeIter::new(self.data))
    }
}

proof fn lemma_units_step(s: Seq<u8>)
    ensures
        s.len() > 0 && unit_spec(s) is Some ==> (unit_spec(s)->0).1.len() < s.len() ==> units_spec(s) == (
        match units_spec((unit_spec(s)->0).1) {
            Some(us) => Some(seq![(unit_spec(s)->0).0] + us),
            None => None::<Seq<Seq<u8>>>,
        }),
        s.len() > 0 && unit_spec(s) is None ==> units_spec(s) is None,
{
    crate::varint::lemma_unit_shrinks(s);
}

/// Walks the units of a payload, giving the position range of each.
pub struct RangeIter<'a> {
    data: &'a [u8],
    pos: usize,
}

impl<'a> RangeIter<'a> {
    pub closed spec fn spec_all(&self) -> Seq<u8> {
        self.data@
    }

    pub closed spec fn spec_pos(&self) -> nat {
        self.pos as nat
    }

    pub fn new(data: &'a [u8]) -> (r: Self)
        ensures
            r.spec_all() == data@,
            r.spec_pos() == 0,
    {
        Self { data, pos: 0 }
    }

    /// The start and end of the next unit's bytes, or `None` at the end or
    /// where the rest is not a whole unit.
    pub fn next(&mut self) -> (r: Option<(usize, usize)>)
        requires
            old(self).spec_pos() <= old(self).spec_all().len(),
        ensures
            final(self).spec_all() == old(self).spec_all(),
            final(self).spec_pos() <= final(self).spec_all().len(),
            ({
                let rest = old(self).spec_all().skip(old(self).spec_pos() as int);
                if rest.len() > 0 && unit_spec(rest) is Some {
                    let (u, tail) = unit_spec(rest)->0;
                    &&& r matches Some((a, b))
                    &&& a <= b
                    &&& old(self).spec_all().subrange(a as int, b as int) == u
                    &&& b <= final(self).spec_all().len()
                    &&& final(self).spec_pos() == final(self).spec_all().len() - tail.len()
                    &&& final(self).spec_pos() > old(self).spec_pos()
                } else {
                    r is None && final(self).spec_pos() == old(self).spec_pos()
                }
            }),
    {
        if self.pos < self.data.len() {
            let (_, rest) = self.data.split_at(self.pos);
            proof {
                assert(rest@ =~= self.data@.skip(self.pos as int));
            }
            match cut_unit_of(rest) {
                Some((unit, tail)) => {
                    let start = self.data.len() - tail.len() - unit.len();
                    let end = self.data.len() - tail.len();
                    proof {
                        crate::varint::lemma_unit_shrinks(rest@);
                        assert(self.data@.subrange(start as int, end as int) =~= unit@);
                    }
                    self.pos = end;
                    return Some((start, end));
                },
                None => {},
            }
        }
        None
    }
}

/// Walks the units of a payload, giving the bytes of each.
pub struct SliceIter<'a>(RangeIter<'a>);

impl<'a> SliceIter<'a> {
    pub closed spec fn spec_all(&self) -> Seq<u8> {
        self.0.spec_all()
    }

    pub closed spec fn spec_pos(&self) -> nat {
        self.0.spec_pos()
    }

    /// The next unit's bytes, or `None` at the end.
    pub fn next(&mut self) -> (r: Option<&'a [u8]>)
        requires
            old(self).spec_pos() <= old(self).spec_all().len(),
        ensures
            final(self).spec_all() == old(self).spec_all(),
            final(self).spec_pos() <= final(self).spec_all().len(),
            ({
                let rest = old(self).spec_all().skip(old(self).spec_pos() as int);
                if rest.len() > 0 && unit_spec(rest) is Some {
                    r matches Some(u) && u@ == (unit_spec(rest)->0).0
                } else {
                    r is None
                }
            }),
    {
        match self.0.next() {
            Some((a, b)) => {
                let data = self.0.data;
                Some(&data[a..b])
            },
            None => None,
        }
    }
}

} // verus!
