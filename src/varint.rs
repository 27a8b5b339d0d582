//! Base-128 variable-length integers and the zigzag mapping for signed values.
use vstd::prelude::*;

verus! {

/// An encoded 64-bit varint is never longer than this.
pub const MAX_VARINT_ENCODED_LEN: usize = 10;

/// An encoded 32-bit varint is never longer than this.
pub const MAX_VARINT32_ENCODED_LEN: usize = 5;

/// `128` raised to `k`.
pub open spec fn pow128(k: nat) -> nat
    decreases k,
{
    if k == 0 {
        1
    } else {
        128 * pow128((k - 1) as nat)
    }
}

/// The canonical varint bytes of `v`: seven bits per byte, lowest group
/// first, the continuation bit set on every byte but the last.
pub open spec fn varint_spec(v: nat) -> Seq<u8>
    decreases v,
{
    if v < 128 {
        seq![v as u8]
    } else {
        seq![((v % 128) + 128) as u8] + varint_spec(v / 128)
    }
}

/// The number the seven-bit groups of `s` stand for, first byte lowest.
pub open spec fn varint_value(s: Seq<u8>) -> nat
    decreases s.len(),
{
    if s.len() == 0 {
        0
    } else {
        varint_value(s.drop_last()) + (s.last() % 128) as nat * pow128((s.len() - 1) as nat)
    }
}

/// Index of the first byte of `s` without the continuation bit, or `s.len()`
/// when every byte has it.
pub open spec fn varint_end(s: Seq<u8>) -> int
    decreases s.len(),
{
    if s.len() == 0 {
        0
    } else if s[0] < 128 {
        0
    } else {
        1 + varint_end(s.drop_first())
    }
}

/// What decoding at most `max` bytes from the start of `s` gives: `None` for
/// a malformed or too large value, `Some(None)` when `s` ends before the
/// value does, `Some(Some((v, n)))` for the value `v` held in the first `n`
/// bytes.
pub open spec fn varint_decode_spec(s: Seq<u8>, max: nat, limit: nat) -> Option<Option<(nat, nat)>> {
    let e = varint_end(s);
    if e >= max {
        None
    } else if e >= s.len() {
        Some(None)
    } else if varint_value(s.take(e + 1)) > limit {
        None
    } else {
        Some(Some((varint_value(s.take(e + 1)), (e + 1) as nat)))
    }
}

/// Zigzag mapping of a signed value onto the naturals.
pub open spec fn zigzag_spec(n: int) -> nat {
    if n >= 0 {
        (2 * n) as nat
    } else {
        (-2 * n - 1) as nat
    }
}

/// Inverse of `zigzag_spec`.
pub open spec fn unzigzag_spec(u: nat) -> int {
    if u % 2 == 0 {
        (u / 2) as int
    } else {
        -((u / 2) as int) - 1
    }
}

proof fn lemma_varint_len_bound(v: nat, k: nat)
    requires
        k >= 1,
        v < pow128(k),
    ensures
        varint_spec(v).len() <= k,
    decreases k,
{
    if v >= 128 {
        if k == 1 {
            assert(pow128(1) == 128 * pow128(0));
        } else {
            let p = pow128((k - 1) as nat);
            assert(v / 128 < p) by (nonlinear_arith)
                requires
                    v < 128 * p,
            ;
            lemma_varint_len_bound(v / 128, (k - 1) as nat);
        }
    }
}

proof fn lemma_pow128_values()
    ensures
        pow128(5) == 0x8_0000_0000,
        pow128(10) == 0x40_0000_0000_0000_0000,
{
    assert(pow128(0) == 1);
    assert(pow128(1) == 0x80);
    assert(pow128(2) == 0x4000);
    assert(pow128(3) == 0x20_0000);
    assert(pow128(4) == 0x1000_0000);
    assert(pow128(5) == 0x8_0000_0000);
    assert(pow128(6) == 0x400_0000_0000);
    assert(pow128(7) == 0x2_0000_0000_0000);
    assert(pow128(8) == 0x100_0000_0000_0000);
    assert(pow128(9) == 0x8000_0000_0000_0000);
    assert(pow128(10) == 0x40_0000_0000_0000_0000);
}

/// The canonical encoding of a 64-bit value takes at most ten bytes, of a
/// 32-bit value at most five, and never less than one.
pub proof fn lemma_varint_len(v: nat)
    ensures
        varint_spec(v).len() >= 1,
        v <= u64::MAX ==> varint_spec(v).len() <= MAX_VARINT_ENCODED_LEN,
        v <= u32::MAX ==> varint_spec(v).len() <= MAX_VARINT32_ENCODED_LEN,
    decreases v,
{
    lemma_pow128_values();
    if v <= u64::MAX {
        lemma_varint_len_bound(v, 10);
    }
    if v <= u32::MAX {
        lemma_varint_len_bound(v, 5);
    }
    if v >= 128 {
        lemma_varint_len(v / 128);
    }
}

proof fn lemma_value_prepend(b: u8, s: Seq<u8>)
    ensures
        varint_value(seq![b] + s) == (b % 128) as nat + 128 * varint_value(s),
    decreases s.len(),
{
    let t = seq![b] + s;
    if s.len() == 0 {
        assert(t.drop_last() =~= Seq::<u8>::empty());
        assert(varint_value(Seq::<u8>::empty()) == 0);
        assert(pow128(0) == 1);
        assert(t.last() == b);
        assert(varint_value(t) == varint_value(t.drop_last()) + (t.last() % 128) as nat * pow128(0));
    } else {
        assert(t.drop_last() =~= seq![b] + s.drop_last());
        lemma_value_prepend(b, s.drop_last());
        let k = (s.len() - 1) as nat;
        assert(pow128(k + 1) == 128 * pow128(k));
        let x = (s.last() % 128) as nat;
        assert(t.last() == s.last());
        assert(varint_value(t) == varint_value(t.drop_last()) + x * pow128(k + 1));
        assert(varint_value(s) == varint_value(s.drop_last()) + x * pow128(k));
        assert(x * (128 * pow128(k)) == 128 * (x * pow128(k))) by (nonlinear_arith);
    }
}

proof fn lemma_end_prepend(b: u8, s: Seq<u8>)
    requires
        b >= 128,
    ensures
        varint_end(seq![b] + s) == 1 + varint_end(s),
{
    assert((seq![b] + s).drop_first() =~= s);
}

/// Decoding the canonical bytes of `v` yields `v` again: its last byte is the
/// first without the continuation bit, and the groups add up to `v`.
pub proof fn lemma_varint_round_trip(v: nat)
    ensures
        varint_end(varint_spec(v)) == varint_spec(v).len() - 1,
        varint_value(varint_spec(v)) == v,
    decreases v,
{
    lemma_varint_len(v);
    if v < 128 {
        let s = varint_spec(v);
        assert(s.drop_last() =~= Seq::<u8>::empty());
        assert(varint_value(Seq::<u8>::empty()) == 0);
        assert(pow128(0) == 1);
        assert(s.last() == v as u8);
        assert(varint_value(s) == varint_value(s.drop_last()) + (s.last() % 128) as nat * pow128(0));
    } else {
        let b = ((v % 128) + 128) as u8;
        assert(b % 128 == v % 128);
        lemma_varint_round_trip(v / 128);
        lemma_end_prepend(b, varint_spec(v / 128));
        lemma_value_prepend(b, varint_spec(v / 128));
    }
}

proof fn lemma_end_bounds(s: Seq<u8>)
    ensures
        0 <= varint_end(s) <= s.len(),
        varint_end(s) < s.len() ==> s[varint_end(s)] < 128,
        forall|i: int| 0 <= i < varint_end(s) ==> s[i] >= 128,
    decreases s.len(),
{
    if s.len() > 0 && s[0] >= 128 {
        lemma_end_bounds(s.drop_first());
        assert forall|i: int| 0 <= i < varint_end(s) implies s[i] >= 128 by {
            if i > 0 {
                assert(s[i] == s.drop_first()[i - 1]);
            }
        }
    }
}

/// The end index found in `s` is the one found in any extension of `s` that
/// holds the end byte.
proof fn lemma_end_extend(s: Seq<u8>, t: Seq<u8>)
    requires
        varint_end(s) < s.len(),
    ensures
        varint_end(s + t) == varint_end(s),
        (s + t).take(varint_end(s) + 1) == s.take(varint_end(s) + 1),
    decreases s.len(),
{
    lemma_end_bounds(s);
    if s[0] >= 128 {
        assert((s + t).drop_first() =~= s.drop_first() + t);
        lemma_end_extend(s.drop_first(), t);
    }
    assert((s + t).take(varint_end(s) + 1) =~= s.take(varint_end(s) + 1));
}

/// Decoding the canonical encoding of any 64-bit value, followed by any bytes,
/// gives back the value and the length of its encoding.
pub proof fn lemma_varint64_decode_encode(v: u64, rest: Seq<u8>)
    ensures
        varint_decode_spec(varint_spec(v as nat) + rest, 10, u64::MAX as nat) == Some(
            Some((v as nat, varint_spec(v as nat).len())),
        ),
{
    let s = varint_spec(v as nat);
    lemma_varint_round_trip(v as nat);
    lemma_varint_len(v as nat);
    lemma_end_extend(s, rest);
    assert(s.take(s.len() as int) =~= s);
}

/// Same as `lemma_varint64_decode_encode` for 32-bit values.
pub proof fn lemma_varint32_decode_encode(v: u32, rest: Seq<u8>)
    ensures
        varint_decode_spec(varint_spec(v as nat) + rest, 5, u32::MAX as nat) == Some(
            Some((v as nat, varint_spec(v as nat).len())),
        ),
{
    let s = varint_spec(v as nat);
    lemma_varint_round_trip(v as nat);
    lemma_varint_len(v as nat);
    lemma_end_extend(s, rest);
    assert(s.take(s.len() as int) =~= s);
}

/// The zigzag mapping is undone by its inverse for every 64-bit value.
pub proof fn lemma_zigzag_round_trip(v: i64)
    ensures
        unzigzag_spec(zigzag_spec(v as int)) == v as int,
        zigzag_spec(v as int) <= u64::MAX,
{
}

/// A varint that runs past its maximum byte count or does not fit its type.
#[derive(Debug, Clone, Copy, PartialEq, Eq, Structural)]
pub enum VarintError {
    Malformed,
}

/// Writes the canonical encoding of `value` at the start of `buf`.
fn encode_into(value: u64, buf: &mut [u8]) -> (n: usize)
    requires
        old(buf)@.len() >= varint_spec(value as nat).len(),
    ensures
        n == varint_spec(value as nat).len(),
        final(buf)@.len() == old(buf)@.len(),
        final(buf)@.subrange(0, n as int) == varint_spec(value as nat),
        forall|j: int| n <= j < final(buf)@.len() ==> final(buf)@[j] == old(buf)@[j],
{
    let mut v: u64 = value;
    let mut i: usize = 0;
    proof {
        lemma_varint_len(value as nat);
        assert(buf@.subrange(0, 0) + varint_spec(v as nat) =~= varint_spec(value as nat));
    }
    loop
        invariant
            buf@.len() == old(buf)@.len(),
            buf@.subrange(0, i as int) + varint_spec(v as nat) == varint_spec(value as nat),
            i + varint_spec(v as nat).len() == varint_spec(value as nat).len(),
            varint_spec(value as nat).len() <= buf@.len(),
            forall|j: int| varint_spec(value as nat).len() <= j < buf@.len() ==> buf@[j] == old(buf)@[j],
        decreases v,
    {
        proof {
            lemma_varint_len(v as nat);
        }
        if v < 128 {
            let ghost pre = buf@.subrange(0, i as int);
            buf[i] = v as u8;
            proof {
                assert(buf@.subrange(0, i + 1) =~= pre + seq![v as u8]);
            }
            return i + 1;
        }
        let ghost pre = buf@.subrange(0, i as int);
        let b: u8 = (v % 128 + 128) as u8;
        buf[i] = b;
        proof {
            assert(buf@.subrange(0, i + 1) =~= pre + seq![b]);
            assert(varint_spec(v as nat) == seq![b] + varint_spec((v / 128) as nat));
            assert(pre + varint_spec(v as nat) =~= (pre + seq![b]) + varint_spec((v / 128) as nat));
        }
        v = v / 128;
        i = i + 1;
    }
}

/// Encodes `value` as a varint into `buf`; returns the number of bytes
/// written, at most ten.
pub fn encode_varint64(value: u64, buf: &mut [u8]) -> (n: usize)
    requires
        old(buf)@.len() >= MAX_VARINT_ENCODED_LEN,
    ensures
        n == varint_spec(value as nat).len(),
        1 <= n <= MAX_VARINT_ENCODED_LEN,
        final(buf)@.len() == old(buf)@.len(),
        final(buf)@.subrange(0, n as int) == varint_spec(value as nat),
        forall|j: int| n <= j < final(buf)@.len() ==> final(buf)@[j] == old(buf)@[j],
{
    proof {
        lemma_varint_len(value as nat);
    }
    encode_into(value, buf)
}

/// Encodes a 32-bit `value` as a varint into `buf`; returns the number of
/// bytes written, at most five.
pub fn encode_varint32(value: u32, buf: &mut [u8]) -> (n: usize)
    requires
        old(buf)@.len() >= MAX_VARINT32_ENCODED_LEN,
    ensures
        n == varint_spec(value as nat).len(),
        1 <= n <= MAX_VARINT32_ENCODED_LEN,
        final(buf)@.len() == old(buf)@.len(),
        final(buf)@.subrange(0, n as int) == varint_spec(value as nat),
        forall|j: int| n <= j < final(buf)@.len() ==> final(buf)@[j] == old(buf)@[j],
{
    proof {
        lemma_varint_len(value as nat);
    }
    encode_into(value as u64, buf)
}

/// Same as `encode_varint32`.
pub fn encode_varint32_size(value: u32, buf: &mut [u8]) -> (n: usize)
    requires
        old(buf)@.len() >= MAX_VARINT32_ENCODED_LEN,
    ensures
        n == varint_spec(value as nat).len(),
        1 <= n <= MAX_VARINT32_ENCODED_LEN,
        final(buf)@.len() == old(buf)@.len(),
        final(buf)@.subrange(0, n as int) == varint_spec(value as nat),
        forall|j: int| n <= j < final(buf)@.len() ==> final(buf)@[j] == old(buf)@[j],
{
    encode_varint32(value, buf)
}

/// Encodes a 32-bit `value` into `buf` and returns the encoded bytes.
pub fn encode_varint32_slice(value: u32, buf: &mut [u8]) -> (r: Vec<u8>)
    requires
        old(buf)@.len() >= MAX_VARINT32_ENCODED_LEN,
    ensures
        r@ == varint_spec(value as nat),
        final(buf)@.len() == old(buf)@.len(),
        final(buf)@.subrange(0, r@.len() as int) == varint_spec(value as nat),
{
    let n = encode_varint32(value, buf);
    let s: &[u8] = buf;
    let r = slice_to_vec(&s[0..n]);
    r
}

/// The bytes of `s` in a new vector.
pub fn slice_to_vec(s: &[u8]) -> (r: Vec<u8>)
    ensures
        r@ == s@,
{
    let mut r: Vec<u8> = Vec::with_capacity(s.len());
    let mut i: usize = 0;
    while i < s.len()
        invariant
            i <= s@.len(),
            r@ == s@.subrange(0, i as int),
        decreases s@.len() - i,
    {
        r.push(s[i]);
        i = i + 1;
        proof {
            assert(r@ =~= s@.subrange(0, i as int));
        }
    }
    proof {
        assert(r@ =~= s@);
    }
    r
}

/// The canonical varint encoding of `value` as a new vector.
pub fn varint64_to_vec(value: u64) -> (r: Vec<u8>)
    ensures
        r@ == varint_spec(value as nat),
        1 <= r@.len() <= MAX_VARINT_ENCODED_LEN,
{
    let mut buf: [u8; 10] = [0u8; 10];
    let n = encode_varint64(value, &mut buf);
    let s: &[u8] = &buf;
    slice_to_vec(&s[0..n])
}

/// Number of bytes the varint encoding of `value` takes.
pub fn encoded_varint64_len(value: u64) -> (n: usize)
    ensures
        n == varint_spec(value as nat).len(),
        1 <= n <= MAX_VARINT_ENCODED_LEN,
{
    proof {
        lemma_varint_len(value as nat);
    }
    let mut v: u64 = value;
    let mut n: usize = 1;
    while v >= 128
        invariant
            n + varint_spec(v as nat).len() - 1 == varint_spec(value as nat).len(),
            varint_spec(value as nat).len() <= MAX_VARINT_ENCODED_LEN,
            1 <= n,
        decreases v,
    {
        proof {
            lemma_varint_len((v / 128) as nat);
        }
        v = v / 128;
        n = n + 1;
    }
    n
}

/// Decodes a varint of at most `max` bytes and value at most `limit` from
/// the start of `buf`.
fn decode_bounded(buf: &[u8], max: usize, limit: u64) -> (r: Option<Option<(u64, usize)>>)
    requires
        max <= MAX_VARINT_ENCODED_LEN,
    ensures
        (match varint_decode_spec(buf@, max as nat, limit as nat) {
            None => r is None,
            Some(None) => r == Some(Option::<(u64, usize)>::None),
            Some(Some((v, n))) => r == Some(Some((v as u64, n as usize))),
        }),
{
    let mut i: usize = 0;
    let mut acc: u128 = 0;
    let mut scale: u128 = 1;
    proof {
        lemma_end_bounds(buf@);
        assert(buf@.take(0) =~= Seq::<u8>::empty());
        assert(pow128(0) == 1);
        lemma_pow128_values();
    }
    while i < buf.len() && i < max
        invariant
            i <= max <= MAX_VARINT_ENCODED_LEN,
            i <= buf@.len(),
            forall|j: int| 0 <= j < i ==> buf@[j] >= 128,
            acc == varint_value(buf@.take(i as int)),
            scale == pow128(i as nat),
            acc < scale,
            0 <= varint_end(buf@) <= buf@.len(),
            varint_end(buf@) < buf@.len() ==> buf@[varint_end(buf@)] < 128,
            forall|j: int| 0 <= j < varint_end(buf@) ==> buf@[j] >= 128,
            pow128(10) == 0x40_0000_0000_0000_0000,
        decreases max - i,
    {
        let b = buf[i];
        proof {
            assert(buf@.take(i + 1).drop_last() =~= buf@.take(i as int));
            assert(buf@.take(i + 1).last() == b);
            assert(pow128(i as nat + 1) == 128 * pow128(i as nat));
            assert(i < 10);
            lemma_pow128_mono(i as nat, 9);
            assert((b % 128) as nat * pow128(i as nat) + acc < 128 * pow128(i as nat)) by (nonlinear_arith)
                requires
                    acc < pow128(i as nat),
                    (b % 128) <= 127,
            ;
        }
        acc = acc + ((b % 128) as u128) * scale;
        if b < 128 {
            proof {
                assert(varint_end(buf@) == i);
            }
            if acc > limit as u128 {
                return None;
            }
            return Some(Some((acc as u64, i + 1)));
        }
        scale = scale * 128;
        i = i + 1;
    }
    proof {
        assert(varint_end(buf@) >= i);
    }
    if i >= max {
        None
    } else {
        Some(None)
    }
}

proof fn lemma_pow128_mono(a: nat, b: nat)
    requires
        a <= b,
    ensures
        pow128(a) <= pow128(b),
    decreases b,
{
    if a < b {
        lemma_pow128_mono(a, (b - 1) as nat);
    }
}

/// Decodes a 64-bit varint from the start of `buf`: `Ok(Some((value,
/// length)))`, `Ok(None)` when `buf` ends before the value does, and an error
/// when ten bytes carry the continuation bit or the value exceeds 64 bits.
pub fn decode_varint64(buf: &[u8]) -> (r: Result<Option<(u64, usize)>, VarintError>)
    ensures
        (match varint_decode_spec(buf@, 10, u64::MAX as nat) {
            None => r is Err,
            Some(None) => r == Ok::<Option<(u64, usize)>, VarintError>(None),
            Some(Some((v, n))) => r == Ok::<Option<(u64, usize)>, VarintError>(Some((v as u64, n as usize))),
        }),
{
    match decode_bounded(buf, MAX_VARINT_ENCODED_LEN, u64::MAX) {
        None => Err(VarintError::Malformed),
        Some(x) => Ok(x),
    }
}

/// Decodes a 32-bit varint from the start of `buf`, as `decode_varint64`
/// does with five bytes at most.
pub fn decode_varint32(buf: &[u8]) -> (r: Result<Option<(u32, usize)>, VarintError>)
    ensures
        (match varint_decode_spec(buf@, 5, u32::MAX as nat) {
            None => r is Err,
            Some(None) => r == Ok::<Option<(u32, usize)>, VarintError>(None),
            Some(Some((v, n))) => r == Ok::<Option<(u32, usize)>, VarintError>(Some((v as u32, n as usize))),
        }),
{
    match decode_bounded(buf, MAX_VARINT32_ENCODED_LEN, u32::MAX as u64) {
        None => Err(VarintError::Malformed),
        Some(None) => Ok(None),
        Some(Some((v, n))) => Ok(Some((v as u32, n))),
    }
}

/// Zigzag-maps a signed value: `0, -1, 1, -2, ...` become `0, 1, 2, 3, ...`.
pub fn encode_zig_zag_64(n: i64) -> (r: u64)
    ensures
        r == zigzag_spec(n as int),
{
    if n >= 0 {
        (n as u64) * 2
    } else {
        ((-(n + 1)) as u64) * 2 + 1
    }
}

/// Inverse of `encode_zig_zag_64`.
pub fn decode_zig_zag_64(u: u64) -> (r: i64)
    ensures
        r == unzigzag_spec(u as nat),
{
    if u % 2 == 0 {
        (u / 2) as i64
    } else {
        -((u / 2) as i64) - 1
    }
}

/// Types that encode themselves as a varint.
pub trait ToVarIntVec {
    /// The number this value encodes as.
    spec fn varint_number(&self) -> nat;

    fn to_varint_vec(&self) -> (r: Vec<u8>)
        ensures
            r@ == varint_spec(self.varint_number());
}

impl ToVarIntVec for u32 {
    open spec fn varint_number(&self) -> nat {
        *self as nat
    }

    fn to_varint_vec(&self) -> (r: Vec<u8>) {
        varint64_to_vec(*self as u64)
    }
}

/// A decoded value never takes more bytes than the input holds, nor none.
pub proof fn lemma_decoded_len(s: Seq<u8>, max: nat, limit: nat)
    ensures
        varint_decode_spec(s, max, limit) matches Some(Some((v, n))) ==> 1 <= n <= s.len() && n <= max,
{
    lemma_end_bounds(s);
}

/// A unit's length prefix takes at least one byte, so what follows a unit is
/// shorter than the input.
pub proof fn lemma_unit_shrinks(s: Seq<u8>)
    ensures
        varint_decode_spec(s, 5, u32::MAX as nat) matches Some(Some((v, n))) ==> 1 <= n <= s.len(),
{
    lemma_end_bounds(s);
}

} // verus!
