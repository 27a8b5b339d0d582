//! Builds records one at a time on a `SegBuf`: the type byte, a length
//! placeholder patched once the payload is known, and the payload, split into
//! several records of the same type where it outgrows one.
use vstd::prelude::*;
use crate::header::{Type, MAX_RECORD_LEN, header_spec, record_spec, records_spec, lemma_records_push};
use crate::seg_buf::{SegBuf, SegList, Cursor, AllocSeg, flatten};
use crate::varint::{varint_spec, varint64_to_vec, encode_zig_zag_64, zigzag_spec, MAX_VARINT32_ENCODED_LEN};

verus! {

/// Records and open payload after writing `bytes` into an open record of
/// type `t`: whenever the payload would exceed `MAX_RECORD_LEN`, the record
/// is closed at that length and a new one of the same type continues it.
pub open spec fn write_spec(t: u8, done: Seq<(u8, Seq<u8>)>, pending: Seq<u8>, bytes: Seq<u8>) -> (Seq<(u8, Seq<u8>)>, Seq<u8>)
    decreases bytes.len(), pending.len(),
{
    if pending.len() + bytes.len() <= MAX_RECORD_LEN || pending.len() > MAX_RECORD_LEN {
        (done, pending + bytes)
    } else {
        let k = (MAX_RECORD_LEN - pending.len()) as int;
        write_spec(t, done.push((t, pending + bytes.take(k))), Seq::empty(), bytes.skip(k))
    }
}

/// The records a value of type `t` becomes on its own: full records while
/// more than one record's worth is left, then the rest.
pub open spec fn chunks_spec(t: u8, v: Seq<u8>) -> Seq<(u8, Seq<u8>)>
    decreases v.len(),
{
    if v.len() <= MAX_RECORD_LEN {
        seq![(t, v)]
    } else {
        seq![(t, v.take(MAX_RECORD_LEN as int))] + chunks_spec(t, v.skip(MAX_RECORD_LEN as int))
    }
}

/// The payloads of records, one after another.
pub open spec fn payloads(rs: Seq<(u8, Seq<u8>)>) -> Seq<u8>
    decreases rs.len(),
{
    if rs.len() == 0 {
        Seq::empty()
    } else {
        rs[0].1 + payloads(rs.drop_first())
    }
}

/// Writing a value into a fresh record, then closing it, gives the records
/// of `chunks_spec`.
pub proof fn lemma_write_fresh(t: u8, done: Seq<(u8, Seq<u8>)>, v: Seq<u8>)
    ensures
        ({
            let (d, p) = write_spec(t, done, Seq::empty(), v);
            d.push((t, p)) == done + chunks_spec(t, v)
        }),
    decreases v.len(),
{
    if v.len() <= MAX_RECORD_LEN {
        assert(Seq::<u8>::empty() + v =~= v);
    } else {
        let k = MAX_RECORD_LEN as int;
        assert(Seq::<u8>::empty() + v.take(k) =~= v.take(k));
        lemma_write_fresh(t, done.push((t, v.take(k))), v.skip(k));
        assert(done.push((t, v.take(k))) + chunks_spec(t, v.skip(k)) =~= done + chunks_spec(t, v));
    }
}

/// A value longer than one record becomes `ceil(len / MAX_RECORD_LEN)`
/// records of its type, all but the last exactly `MAX_RECORD_LEN` long, whose
/// payloads put together are the value.
pub proof fn lemma_chunks(t: u8, v: Seq<u8>)
    requires
        v.len() > 0,
    ensures
        chunks_spec(t, v).len() == (v.len() + MAX_RECORD_LEN - 1) / (MAX_RECORD_LEN as int),
        forall|i: int| 0 <= i < chunks_spec(t, v).len() ==> (#[trigger] chunks_spec(t, v)[i]).0 == t,
        forall|i: int| 0 <= i < chunks_spec(t, v).len() - 1 ==> (#[trigger] chunks_spec(t, v)[i]).1.len() == MAX_RECORD_LEN,
        0 < chunks_spec(t, v).last().1.len() <= MAX_RECORD_LEN,
        payloads(chunks_spec(t, v)) == v,
    decreases v.len(),
{
    let c = chunks_spec(t, v);
    let m = MAX_RECORD_LEN as int;
    if v.len() <= MAX_RECORD_LEN {
        assert(payloads(c.drop_first()) == Seq::<u8>::empty()) by {
            assert(c.drop_first().len() == 0);
        }
        assert(v + Seq::<u8>::empty() =~= v);
    } else {
        let rest = v.skip(m);
        lemma_chunks(t, rest);
        let cr = chunks_spec(t, rest);
        assert(c =~= seq![(t, v.take(m))] + cr);
        assert(c.drop_first() =~= cr);
        assert((rest.len() + m - 1) / m + 1 == (v.len() + m - 1) / m);
        assert forall|i: int| 0 <= i < c.len() implies (#[trigger] c[i]).0 == t by {
            if i > 0 {
                assert(c[i] == cr[i - 1]);
            }
        }
        assert forall|i: int| 0 <= i < c.len() - 1 implies (#[trigger] c[i]).1.len() == MAX_RECORD_LEN by {
            if i > 0 {
                assert(c[i] == cr[i - 1]);
            }
        }
        assert(v.take(m) + rest =~= v);
    }
}

/// Writing a value of `MAX_RECORD_LEN + k` bytes (`k > 0`) into a fresh
/// record of type `t` and closing it appends exactly
/// `ceil((MAX_RECORD_LEN + k) / MAX_RECORD_LEN)` records of type `t`, all but
/// the last `MAX_RECORD_LEN` bytes long, whose payloads put together are the
/// value.
pub proof fn lemma_oversize_split(t: u8, done: Seq<(u8, Seq<u8>)>, v: Seq<u8>, k: nat)
    requires
        k > 0,
        v.len() == MAX_RECORD_LEN + k,
    ensures
        ({
            let (d, p) = write_spec(t, done, Seq::empty(), v);
            let added = d.push((t, p)).skip(done.len() as int);
            &&& d.push((t, p)).take(done.len() as int) == done
            &&& added.len() == (MAX_RECORD_LEN + k + MAX_RECORD_LEN - 1) / (MAX_RECORD_LEN as int)
            &&& forall|i: int| 0 <= i < added.len() ==> (#[trigger] added[i]).0 == t
            &&& forall|i: int| 0 <= i < added.len() - 1 ==> (#[trigger] added[i]).1.len() == MAX_RECORD_LEN
            &&& payloads(added) == v
        }),
{
    lemma_write_fresh(t, done, v);
    lemma_chunks(t, v);
    let (d, p) = write_spec(t, done, Seq::empty(), v);
    assert(d.push((t, p)).skip(done.len() as int) =~= chunks_spec(t, v));
    assert(d.push((t, p)).take(done.len() as int) =~= done);
}

/// The encoder: finished records, and at most one open record.
pub struct TagBuf {
    buf: SegBuf,
    open: Option<(Type, Cursor)>,
    done: Ghost<Seq<(u8, Seq<u8>)>>,
    pending: Ghost<Seq<u8>>,
}

impl TagBuf {
    /// Records finished since the last split.
    pub closed spec fn spec_done(&self) -> Seq<(u8, Seq<u8>)> {
        self.done@
    }

    /// Type of the open record, if one is open.
    pub closed spec fn spec_open(&self) -> Option<u8> {
        match self.open {
            Some((t, _)) => Some(t.0),
            None => None,
        }
    }

    /// Payload written so far into the open record.
    pub closed spec fn spec_pending(&self) -> Seq<u8> {
        self.pending@
    }

    /// Bytes written since the encoder was made.
    pub closed spec fn spec_total(&self) -> nat {
        self.buf.spec_len()
    }

    /// The bytes held (not yet split off).
    pub closed spec fn spec_content(&self) -> Seq<u8> {
        self.buf.content()
    }

    pub closed spec fn wf(&self) -> bool {
        &&& self.buf.wf()
        &&& match self.open {
            None => self.buf.content() == records_spec(self.done@) && self.pending@ == Seq::<u8>::empty(),
            Some((t, c)) => {
                &&& self.buf.cursor_ok(c)
                &&& self.buf.cursor_at(c) == records_spec(self.done@).len() + 1
                &&& self.buf.content() == records_spec(self.done@) + seq![t.0, 0u8, 0u8, 0u8] + self.pending@
                &&& self.pending@.len() <= MAX_RECORD_LEN
            },
        }
    }

    /// The bytes held when every record is closed.
    pub open spec fn closed_view(&self) -> Seq<(u8, Seq<u8>)> {
        match self.spec_open() {
            None => self.spec_done(),
            Some(t) => self.spec_done().push((t, self.spec_pending())),
        }
    }

    pub fn new() -> (r: Self)
        ensures
            r.wf(),
            r.spec_done() == Seq::<(u8, Seq<u8>)>::empty(),
            r.spec_open() is None,
            r.spec_total() == 0,
    {
        Self::from_seg_buf(SegBuf::new())
    }

    /// An encoder whose segments the allocator sizes.
    pub fn with_alloc<A: AllocSeg>(alloc: A) -> (r: Self)
        ensures
            r.wf(),
            r.spec_done() == Seq::<(u8, Seq<u8>)>::empty(),
            r.spec_open() is None,
            r.spec_total() == 0,
    {
        Self::from_seg_buf(SegBuf::with_alloc(alloc))
    }

    fn from_seg_buf(buf: SegBuf) -> (r: Self)
        requires
            buf.wf(),
            buf.spec_segs() == seq![Seq::<u8>::empty()],
            buf.spec_len() == 0,
        ensures
            r.wf(),
            r.spec_done() == Seq::<(u8, Seq<u8>)>::empty(),
            r.spec_open() is None,
            r.spec_total() == 0,
    {
        proof {
            assert(buf.spec_segs().drop_last() =~= Seq::<Seq<u8>>::empty());
            assert(flatten(Seq::<Seq<u8>>::empty()) == Seq::<u8>::empty());
            assert(buf.content() =~= Seq::<u8>::empty());
            assert(records_spec(Seq::<(u8, Seq<u8>)>::empty()) == Seq::<u8>::empty());
        }
        Self { buf, open: None, done: Ghost(Seq::empty()), pending: Ghost(Seq::empty()) }
    }

    /// Bytes written since the encoder was made, split off or not.
    pub fn len(&self) -> (r: usize)
        ensures
            r == self.spec_total(),
    {
        self.buf.len()
    }

    pub fn is_open(&self) -> (r: bool)
        ensures
            r == self.spec_open() is Some,
    {
        self.open.is_some()
    }

    /// Patches the open record's length and closes it.
    pub fn finish(&mut self)
        requires
            old(self).wf(),
        ensures
            final(self).wf(),
            final(self).spec_open() is None,
            final(self).spec_done() == old(self).closed_view(),
            final(self).spec_total() == old(self).spec_total(),
    {
        match self.open {
            None => {},
            Some((t, c)) => {
                let len = self.buf.len_from_cursor(&c) - 3;
                let bytes: [u8; 3] = [((len / 0x1_0000) % 0x100) as u8, ((len / 0x100) % 0x100) as u8, (len % 0x100) as u8];
                let ghost before = self.buf.content();
                let ghost d = records_spec(self.done@);
                proof {
                    assert(len == self.pending@.len());
                }
                self.buf.write_at(&c, &bytes);
                proof {
                    let h = header_spec(t.0, len as nat);
                    assert(h =~= seq![t.0] + bytes@);
                    assert(self.buf.content() =~= d + h + self.pending@);
                    lemma_records_push(self.done@, t.0, self.pending@);
                    assert(self.buf.content() =~= records_spec(self.done@.push((t.0, self.pending@))));
                }
                self.open = None;
                self.done = Ghost(self.done@.push((t.0, self.pending@)));
                self.pending = Ghost(Seq::empty());
            },
        }
    }

    /// Closes any open record and opens one of type `rtype`.
    pub fn begin_tag(&mut self, rtype: Type)
        requires
            old(self).wf(),
            old(self).spec_total() + 4 <= usize::MAX,
        ensures
            final(self).wf(),
            final(self).spec_open() == Some(rtype.0),
            final(self).spec_pending() == Seq::<u8>::empty(),
            final(self).spec_done() == old(self).closed_view(),
            final(self).spec_total() == old(self).spec_total() + 4,
    {
        self.finish();
        let ghost d = records_spec(self.done@);
        self.buf.put_u8(rtype.value());
        let c = self.buf.cursor();
        let zeros: [u8; 3] = [0u8, 0u8, 0u8];
        self.buf.put_slice(&zeros);
        proof {
            assert(self.buf.content() =~= d + seq![rtype.0, 0u8, 0u8, 0u8] + Seq::<u8>::empty());
        }
        self.open = Some((rtype, c));
    }

    /// Adds `bytes` to the open record's payload, closing it at
    /// `MAX_RECORD_LEN` and continuing in new records of its type as needed.
    pub fn append_bytes(&mut self, bytes: &[u8])
        requires
            old(self).wf(),
            old(self).spec_open() is Some,
            old(self).spec_total() + 5 * bytes@.len() + 8 <= usize::MAX,
        ensures
            final(self).wf(),
            final(self).spec_open() == old(self).spec_open(),
            ({
                let (d, p) = write_spec(old(self).spec_open()->0, old(self).spec_done(), old(self).spec_pending(), bytes@);
                final(self).spec_done() == d && final(self).spec_pending() == p
            }),
            final(self).spec_total() <= old(self).spec_total() + 5 * bytes@.len() + 4,
    {
        let t = match self.open {
            Some((t, _)) => t,
            None => Type::new(0),
        };
        let n = bytes.len();
        let mut i: usize = 0;
        proof {
            assert(bytes@.skip(0) =~= bytes@);
        }
        loop
            invariant
                self.wf(),
                self.spec_open() == Some(t.0),
                old(self).spec_open() == Some(t.0),
                n == bytes@.len(),
                i <= n,
                write_spec(t.0, old(self).spec_done(), old(self).spec_pending(), bytes@)
                    == write_spec(t.0, self.spec_done(), self.spec_pending(), bytes@.skip(i as int)),
                self.spec_total() + 5 * (n - i) + (if self.spec_pending().len() == MAX_RECORD_LEN { 4int } else { 0int })
                    <= old(self).spec_total() + 5 * n + 4,
                old(self).spec_total() + 5 * bytes@.len() + 8 <= usize::MAX,
            decreases n - i, self.spec_pending().len(),
        {
            let c = match self.open {
                Some((_, c)) => c,
                None => self.buf.cursor(),
            };
            let p = self.buf.len_from_cursor(&c) - 3;
            proof {
                assert(p == self.pending@.len());
            }
            if p + (n - i) <= MAX_RECORD_LEN {
                let ghost pend = self.pending@;
                let ghost d = records_spec(self.done@);
                let ghost before = self.buf.content();
                self.buf.put_slice(&bytes[i..n]);
                self.pending = Ghost(self.pending@ + bytes@.subrange(i as int, n as int));
                proof {
                    assert(bytes@.subrange(i as int, n as int) =~= bytes@.skip(i as int));
                    assert(self.buf.content() =~= d + seq![t.0, 0u8, 0u8, 0u8] + self.pending@);
                }
                return;
            }
            let k = MAX_RECORD_LEN - p;
            let ghost d = records_spec(self.done@);
            let ghost pend = self.pending@;
            self.buf.put_slice(&bytes[i..i + k]);
            self.pending = Ghost(self.pending@ + bytes@.subrange(i as int, i + k));
            proof {
                assert(self.buf.content() =~= d + seq![t.0, 0u8, 0u8, 0u8] + self.pending@);
                assert(bytes@.skip(i as int).take(k as int) =~= bytes@.subrange(i as int, i + k));
                assert(bytes@.skip(i as int).skip(k as int) =~= bytes@.skip(i + k));
            }
            self.begin_tag(t);
            i = i + k;
        }
    }

    /// Adds `bytes`, then closes the record.
    pub fn append_last(&mut self, bytes: &[u8])
        requires
            old(self).wf(),
            old(self).spec_open() is Some,
            old(self).spec_total() + 5 * bytes@.len() + 8 <= usize::MAX,
        ensures
            final(self).wf(),
            final(self).spec_open() is None,
            ({
                let (d, p) = write_spec(old(self).spec_open()->0, old(self).spec_done(), old(self).spec_pending(), bytes@);
                final(self).spec_done() == d.push((old(self).spec_open()->0, p))
            }),
            final(self).spec_total() <= old(self).spec_total() + 5 * bytes@.len() + 4,
    {
        self.append_bytes(bytes);
        self.finish();
    }

    /// Adds a varint.
    pub fn append_var_u64(&mut self, v: u64)
        requires
            old(self).wf(),
            old(self).spec_open() is Some,
            old(self).spec_total() + 58 <= usize::MAX,
        ensures
            final(self).wf(),
            final(self).spec_open() == old(self).spec_open(),
            ({
                let (d, p) = write_spec(old(self).spec_open()->0, old(self).spec_done(), old(self).spec_pending(), varint_spec(v as nat));
                final(self).spec_done() == d && final(self).spec_pending() == p
            }),
            final(self).spec_total() <= old(self).spec_total() + 54,
    {
        let enc = varint64_to_vec(v);
        self.append_bytes(enc.as_slice());
    }

    /// Adds a zigzag-mapped signed varint.
    pub fn append_var_i64(&mut self, v: i64)
        requires
            old(self).wf(),
            old(self).spec_open() is Some,
            old(self).spec_total() + 58 <= usize::MAX,
        ensures
            final(self).wf(),
            final(self).spec_open() == old(self).spec_open(),
            ({
                let (d, p) = write_spec(old(self).spec_open()->0, old(self).spec_done(), old(self).spec_pending(), varint_spec(zigzag_spec(v as int)));
                final(self).spec_done() == d && final(self).spec_pending() == p
            }),
            final(self).spec_total() <= old(self).spec_total() + 54,
    {
        let z = encode_zig_zag_64(v);
        self.append_var_u64(z);
    }

    /// Adds a unit: the varint length of `bytes`, then `bytes`.
    pub fn append_len_value(&mut self, bytes: &[u8])
        requires
            old(self).wf(),
            old(self).spec_open() is Some,
            bytes@.len() <= u32::MAX,
            old(self).spec_total() + 5 * bytes@.len() + 70 <= usize::MAX,
        ensures
            final(self).wf(),
            final(self).spec_open() == old(self).spec_open(),
            ({
                let (d, p) = write_spec(old(self).spec_open()->0, old(self).spec_done(), old(self).spec_pending(),
                    varint_spec(bytes@.len()) + bytes@);
                final(self).spec_done() == d && final(self).spec_pending() == p
            }),
    {
        let enc = varint64_to_vec(bytes.len() as u64);
        let mut v: Vec<u8> = enc;
        let mut j: usize = 0;
        let ghost head = v@;
        while j < bytes.len()
            invariant
                j <= bytes@.len(),
                v@ == head + bytes@.take(j as int),
                head.len() <= 10,
            decreases bytes@.len() - j,
        {
            v.push(bytes[j]);
            j = j + 1;
            proof {
                assert(v@ =~= head + bytes@.take(j as int));
            }
        }
        proof {
            assert(bytes@.take(j as int) =~= bytes@);
        }
        self.append_bytes(v.as_slice());
    }

    /// Adds a big-endian signed 64-bit value.
    pub fn append_fixed_i64(&mut self, v: i64)
        requires
            old(self).wf(),
            old(self).spec_open() is Some,
            old(self).spec_total() + 48 <= usize::MAX,
        ensures
            final(self).wf(),
            final(self).spec_open() == old(self).spec_open(),
            ({
                let (d, p) = write_spec(old(self).spec_open()->0, old(self).spec_done(), old(self).spec_pending(), be_i64_spec(v));
                final(self).spec_done() == d && final(self).spec_pending() == p
            }),
    {
        let b = i64_be_bytes(v);
        self.append_bytes(&b);
    }

    /// Adds a big-endian unsigned 64-bit value.
    pub fn append_fixed_u64(&mut self, v: u64)
        requires
            old(self).wf(),
            old(self).spec_open() is Some,
            old(self).spec_total() + 48 <= usize::MAX,
        ensures
            final(self).wf(),
            final(self).spec_open() == old(self).spec_open(),
            ({
                let (d, p) = write_spec(old(self).spec_open()->0, old(self).spec_done(), old(self).spec_pending(), be_u64_spec(v as nat));
                final(self).spec_done() == d && final(self).spec_pending() == p
            }),
    {
        let b = u64_be_bytes(v);
        self.append_bytes(&b);
    }

    /// Adds one byte.
    pub fn append_fixed_u8(&mut self, v: u8)
        requires
            old(self).wf(),
            old(self).spec_open() is Some,
            old(self).spec_total() + 13 <= usize::MAX,
        ensures
            final(self).wf(),
            final(self).spec_open() == old(self).spec_open(),
            ({
                let (d, p) = write_spec(old(self).spec_open()->0, old(self).spec_done(), old(self).spec_pending(), seq![v]);
                final(self).spec_done() == d && final(self).spec_pending() == p
            }),
    {
        let b: [u8; 1] = [v];
        proof {
            assert(b@ =~= seq![v]);
        }
        self.append_bytes(&b);
    }

    /// Adds a big-endian 16-bit value.
    pub fn append_fixed_u16(&mut self, v: u16)
        requires
            old(self).wf(),
            old(self).spec_open() is Some,
            old(self).spec_total() + 18 <= usize::MAX,
        ensures
            final(self).wf(),
            final(self).spec_open() == old(self).spec_open(),
            ({
                let (d, p) = write_spec(old(self).spec_open()->0, old(self).spec_done(), old(self).spec_pending(),
                    seq![(v / 256) as u8, (v % 256) as u8]);
                final(self).spec_done() == d && final(self).spec_pending() == p
            }),
    {
        let b: [u8; 2] = [(v / 256) as u8, (v % 256) as u8];
        proof {
            assert(b@ =~= seq![(v / 256) as u8, (v % 256) as u8]);
        }
        self.append_bytes(&b);
    }

    /// Adds the current time in milliseconds, big-endian.
    pub fn append_now_milli(&mut self)
        requires
            old(self).wf(),
            old(self).spec_open() is Some,
            old(self).spec_total() + 48 <= usize::MAX,
        ensures
            final(self).wf(),
            final(self).spec_open() == old(self).spec_open(),
            exists|now: i64| {
                let (d, p) = #[trigger] write_spec(old(self).spec_open()->0, old(self).spec_done(), old(self).spec_pending(), be_i64_spec(now));
                final(self).spec_done() == d && final(self).spec_pending() == p
            },
    {
        let now = crate::clock::now_millis();
        self.append_fixed_i64(now);
    }

    /// Closes any open record and hands out every byte held, as segments.
    pub fn split(&mut self) -> (r: SegList)
        requires
            old(self).wf(),
        ensures
            final(self).wf(),
            flatten(r.spec_segs()) == records_spec(old(self).closed_view()),
            final(self).spec_done() == Seq::<(u8, Seq<u8>)>::empty(),
            final(self).spec_open() is None,
            final(self).spec_total() == old(self).spec_total(),
    {
        self.finish();
        let r = self.buf.split();
        self.done = Ghost(Seq::empty());
        proof {
            assert(self.buf.spec_segs().drop_last() =~= Seq::<Seq<u8>>::empty());
            assert(flatten(Seq::<Seq<u8>>::empty()) == Seq::<u8>::empty());
            assert(self.buf.content() =~= Seq::<u8>::empty());
            assert(records_spec(Seq::<(u8, Seq<u8>)>::empty()) == Seq::<u8>::empty());
        }
        r
    }

    /// Closes any open record; every byte written, as segments.
    pub fn into_seg_list(self) -> (r: SegList)
        requires
            self.wf(),
        ensures
            flatten(r.spec_segs()) == records_spec(self.closed_view()),
    {
        let mut me = self;
        me.finish();
        me.buf.into_list()
    }

    /// Closes any open record; the bytes held.
    pub fn to_vec(&mut self) -> (r: Vec<u8>)
        requires
            old(self).wf(),
        ensures
            final(self).wf(),
            r@ == records_spec(old(self).closed_view()),
            final(self).spec_done() == old(self).closed_view(),
            final(self).spec_open() is None,
            final(self).spec_total() == old(self).spec_total(),
    {
        self.finish();
        self.buf.to_vec()
    }
}

/// Big-endian bytes of a 64-bit unsigned value.
pub open spec fn be_u64_spec(v: nat) -> Seq<u8> {
    Seq::new(8, |i: int| ((v / pow256_spec((7 - i) as nat)) % 256) as u8)
}

/// Big-endian two's complement bytes of a 64-bit signed value.
pub open spec fn be_i64_spec(v: i64) -> Seq<u8> {
    be_u64_spec(if v >= 0 { v as nat } else { (v + 0x1_0000_0000_0000_0000) as nat })
}

pub open spec fn pow256_spec(k: nat) -> nat
    decreases k,
{
    if k == 0 {
        1
    } else {
        256 * pow256_spec((k - 1) as nat)
    }
}

/// Big-endian two's complement bytes of `v`.
pub fn i64_be_bytes(v: i64) -> (r: [u8; 8])
    ensures
        r@ == be_i64_spec(v),
{
    let u: u64 = if v >= 0 { v as u64 } else { (v as i128 + 0x1_0000_0000_0000_0000) as u64 };
    u64_be_bytes(u)
}

pub fn u64_be_bytes(v: u64) -> (r: [u8; 8])
    ensures
        r@ == be_u64_spec(v as nat),
{
    let mut r: [u8; 8] = [0u8; 8];
    let mut x: u64 = v;
    let mut i: usize = 8;
    proof {
        assert(pow256_spec(0) == 1);
        assert(v as nat / 1 == v as nat);
    }
    while i > 0
        invariant
            i <= 8,
            r@.len() == 8,
            x as nat == v as nat / pow256_spec((8 - i) as nat),
            forall|j: int| i <= j < 8 ==> r@[j] == be_u64_spec(v as nat)[j],
        decreases i,
    {
        i = i - 1;
        r[i] = (x % 256) as u8;
        proof {
            let k = (7 - i) as nat;
            assert(pow256_spec(k + 1) == 256 * pow256_spec(k));
            assert(pow256_spec(k) > 0) by {
                lemma_pow256_pos(k);
            }
            assert((v as nat / pow256_spec(k)) / 256 == v as nat / (pow256_spec(k) * 256)) by {
                vstd::arithmetic::div_mod::lemma_div_denominator(v as int, pow256_spec(k) as int, 256);
            }
        }
        x = x / 256;
    }
    proof {
        assert(r@ =~= be_u64_spec(v as nat));
    }
    r
}

proof fn lemma_pow256_pos(k: nat)
    ensures
        pow256_spec(k) > 0,
    decreases k,
{
    if k > 0 {
        lemma_pow256_pos((k - 1) as nat);
    }
}

} // verus!
