//! A byte buffer made of fixed-capacity segments, that never moves what it
//! holds, can patch bytes it already holds, and hands out its completed
//! segments while it keeps a live tail for further writes.
use vstd::prelude::*;

verus! {

/// Capacity of a segment when none is asked for.
pub const SEG_CAP: usize = 4096;

/// The bytes of segments one after another.
pub open spec fn flatten(segs: Seq<Seq<u8>>) -> Seq<u8>
    decreases segs.len(),
{
    if segs.len() == 0 {
        Seq::empty()
    } else {
        flatten(segs.drop_last()) + segs.last()
    }
}

/// The views of a list of byte vectors.
pub open spec fn views(v: Seq<Vec<u8>>) -> Seq<Seq<u8>> {
    v.map_values(|x: Vec<u8>| x@)
}

proof fn lemma_flatten_push(segs: Seq<Seq<u8>>, s: Seq<u8>)
    ensures
        flatten(segs.push(s)) == flatten(segs) + s,
{
    assert(segs.push(s).drop_last() =~= segs);
}

proof fn lemma_flatten_take(segs: Seq<Seq<u8>>, k: int)
    requires
        0 <= k < segs.len(),
    ensures
        flatten(segs.take(k + 1)) == flatten(segs.take(k)) + segs[k],
{
    assert(segs.take(k + 1).drop_last() =~= segs.take(k));
}

proof fn lemma_flatten_full(segs: Seq<Seq<u8>>)
    ensures
        flatten(segs.take(segs.len() as int)) == flatten(segs),
{
    assert(segs.take(segs.len() as int) =~= segs);
}

proof fn lemma_flatten_take_mono(segs: Seq<Seq<u8>>, a: int, b: int)
    requires
        0 <= a <= b <= segs.len(),
    ensures
        flatten(segs.take(a)).len() <= flatten(segs.take(b)).len(),
        flatten(segs.take(b)).subrange(0, flatten(segs.take(a)).len() as int) == flatten(segs.take(a)),
    decreases b - a,
{
    if a < b {
        lemma_flatten_take(segs, b - 1);
        lemma_flatten_take_mono(segs, a, b - 1);
        assert(flatten(segs.take(b)).subrange(0, flatten(segs.take(a)).len() as int)
            =~= flatten(segs.take(b - 1)).subrange(0, flatten(segs.take(a)).len() as int));
    }
}

/// Writing one byte inside segment `i` writes it in the flattened bytes at
/// that segment's offset.
proof fn lemma_flatten_update(segs: Seq<Seq<u8>>, i: int, j: int, b: u8)
    requires
        0 <= i < segs.len(),
        0 <= j < segs[i].len(),
    ensures
        flatten(segs.update(i, segs[i].update(j, b))) == flatten(segs).update(
            flatten(segs.take(i)).len() + j,
            b,
        ),
        flatten(segs.take(i)).len() + j < flatten(segs).len(),
    decreases segs.len(),
{
    let n = segs.len() - 1;
    let t = segs.update(i, segs[i].update(j, b));
    if i == n {
        assert(t.drop_last() =~= segs.drop_last());
        assert(segs.take(i) =~= segs.drop_last());
        assert(flatten(t) =~= flatten(segs).update(flatten(segs.take(i)).len() + j, b));
    } else {
        assert(t.drop_last() =~= segs.drop_last().update(i, segs[i].update(j, b)));
        lemma_flatten_update(segs.drop_last(), i, j, b);
        assert(segs.drop_last().take(i) =~= segs.take(i));
        assert(flatten(t) =~= flatten(segs).update(flatten(segs.take(i)).len() + j, b));
    }
}

/// A position inside a `SegBuf`: segment, offset in it, and the total number
/// of bytes written before it.
#[derive(Debug, Clone, Copy, PartialEq, Eq, Structural)]
pub struct Cursor {
    pub index: usize,
    pub pos: usize,
    pub offset: usize,
}

/// Segments split off a `SegBuf`, in order.
#[derive(Debug, PartialEq, Eq)]
pub struct SegList {
    list: Vec<Vec<u8>>,
}

impl SegList {
    pub closed spec fn spec_segs(&self) -> Seq<Seq<u8>> {
        views(self.list@)
    }

    /// Total number of bytes.
    pub fn len(&self) -> (r: usize)
        requires
            flatten(self.spec_segs()).len() <= usize::MAX,
        ensures
            r == flatten(self.spec_segs()).len(),
    {
        let mut n: usize = 0;
        let mut i: usize = 0;
        proof {
            assert(self.spec_segs().take(0) =~= Seq::<Seq<u8>>::empty());
        }
        while i < self.list.len()
            invariant
                i <= self.list@.len(),
                n == flatten(self.spec_segs().take(i as int)).len(),
                flatten(self.spec_segs()).len() <= usize::MAX,
            decreases self.list@.len() - i,
        {
            proof {
                lemma_flatten_take(self.spec_segs(), i as int);
                lemma_flatten_take_mono(self.spec_segs(), i + 1, self.spec_segs().len() as int);
                lemma_flatten_full(self.spec_segs());
            }
            n = n + self.list[i].len();
            i = i + 1;
        }
        proof {
            lemma_flatten_full(self.spec_segs());
        }
        n
    }

    /// All the bytes in one vector.
    pub fn to_vec(&self) -> (r: Vec<u8>)
        ensures
            r@ == flatten(self.spec_segs()),
    {
        concat(&self.list)
    }

    /// The segments themselves.
    pub fn into_segments(self) -> (r: Vec<Vec<u8>>)
        ensures
            views(r@) == self.spec_segs(),
    {
        self.list
    }

    /// The segments but the last, and the last.
    pub fn into_parts(self) -> (r: Option<(Vec<Vec<u8>>, Vec<u8>)>)
        ensures
            self.spec_segs().len() == 0 ==> r is None,
            self.spec_segs().len() > 0 ==> (r matches Some((init, last)) && views(init@) == self.spec_segs().drop_last()
                && last@ == self.spec_segs().last()),
    {
        let mut list = self.list;
        match list.pop() {
            Some(last) => {
                proof {
                    assert(views(list@) =~= views(self.list@).drop_last());
                }
                Some((list, last))
            },
            None => None,
        }
    }
}

/// The bytes of `list` one after another.
fn concat(list: &Vec<Vec<u8>>) -> (r: Vec<u8>)
    ensures
        r@ == flatten(views(list@)),
{
    let mut r: Vec<u8> = Vec::new();
    let mut i: usize = 0;
    proof {
        assert(views(list@).take(0) =~= Seq::<Seq<u8>>::empty());
    }
    while i < list.len()
        invariant
            i <= list@.len(),
            r@ == flatten(views(list@).take(i as int)),
        decreases list@.len() - i,
    {
        let seg = &list[i];
        let mut j: usize = 0;
        let ghost start = r@;
        while j < seg.len()
            invariant
                j <= seg@.len(),
                r@ == start + seg@.take(j as int),
            decreases seg@.len() - j,
        {
            r.push(seg[j]);
            j = j + 1;
            proof {
                assert(r@ =~= start + seg@.take(j as int));
            }
        }
        proof {
            lemma_flatten_take(views(list@), i as int);
            assert(seg@.take(j as int) =~= seg@);
        }
        i = i + 1;
    }
    proof {
        lemma_flatten_full(views(list@));
    }
    r
}

/// Gives the capacity of each new segment.
pub trait AllocSeg {
    fn seg_cap(&self) -> (r: usize)
        ensures
            r >= 1;
}

/// Segments of a capacity fixed when the allocator is made.
#[derive(Debug, Clone, Copy)]
pub struct CapAllocator(pub usize);

impl CapAllocator {
    pub fn new(cap: usize) -> (r: Self)
        requires
            cap >= 1,
        ensures
            r.0 == cap,
    {
        CapAllocator(cap)
    }
}

impl AllocSeg for CapAllocator {
    fn seg_cap(&self) -> (r: usize) {
        if self.0 >= 1 {
            self.0
        } else {
            1
        }
    }
}

/// Segments of the default capacity.
#[derive(Debug, Clone, Copy, Default)]
pub struct SegAllocator;

impl AllocSeg for SegAllocator {
    fn seg_cap(&self) -> (r: usize) {
        SEG_CAP
    }
}

/// A growable buffer of byte segments.
#[derive(Debug)]
pub struct SegBuf {
    segs: Vec<Vec<u8>>,
    caps: Vec<usize>,
    len: usize,
    seg_cap: usize,
}

impl SegBuf {
    /// The segments now held.
    pub closed spec fn spec_segs(&self) -> Seq<Seq<u8>> {
        views(self.segs@)
    }

    /// Capacity of each segment now held.
    pub closed spec fn spec_caps(&self) -> Seq<usize> {
        self.caps@
    }

    /// Bytes written since the buffer was made or cleared, split off or not.
    pub closed spec fn spec_len(&self) -> nat {
        self.len as nat
    }

    /// Capacity of each new segment.
    pub closed spec fn spec_seg_cap(&self) -> usize {
        self.seg_cap
    }

    /// The bytes now held.
    pub open spec fn content(&self) -> Seq<u8> {
        flatten(self.spec_segs())
    }

    /// Bytes written and already split off.
    pub open spec fn flushed(&self) -> nat {
        (self.spec_len() - self.content().len()) as nat
    }

    /// At least one segment; every segment within its capacity; all but the
    /// last full and the last not full.
    pub open spec fn wf(&self) -> bool {
        let segs = self.spec_segs();
        let caps = self.spec_caps();
        &&& segs.len() >= 1
        &&& segs.len() == caps.len()
        &&& self.spec_seg_cap() >= 1
        &&& forall|i: int| 0 <= i < segs.len() ==> #[trigger] segs[i].len() <= caps[i]
        &&& forall|i: int| 0 <= i < segs.len() ==> #[trigger] caps[i] >= 1
        &&& forall|i: int| 0 <= i < segs.len() - 1 ==> #[trigger] segs[i].len() == caps[i]
        &&& segs.last().len() < caps.last()
        &&& self.content().len() <= self.spec_len()
    }

    /// Whether `c` still points into the bytes held.
    pub open spec fn cursor_ok(&self, c: Cursor) -> bool {
        &&& c.index < self.spec_segs().len()
        &&& c.pos <= self.spec_segs()[c.index as int].len()
        &&& c.offset >= self.flushed()
        &&& c.offset - self.flushed() == flatten(self.spec_segs().take(c.index as int)).len() + c.pos
    }

    /// Where `c` points in the bytes held.
    pub open spec fn cursor_at(&self, c: Cursor) -> int {
        c.offset - self.flushed()
    }

    /// A buffer of one empty segment of the allocator's capacity.
    pub fn with_alloc<A: AllocSeg>(alloc: A) -> (r: Self)
        ensures
            r.wf(),
            r.spec_segs() == seq![Seq::<u8>::empty()],
            r.spec_len() == 0,
    {
        let cap = alloc.seg_cap();
        Self::with_cap(cap)
    }

    /// A buffer whose segments hold `cap` bytes each.
    pub fn with_cap(cap: usize) -> (r: Self)
        requires
            cap >= 1,
        ensures
            r.wf(),
            r.spec_segs() == seq![Seq::<u8>::empty()],
            r.spec_caps() == seq![cap],
            r.spec_seg_cap() == cap,
            r.spec_len() == 0,
    {
        let mut segs: Vec<Vec<u8>> = Vec::new();
        segs.push(Vec::new());
        let mut caps: Vec<usize> = Vec::new();
        caps.push(cap);
        let r = Self { segs, caps, len: 0, seg_cap: cap };
        proof {
            assert(r.spec_segs() =~= seq![Seq::<u8>::empty()]);
            assert(r.spec_segs().drop_last() =~= Seq::<Seq<u8>>::empty());
            assert(flatten(Seq::<Seq<u8>>::empty()) == Seq::<u8>::empty());
            assert(r.content() =~= Seq::<u8>::empty());
        }
        r
    }

    /// A buffer of segments of the default capacity.
    pub fn new() -> (r: Self)
        ensures
            r.wf(),
            r.spec_segs() == seq![Seq::<u8>::empty()],
            r.spec_len() == 0,
    {
        Self::with_cap(SEG_CAP)
    }

    /// Bytes written since the buffer was made or cleared.
    pub fn len(&self) -> (r: usize)
        ensures
            r == self.spec_len(),
    {
        self.len
    }

    pub fn num_segs(&self) -> (r: usize)
        ensures
            r == self.spec_segs().len(),
    {
        self.segs.len()
    }

    /// The position where the next byte goes.
    pub fn cursor(&self) -> (r: Cursor)
        requires
            self.wf(),
        ensures
            self.cursor_ok(r),
            self.cursor_at(r) == self.content().len(),
            r.offset == self.spec_len(),
    {
        let index = self.segs.len() - 1;
        let r = Cursor { index, pos: self.segs[index].len(), offset: self.len };
        proof {
            assert(self.spec_segs().take(index as int) =~= self.spec_segs().drop_last());
        }
        r
    }

    /// Drops all bytes, starting over with one empty segment.
    pub fn clear(&mut self)
        requires
            old(self).wf(),
        ensures
            final(self).wf(),
            final(self).spec_segs() == seq![Seq::<u8>::empty()],
            final(self).spec_len() == 0,
            final(self).spec_seg_cap() == old(self).spec_seg_cap(),
    {
        *self = Self::with_cap(self.seg_cap);
    }

    /// The bytes held, in one vector.
    pub fn to_vec(&self) -> (r: Vec<u8>)
        ensures
            r@ == self.content(),
    {
        concat(&self.segs)
    }

    /// Bytes written since `cursor` was taken.
    pub fn len_from_cursor(&self, cursor: &Cursor) -> (r: usize)
        requires
            self.wf(),
            self.cursor_ok(*cursor),
        ensures
            r == self.content().len() - self.cursor_at(*cursor),
    {
        proof {
            lemma_flatten_take_mono(self.spec_segs(), cursor.index + 1, self.spec_segs().len() as int);
            lemma_flatten_take(self.spec_segs(), cursor.index as int);
            lemma_flatten_full(self.spec_segs());
        }
        self.len - cursor.offset
    }

    /// Appends `bytes`, opening new segments as earlier ones fill.
    pub fn put_slice(&mut self, bytes: &[u8])
        requires
            old(self).wf(),
            old(self).spec_len() + bytes@.len() <= usize::MAX,
        ensures
            final(self).wf(),
            final(self).content() == old(self).content() + bytes@,
            final(self).spec_len() == old(self).spec_len() + bytes@.len(),
            final(self).spec_seg_cap() == old(self).spec_seg_cap(),
            final(self).flushed() == old(self).flushed(),
            forall|c: Cursor| old(self).cursor_ok(c) ==> #[trigger] final(self).cursor_ok(c),
    {
        let n = self.put_limit(bytes, bytes.len());
    }

    /// Appends the first `limit` bytes of `src` (all of it when shorter) and
    /// returns how many it took.
    pub fn put_limit(&mut self, src: &[u8], limit: usize) -> (n: usize)
        requires
            old(self).wf(),
            old(self).spec_len() + src@.len() <= usize::MAX,
        ensures
            n == if src@.len() < limit { src@.len() } else { limit as nat },
            final(self).wf(),
            final(self).content() == old(self).content() + src@.take(n as int),
            final(self).spec_len() == old(self).spec_len() + n,
            final(self).spec_seg_cap() == old(self).spec_seg_cap(),
            final(self).flushed() == old(self).flushed(),
            forall|c: Cursor| old(self).cursor_ok(c) ==> #[trigger] final(self).cursor_ok(c),
    {
        let n: usize = if src.len() < limit { src.len() } else { limit };
        let mut i: usize = 0;
                while i < n
            invariant
                self.wf(),
                n <= src@.len(),
                i <= n,
                self.content() == old(self).content() + src@.take(i as int),
                self.spec_len() == old(self).spec_len() + i,
                old(self).spec_len() + src@.len() <= usize::MAX,
                self.spec_seg_cap() == old(self).spec_seg_cap(),
                self.flushed() == old(self).flushed(),
                forall|c: Cursor| old(self).cursor_ok(c) ==> #[trigger] self.cursor_ok(c),
            decreases n - i,
        {
            let b = src[i];
            self.push_byte(b);
            proof {
                assert(src@.take(i + 1) =~= src@.take(i as int).push(b));
            }
            i = i + 1;
        }
        n
    }

    fn push_byte(&mut self, b: u8)
        requires
            old(self).wf(),
            old(self).spec_len() + 1 <= usize::MAX,
        ensures
            final(self).wf(),
            final(self).content() == old(self).content().push(b),
            final(self).spec_len() == old(self).spec_len() + 1,
            final(self).spec_seg_cap() == old(self).spec_seg_cap(),
            final(self).flushed() == old(self).flushed(),
            forall|c: Cursor| old(self).cursor_ok(c) ==> #[trigger] final(self).cursor_ok(c),
    {
        let last = self.segs.len() - 1;
        let ghost before = self.spec_segs();
        self.segs[last].push(b);
        self.len = self.len + 1;
        proof {
            assert(self.spec_segs() =~= before.update(last as int, before[last as int].push(b)));
            assert(before.drop_last() =~= self.spec_segs().drop_last());
            assert(self.content() =~= flatten(before) + seq![b]);
        }
        if self.segs[last].len() == self.caps[last] {
            let ghost mid = self.spec_segs();
            self.segs.push(Vec::new());
            self.caps.push(self.seg_cap);
            proof {
                assert(self.spec_segs() =~= mid.push(Seq::<u8>::empty()));
                lemma_flatten_push(mid, Seq::<u8>::empty());
                assert(self.content() =~= flatten(mid));
            }
        }
        proof {
            assert forall|c: Cursor| old(self).cursor_ok(c) implies #[trigger] self.cursor_ok(c) by {
                assert(self.spec_segs().take(c.index as int) =~= before.take(c.index as int));
            }
        }
    }

    /// Appends one byte.
    pub fn put_u8(&mut self, v: u8)
        requires
            old(self).wf(),
            old(self).spec_len() + 1 <= usize::MAX,
        ensures
            final(self).wf(),
            final(self).content() == old(self).content().push(v),
            final(self).spec_len() == old(self).spec_len() + 1,
            final(self).spec_seg_cap() == old(self).spec_seg_cap(),
            final(self).flushed() == old(self).flushed(),
            forall|c: Cursor| old(self).cursor_ok(c) ==> #[trigger] final(self).cursor_ok(c),
    {
        let a: [u8; 1] = [v];
        self.put_slice(&a);
        proof {
            assert(a@ =~= seq![v]);
        }
    }

    /// Appends a big-endian 16-bit value.
    pub fn put_u16(&mut self, v: u16)
        requires
            old(self).wf(),
            old(self).spec_len() + 2 <= usize::MAX,
        ensures
            final(self).wf(),
            final(self).content() == old(self).content() + seq![(v / 256) as u8, (v % 256) as u8],
            final(self).spec_len() == old(self).spec_len() + 2,
            final(self).spec_seg_cap() == old(self).spec_seg_cap(),
            final(self).flushed() == old(self).flushed(),
            forall|c: Cursor| old(self).cursor_ok(c) ==> #[trigger] final(self).cursor_ok(c),
    {
        let a: [u8; 2] = [(v / 256) as u8, (v % 256) as u8];
        self.put_slice(&a);
        proof {
            assert(a@ =~= seq![(v / 256) as u8, (v % 256) as u8]);
        }
    }

    /// Appends a big-endian 64-bit value.
    pub fn put_u64(&mut self, v: u64)
        requires
            old(self).wf(),
            old(self).spec_len() + 8 <= usize::MAX,
        ensures
            final(self).wf(),
            final(self).content() == old(self).content() + crate::tag_buf::be_u64_spec(v as nat),
            final(self).spec_len() == old(self).spec_len() + 8,
            final(self).spec_seg_cap() == old(self).spec_seg_cap(),
            final(self).flushed() == old(self).flushed(),
            forall|c: Cursor| old(self).cursor_ok(c) ==> #[trigger] final(self).cursor_ok(c),
    {
        let a = crate::tag_buf::u64_be_bytes(v);
        self.put_slice(&a);
    }

    /// Overwrites the bytes held from `cursor` on with `bytes`, across
    /// segment boundaries where needed; nothing moves and the length stays.
    pub fn write_at(&mut self, cursor: &Cursor, bytes: &[u8])
        requires
            old(self).wf(),
            old(self).cursor_ok(*cursor),
            old(self).cursor_at(*cursor) + bytes@.len() <= old(self).content().len(),
        ensures
            final(self).wf(),
            final(self).content() == old(self).content().take(old(self).cursor_at(*cursor)) + bytes@
                + old(self).content().skip(old(self).cursor_at(*cursor) + bytes@.len()),
            final(self).spec_len() == old(self).spec_len(),
            final(self).spec_caps() == old(self).spec_caps(),
            final(self).spec_seg_cap() == old(self).spec_seg_cap(),
            final(self).spec_segs().len() == old(self).spec_segs().len(),
            forall|i: int| 0 <= i < final(self).spec_segs().len() ==> #[trigger] final(self).spec_segs()[i].len() == old(self).spec_segs()[i].len(),
    {
        let ghost start_at = old(self).cursor_at(*cursor);
        let mut index = cursor.index;
        let mut pos = cursor.pos;
        let mut k: usize = 0;
        while k < bytes.len()
            invariant
                self.wf(),
                self.spec_len() == old(self).spec_len(),
                self.spec_caps() == old(self).spec_caps(),
                self.spec_seg_cap() == old(self).spec_seg_cap(),
                self.spec_segs().len() == old(self).spec_segs().len(),
                forall|i: int| 0 <= i < self.spec_segs().len() ==> #[trigger] self.spec_segs()[i].len() == old(self).spec_segs()[i].len(),
                self.content().len() == old(self).content().len(),
                k <= bytes@.len(),
                start_at + bytes@.len() <= old(self).content().len(),
                index < self.spec_segs().len(),
                pos <= self.spec_segs()[index as int].len(),
                flatten(self.spec_segs().take(index as int)).len() + pos == start_at + k,
                self.content() == old(self).content().take(start_at) + bytes@.take(k as int)
                    + old(self).content().skip(start_at + k),
            decreases bytes@.len() - k,
        {
            proof {
                lemma_flatten_take_mono(self.spec_segs(), index + 1, self.spec_segs().len() as int);
                lemma_flatten_take(self.spec_segs(), index as int);
                lemma_flatten_full(self.spec_segs());
            }
            let nsegs = self.segs.len();
            if pos == self.segs[index].len() {
                proof {
                    assert(nsegs == self.spec_segs().len());
                    let segs = self.spec_segs();
                    assert(flatten(segs.take(index + 1)).len() == start_at + k);
                    if index + 1 >= segs.len() {
                        assert(segs.take(index + 1) =~= segs);
                        assert(false);
                    }
                    lemma_flatten_take(segs, index + 1);
                    lemma_flatten_take_mono(segs, index + 2, segs.len() as int);
                    if index + 1 == segs.len() - 1 {
                        assert(segs.take(index + 2) =~= segs);
                    }
                }
                assert(index + 1 < nsegs);
                index = index + 1;
                pos = 0;
            }
            proof {
                lemma_flatten_take_mono(self.spec_segs(), index + 1, self.spec_segs().len() as int);
                lemma_flatten_take(self.spec_segs(), index as int);
                lemma_flatten_full(self.spec_segs());
            }
            let ghost before = self.spec_segs();
            let b = bytes[k];
            self.segs[index][pos] = b;
            proof {
                assert(self.spec_segs() =~= before.update(index as int, before[index as int].update(pos as int, b)));
                lemma_flatten_update(before, index as int, pos as int, b);
                assert(self.content() =~= old(self).content().take(start_at) + bytes@.take(k + 1)
                    + old(self).content().skip(start_at + k + 1));
                assert(self.spec_segs().take(index as int) =~= before.take(index as int));
            }
            pos = pos + 1;
            k = k + 1;
        }
        proof {
            assert(bytes@.take(k as int) =~= bytes@);
        }
    }

    /// Hands out every segment held, and keeps an empty tail segment with
    /// the capacity that the last one had left.
    pub fn split(&mut self) -> (r: SegList)
        requires
            old(self).wf(),
        ensures
            final(self).wf(),
            r.spec_segs() == old(self).spec_segs(),
            final(self).spec_segs() == seq![Seq::<u8>::empty()],
            final(self).spec_caps() == seq![(old(self).spec_caps().last() - old(self).spec_segs().last().len()) as usize],
            final(self).spec_len() == old(self).spec_len(),
            final(self).spec_seg_cap() == old(self).spec_seg_cap(),
            final(self).flushed() == old(self).flushed() + old(self).content().len(),
    {
        let last = self.segs.len() - 1;
        let rest_cap = self.caps[last] - self.segs[last].len();
        let mut segs: Vec<Vec<u8>> = Vec::new();
        segs.push(Vec::new());
        let mut caps: Vec<usize> = Vec::new();
        caps.push(rest_cap);
        std::mem::swap(&mut self.segs, &mut segs);
        self.caps = caps;
        proof {
            assert(self.spec_segs() =~= seq![Seq::<u8>::empty()]);
            assert(self.spec_segs().drop_last() =~= Seq::<Seq<u8>>::empty());
            assert(flatten(Seq::<Seq<u8>>::empty()) == Seq::<u8>::empty());
            assert(self.content() =~= Seq::<u8>::empty());
        }
        SegList { list: segs }
    }

    /// All segments held, as a list.
    pub fn into_list(self) -> (r: SegList)
        ensures
            r.spec_segs() == self.spec_segs(),
    {
        SegList { list: self.segs }
    }
}

} // verus!
