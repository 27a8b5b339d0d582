//! Reordering of RTP packets by their 16-bit sequence number, extended to a
//! 64-bit counter that survives wraparound.
use vstd::prelude::*;

verus! {

/// Forward distance from `last` to `curr` on the 16-bit circle.
pub open spec fn forward_dist(last: u16, curr: u16) -> int {
    (curr as int - last as int) % 0x1_0000
}

/// Signed step from `last` to `curr`: the shorter way round, forward on a tie.
pub open spec fn extend_delta(last: u16, curr: u16) -> int {
    let d1 = forward_dist(last, curr);
    let d2 = forward_dist(curr, last);
    if d1 <= d2 {
        d1
    } else {
        -d2
    }
}

/// The extended value after `curr` follows `last`, from the extended value `ext`.
pub open spec fn extend_spec(last: u16, curr: u16, ext: i64) -> i64 {
    ext.wrapping_add(extend_delta(last, curr) as i64)
}

/// Applies the shorter signed step from `last` to `curr` to `ext`.
pub fn u16_extend(last: u16, curr: u16, ext: i64) -> (r: i64)
    ensures
        r == extend_spec(last, curr, ext),
        -0x8000 < extend_delta(last, curr) <= 0x8000,
        i64::MIN <= ext + extend_delta(last, curr) <= i64::MAX ==> r == ext + extend_delta(last, curr),
{
    let d1: i32 = ((curr as i32 - last as i32) + 0x1_0000) % 0x1_0000;
    let d2: i32 = ((last as i32 - curr as i32) + 0x1_0000) % 0x1_0000;
    proof {
        assert(d1 == forward_dist(last, curr));
        assert(d2 == forward_dist(curr, last));
        assert(d1 == 0 ==> d2 == 0);
        assert(d1 != 0 ==> d1 + d2 == 0x1_0000);
    }
    if d1 <= d2 {
        ext.wrapping_add(d1 as i64)
    } else {
        ext.wrapping_add(-(d2 as i64))
    }
}

/// Turns a stream of 16-bit sequence numbers into a 64-bit counter.
#[derive(Debug, Clone, Copy)]
pub struct U16Extender {
    pub last_input: Option<u16>,
    pub ext: i64,
}

impl U16Extender {
    pub fn new() -> (r: Self)
        ensures
            r.last_input is None,
            r.ext == 0,
    {
        Self { last_input: None, ext: 0 }
    }

    /// The extended value of `val`: the value itself for the first input,
    /// then the previous result moved by the shorter step from the previous
    /// input.
    pub fn convert(&mut self, val: u16) -> (r: i64)
        ensures
            final(self).last_input == Some(val),
            final(self).ext == r,
            old(self).last_input is None ==> r == val as i64,
            old(self).last_input matches Some(last) ==> r == extend_spec(last, val, old(self).ext),
    {
        match self.last_input {
            Some(last_input) => {
                self.ext = u16_extend(last_input, val, self.ext);
                self.last_input = Some(val);
            },
            None => {
                self.last_input = Some(val);
                self.ext = val as i64;
            },
        }
        self.ext
    }
}

/// One step of the sequence that counts up by one modulo 2^16 moves the
/// extended counter up by exactly one, as long as the counter does not reach
/// the top of its range; so such a sequence gives a strictly increasing output.
pub proof fn lemma_extend_consecutive(last: u16, ext: i64)
    requires
        ext < i64::MAX,
    ensures
        extend_spec(last, ((last as int + 1) % 0x1_0000) as u16, ext) == ext + 1,
{
    let curr = ((last as int + 1) % 0x1_0000) as u16;
    assert(forward_dist(last, curr) == 1);
    assert(forward_dist(curr, last) == 0xFFFF);
}

/// Any step forward by less than half the circle increases the extended
/// counter, as long as it does not overflow.
pub proof fn lemma_extend_forward(last: u16, curr: u16, ext: i64)
    requires
        0 < forward_dist(last, curr) <= 0x8000,
        ext + 0x8000 <= i64::MAX,
    ensures
        extend_spec(last, curr, ext) > ext,
        extend_spec(last, curr, ext) == ext + forward_dist(last, curr),
{
}

/// The outputs of `U16Extender::convert` fed `s` in order from a new
/// extender: the first input as it is, then each previous output moved by
/// the step from the previous input.
pub open spec fn run_extend(s: Seq<u16>) -> Seq<i64>
    decreases s.len(),
{
    if s.len() == 0 {
        Seq::empty()
    } else if s.len() == 1 {
        seq![s[0] as i64]
    } else {
        let o = run_extend(s.drop_last());
        o.push(extend_spec(s[s.len() - 2], s.last(), o.last()))
    }
}

proof fn lemma_extend_step(a: u16, b: u16, x: i64)
    requires
        1 <= forward_dist(a, b) <= 0x8000,
        0 <= x,
        x + 0x8000 <= i64::MAX,
        (x as int) % 0x1_0000 == a as int,
    ensures
        extend_spec(a, b, x) == x + forward_dist(a, b),
        (extend_spec(a, b, x) as int) % 0x1_0000 == b as int,
{
    let d = forward_dist(a, b);
    assert(forward_dist(b, a) == 0x1_0000 - d);
    assert(extend_delta(a, b) == d);
    let q = (x as int) / 0x1_0000;
    assert(x as int == 0x1_0000 * q + a as int);
    if b >= a {
        assert(d == b - a);
        assert(x + d == 0x1_0000 * q + b as int);
    } else {
        assert(d == b as int - a as int + 0x1_0000);
        assert(x + d == 0x1_0000 * (q + 1) + b as int);
    }
}

/// Fed a run of inputs that each move forward by 1 to 32768 (mod 2^16),
/// possibly wrapping past 65535, a new extender outputs the first input,
/// then each previous output plus the forward step: a strictly increasing
/// sequence, each output congruent to its input mod 2^16. The run must be
/// short enough that the counter cannot overflow.
#[verifier::rlimit(40)]
pub proof fn lemma_extend_run(s: Seq<u16>)
    requires
        s.len() >= 1,
        forall|i: int| 0 <= i < s.len() - 1 ==> 1 <= #[trigger] forward_dist(s[i], s[i + 1]) <= 0x8000,
        s.len() * 0x8000 + 0x1_0000 <= i64::MAX,
    ensures
        run_extend(s).len() == s.len(),
        run_extend(s)[0] == s[0] as i64,
        forall|i: int| 0 <= i < s.len() - 1 ==> #[trigger] run_extend(s)[i + 1] == run_extend(s)[i] + forward_dist(s[i], s[i + 1]),
        forall|i: int| 0 <= i < s.len() - 1 ==> #[trigger] run_extend(s)[i] < run_extend(s)[i + 1],
        forall|i: int| 0 <= i < s.len() ==> 0 <= #[trigger] run_extend(s)[i] <= 0xFFFF + i * 0x8000,
        forall|i: int| 0 <= i < s.len() ==> (#[trigger] run_extend(s)[i]) as int % 0x1_0000 == s[i] as int,
    decreases s.len(),
{
    if s.len() > 1 {
        let p = s.drop_last();
        assert forall|i: int| 0 <= i < p.len() - 1 implies 1 <= #[trigger] forward_dist(p[i], p[i + 1]) <= 0x8000 by {
            assert(p[i] == s[i] && p[i + 1] == s[i + 1]);
            assert(forward_dist(s[i], s[i + 1]) >= 1);
        }
        lemma_extend_run(p);
        let o = run_extend(p);
        let n = s.len();
        let a = s[n - 2];
        let b = s[n - 1];
        assert(p[n - 2] == a);
        assert(o.last() == o[n - 2]);
        lemma_extend_step(a, b, o[n - 2]);
        let nv = extend_spec(a, b, o.last());
        let r = run_extend(s);
        assert(r == o.push(nv));
        assert forall|i: int| 0 <= i < n - 1 implies #[trigger] r[i + 1] == r[i] + forward_dist(s[i], s[i + 1]) by {
            if i < n - 2 {
                assert(r[i + 1] == o[i + 1] && r[i] == o[i]);
                assert(p[i] == s[i] && p[i + 1] == s[i + 1]);
            }
        }
        assert forall|i: int| 0 <= i < n - 1 implies #[trigger] r[i] < r[i + 1] by {
            assert(r[i + 1] == r[i] + forward_dist(s[i], s[i + 1]));
        }
        assert forall|i: int| 0 <= i < n implies 0 <= #[trigger] r[i] <= 0xFFFF + i * 0x8000 by {
            if i < n - 1 {
                assert(r[i] == o[i]);
            }
        }
        assert forall|i: int| 0 <= i < n implies (#[trigger] r[i]) as int % 0x1_0000 == s[i] as int by {
            if i < n - 1 {
                assert(r[i] == o[i]);
                assert(p[i] == s[i]);
            }
        }
    } else {
        assert((s[0] as i64) as int % 0x1_0000 == s[0] as int);
    }
}

/// Where a popped packet stands with respect to the expected sequence.
#[derive(Debug, Clone, Copy, PartialEq, Eq, Structural, PartialOrd, Ord, Hash)]
pub enum RtpOrder {
    /// The packet is the one expected next.
    Normal(i64),
    /// Packets are missing before this one: the distance from the expected
    /// sequence, then its sequence.
    Lost(u64, i64),
    Old,
}

/// The order tag of `seq` given the expected next sequence.
pub open spec fn order_spec(next: Option<i64>, seq: i64) -> RtpOrder {
    match next {
        Some(n) => if seq == n {
            RtpOrder::Normal(seq)
        } else {
            RtpOrder::Lost((seq as int - n as int) as u64, seq)
        },
        None => RtpOrder::Normal(seq),
    }
}

/// The keys of a buffer, in order.
pub open spec fn keys_of<T>(s: Seq<(i64, T)>) -> Seq<i64> {
    s.map_values(|p: (i64, T)| p.0)
}

/// Keys strictly increasing.
pub open spec fn sorted_keys<T>(s: Seq<(i64, T)>) -> bool {
    forall|i: int, j: int| 0 <= i < j < s.len() ==> s[i].0 < s[j].0
}

/// `s` with `(k, v)` placed at `pos`.
pub open spec fn insert_at<T>(s: Seq<(i64, T)>, pos: int, k: i64, v: T) -> Seq<(i64, T)> {
    s.take(pos) + seq![(k, v)] + s.skip(pos)
}

/// A bounded buffer that hands out packets in sequence order, reporting gaps.
pub struct RtpInorderBuf<T> {
    buf: Vec<(i64, T)>,
    capacity: usize,
    seq_ext: U16Extender,
    seq_next: Option<i64>,
}

impl<T> RtpInorderBuf<T> {
    /// Buffered packets by extended sequence, lowest first.
    pub closed spec fn spec_buf(&self) -> Seq<(i64, T)> {
        self.buf@
    }

    pub closed spec fn spec_capacity(&self) -> usize {
        self.capacity
    }

    /// The extended sequence expected next, once one is known.
    pub closed spec fn spec_next(&self) -> Option<i64> {
        self.seq_next
    }

    pub closed spec fn spec_ext(&self) -> U16Extender {
        self.seq_ext
    }

    /// Keys sorted, none below the expected one.
    pub open spec fn wf(&self) -> bool {
        &&& sorted_keys(self.spec_buf())
        &&& (self.spec_next() matches Some(n) ==> forall|i: int|
            0 <= i < self.spec_buf().len() ==> self.spec_buf()[i].0 >= n)
    }

    pub fn new(capacity: usize) -> (r: Self)
        ensures
            r.wf(),
            r.spec_buf().len() == 0,
            r.spec_capacity() == capacity,
            r.spec_next() is None,
            r.spec_ext().last_input is None,
            r.spec_ext().ext == 0,
    {
        Self { buf: Vec::new(), capacity, seq_ext: U16Extender::new(), seq_next: None }
    }

    /// Number of buffered packets.
    pub fn len(&self) -> (r: usize)
        ensures
            r == self.spec_buf().len(),
    {
        self.buf.len()
    }

    /// Index where `k` belongs in the sorted buffer, and whether it is there.
    fn find(&self, k: i64) -> (r: (usize, bool))
        requires
            self.wf(),
        ensures
            r.0 <= self.spec_buf().len(),
            forall|i: int| 0 <= i < r.0 ==> self.spec_buf()[i].0 < k,
            forall|i: int| r.0 <= i < self.spec_buf().len() ==> self.spec_buf()[i].0 >= k,
            r.1 == (r.0 < self.spec_buf().len() && self.spec_buf()[r.0 as int].0 == k),
    {
        let mut i: usize = 0;
        while i < self.buf.len() && self.buf[i].0 < k
            invariant
                self.wf(),
                i <= self.buf@.len(),
                forall|j: int| 0 <= j < i ==> self.buf@[j].0 < k,
            decreases self.buf@.len() - i,
        {
            i = i + 1;
        }
        let found = i < self.buf.len() && self.buf[i].0 == k;
        (i, found)
    }

    /// Takes packet `seq`: hands it back at once when it is the one expected
    /// (or the first ever seen, with a full buffer), drops it when it is older
    /// than expected or already buffered, and otherwise buffers it; once the
    /// buffer holds `capacity` packets the lowest is forced out.
    pub fn pushpop(&mut self, seq: u16, data: T) -> (r: Option<(RtpOrder, T)>)
        requires
            old(self).wf(),
        ensures
            final(self).wf(),
            final(self).spec_capacity() == old(self).spec_capacity(),
            final(self).spec_ext().last_input == Some(seq),
            ({
                let s = final(self).spec_ext().ext;
                let ob = old(self).spec_buf();
                &&& old(self).spec_ext().last_input is None ==> s == seq as i64
                &&& old(self).spec_ext().last_input matches Some(l) ==> s == extend_spec(l, seq, old(self).spec_ext().ext)
                &&& (old(self).spec_next() matches Some(n) && s < n) ==> r is None && final(self).spec_buf() == ob
                    && final(self).spec_next() == old(self).spec_next()
                &&& (old(self).spec_next() == Some(s) && !keys_of(ob).contains(s)) ==> r == Some((RtpOrder::Normal(s), data))
                    && final(self).spec_buf() == ob && final(self).spec_next() == Some(s.wrapping_add(1))
                &&& keys_of(ob).contains(s) ==> r is None
                    && final(self).spec_buf() == ob && final(self).spec_next() == old(self).spec_next()
                &&& ((old(self).spec_next() is None || (old(self).spec_next() matches Some(n) && s > n)) && !keys_of(ob).contains(s))
                    ==> exists|pos: int| #![trigger insert_at(ob, pos, s, data)] 0 <= pos <= ob.len() && {
                        let nb = insert_at(ob, pos, s, data);
                        &&& sorted_keys(nb)
                        &&& if nb.len() >= old(self).spec_capacity() {
                            &&& r == Some((
                                if old(self).spec_next() is None { RtpOrder::Normal(nb[0].0) } else { order_spec(old(self).spec_next(), nb[0].0) },
                                nb[0].1,
                            ))
                            &&& final(self).spec_buf() == nb.drop_first()
                            &&& final(self).spec_next() == Some(nb[0].0.wrapping_add(1))
                        } else {
                            &&& r is None
                            &&& final(self).spec_buf() == nb
                            &&& final(self).spec_next() == old(self).spec_next()
                        }
                    }
            }),
    {
        let seq64 = self.seq_ext.convert(seq);
        let ghost ob = self.buf@;
        if let Some(seq_next) = self.seq_next {
            if seq64 < seq_next {
                proof {
                    if keys_of(ob).contains(seq64) {
                        let j = choose|j: int| 0 <= j < keys_of(ob).len() && keys_of(ob)[j] == seq64;
                        assert(ob[j].0 == seq64);
                    }
                }
                return None;
            }
        }
        let (pos, found) = self.find(seq64);
        if found {
            proof {
                assert(keys_of(self.buf@)[pos as int] == seq64);
            }
            return None;
        }
        proof {
            if keys_of(ob).contains(seq64) {
                let j = choose|j: int| 0 <= j < keys_of(ob).len() && keys_of(ob)[j] == seq64;
                assert(ob[j].0 == seq64);
            }
        }
        if let Some(seq_next) = self.seq_next {
            if seq64 == seq_next {
                self.seq_next = Some(seq_next.wrapping_add(1));
                proof {
                    assert forall|i: int| 0 <= i < ob.len() implies ob[i].0 >= seq_next.wrapping_add(1) by {
                        assert(ob[i].0 != seq64);
                    }
                }
                return Some((RtpOrder::Normal(seq64), data));
            }
        }
        self.buf.insert(pos, (seq64, data));
        proof {
            assert(self.buf@ =~= insert_at(ob, pos as int, seq64, data));
        }
        let ghost nb = self.buf@;
        proof {
            assert forall|i: int, j: int| 0 <= i < j < nb.len() implies nb[i].0 < nb[j].0 by {
                if j < pos {
                } else if j == pos {
                    assert(nb[i] == ob[i]);
                } else if i < pos {
                    assert(nb[j] == ob[j - 1]);
                } else if i == pos {
                    assert(nb[j] == ob[j - 1]);
                } else {
                    assert(nb[j] == ob[j - 1]);
                    assert(nb[i] == ob[i - 1]);
                }
            }
            assert(nb == insert_at(ob, pos as int, seq64, data));
        }
        if self.buf.len() >= self.capacity {
            let r = self.pop();
            proof {
                assert(nb.len() >= self.capacity);
            }
            r
        } else {
            None
        }
    }

    /// Pops the lowest buffered packet only when it is the one expected next.
    pub fn inorder_pop(&mut self) -> (r: Option<(i64, T)>)
        requires
            old(self).wf(),
        ensures
            final(self).wf(),
            final(self).spec_capacity() == old(self).spec_capacity(),
            final(self).spec_ext() == old(self).spec_ext(),
            ({
                let ob = old(self).spec_buf();
                if ob.len() > 0 && old(self).spec_next() == Some(ob[0].0) {
                    &&& r == Some(ob[0])
                    &&& final(self).spec_buf() == ob.drop_first()
                    &&& final(self).spec_next() == Some(ob[0].0.wrapping_add(1))
                } else {
                    &&& r is None
                    &&& final(self).spec_buf() == ob
                    &&& final(self).spec_next() == old(self).spec_next()
                }
            }),
    {
        if self.buf.len() > 0 {
            let first = self.buf[0].0;
            match self.seq_next {
                Some(n) => {
                    if first == n {
                        self.seq_next = Some(first.wrapping_add(1));
                        let ghost ob = self.buf@;
                        let item = self.buf.remove(0);
                        proof {
                            assert(self.buf@ =~= ob.drop_first());
                            assert forall|i: int| 0 <= i < self.buf@.len() implies self.buf@[i].0 >= first.wrapping_add(1) by {
                                assert(ob[0].0 < ob[i + 1].0);
                            }
                        }
                        return Some(item);
                    }
                },
                None => {},
            }
        }
        None
    }

    /// Pops the lowest buffered packet whatever it is, tagged `Normal` when it
    /// is the one expected (or nothing is expected yet) and `Lost` with the
    /// gap otherwise.
    pub fn pop(&mut self) -> (r: Option<(RtpOrder, T)>)
        requires
            old(self).wf(),
        ensures
            final(self).wf(),
            final(self).spec_capacity() == old(self).spec_capacity(),
            final(self).spec_ext() == old(self).spec_ext(),
            ({
                let ob = old(self).spec_buf();
                if ob.len() > 0 {
                    &&& r == Some((order_spec(old(self).spec_next(), ob[0].0), ob[0].1))
                    &&& final(self).spec_buf() == ob.drop_first()
                    &&& final(self).spec_next() == Some(ob[0].0.wrapping_add(1))
                } else {
                    &&& r is None
                    &&& final(self).spec_buf() == ob
                    &&& final(self).spec_next() == old(self).spec_next()
                }
            }),
    {
        if self.buf.len() == 0 {
            return None;
        }
        let ghost ob = self.buf@;
        let (seq, item) = self.buf.remove(0);
        let order = Self::check_order(self.seq_next, seq);
        self.seq_next = Some(seq.wrapping_add(1));
        proof {
            assert(self.buf@ =~= ob.drop_first());
            assert forall|i: int| 0 <= i < self.buf@.len() implies self.buf@[i].0 >= seq.wrapping_add(1) by {
                assert(ob[0].0 < ob[i + 1].0);
            }
        }
        Some((order, item))
    }

    fn check_order(next: Option<i64>, seq: i64) -> (r: RtpOrder)
        requires
            next matches Some(n) ==> seq >= n,
        ensures
            r == order_spec(next, seq),
    {
        match next {
            Some(n) => {
                if seq == n {
                    RtpOrder::Normal(seq)
                } else {
                    let d: i128 = seq as i128 - n as i128;
                    RtpOrder::Lost(d as u64, seq)
                }
            },
            None => RtpOrder::Normal(seq),
        }
    }
}

} // verus!
