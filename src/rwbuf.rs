//! A fixed-capacity window of samples: written at the back, read from the
//! front, and, when full, rotated so that the newest samples stay.
use vstd::prelude::*;

verus! {

/// A readable range of a `RwBufVec`, by positions.
#[derive(Debug, Clone, Copy, PartialEq, Eq, Structural)]
pub struct RRange {
    pub start: usize,
    pub end: usize,
}

impl RRange {
    pub fn start(&self) -> (r: usize)
        ensures
            r == self.start,
    {
        self.start
    }

    pub fn end(&self) -> (r: usize)
        ensures
            r == self.end,
    {
        self.end
    }
}

/// The last `n` items of `s`, or all of it when shorter.
pub open spec fn last_n<T>(s: Seq<T>, n: nat) -> Seq<T> {
    if s.len() <= n {
        s
    } else {
        s.skip(s.len() - n)
    }
}

/// A buffer of `T`: the items between `begin` and `end` are readable, the
/// space after `end` is writable.
#[derive(Debug, Clone)]
pub struct RwBufVec<T> {
    buf: Vec<T>,
    begin: usize,
    end: usize,
}

impl<T: Copy + Default> RwBufVec<T> {
    /// The readable items.
    pub closed spec fn window(&self) -> Seq<T> {
        self.buf@.subrange(self.begin as int, self.end as int)
    }

    /// How many items the buffer holds in all.
    pub closed spec fn cap(&self) -> nat {
        self.buf@.len()
    }

    /// All items, readable or not.
    pub closed spec fn items(&self) -> Seq<T> {
        self.buf@
    }

    pub closed spec fn spec_begin(&self) -> nat {
        self.begin as nat
    }

    pub closed spec fn spec_end(&self) -> nat {
        self.end as nat
    }

    pub closed spec fn wf(&self) -> bool {
        self.begin <= self.end <= self.buf@.len()
    }

    /// An empty buffer of `init_len` default items.
    pub fn new(init_len: usize) -> (r: Self)
        ensures
            r.wf(),
            r.window() == Seq::<T>::empty(),
            r.cap() == init_len,
            r.spec_begin() == 0,
    {
        let mut buf: Vec<T> = Vec::new();
        let mut i: usize = 0;
        while i < init_len
            invariant
                i <= init_len,
                buf@.len() == i,
            decreases init_len - i,
        {
            buf.push(T::default());
            i = i + 1;
        }
        let r = Self { buf, begin: 0, end: 0 };
        proof {
            assert(r.window() =~= Seq::<T>::empty());
        }
        r
    }

    /// Moves the readable items to the front.
    pub fn trim(&mut self)
        requires
            old(self).wf(),
        ensures
            final(self).wf(),
            final(self).window() == old(self).window(),
            final(self).cap() == old(self).cap(),
            final(self).spec_begin() == 0,
            final(self).spec_end() == old(self).window().len(),
    {
        if self.begin > 0 {
            let n = self.end - self.begin;
            let mut i: usize = 0;
            let ghost w = self.window();
            while i < n
                invariant
                    self.wf(),
                    self.buf@.len() == old(self).buf@.len(),
                    self.begin == old(self).begin,
                    self.end == old(self).end,
                    n == self.end - self.begin,
                    self.begin > 0,
                    i <= n,
                    w == old(self).window(),
                    forall|j: int| 0 <= j < i ==> self.buf@[j] == w[j],
                    forall|j: int| i + self.begin <= j < self.end ==> self.buf@[j] == w[j - self.begin],
                decreases n - i,
            {
                let x = self.buf[i + self.begin];
                self.buf.set(i, x);
                i = i + 1;
            }
            self.end = n;
            self.begin = 0;
            proof {
                assert(self.window() =~= w);
            }
        }
    }

    /// The items of a range handed out by `rsplit_to`.
    pub fn at(&self, range: &RRange) -> (r: &[T])
        requires
            range.start <= range.end <= self.cap(),
        ensures
            r@ == self.items().subrange(range.start as int, range.end as int),
    {
        &self.buf.as_slice()[range.start..range.end]
    }

    /// Room left after the readable items.
    pub fn wsize(&self) -> (r: usize)
        requires
            self.wf(),
        ensures
            r == self.cap() - self.spec_end(),
    {
        self.buf.len() - self.end
    }

    /// Writes `input` into the room after the readable items, which must fit.
    pub fn wbuf(&mut self, input: &[T])
        requires
            old(self).wf(),
            old(self).spec_end() + input@.len() <= old(self).cap(),
        ensures
            final(self).wf(),
            final(self).window() == old(self).window() + input@,
            final(self).cap() == old(self).cap(),
            final(self).spec_begin() == old(self).spec_begin(),
    {
        let mut i: usize = 0;
        let ghost w = self.window();
        while i < input.len()
            invariant
                self.wf(),
                self.buf@.len() == old(self).buf@.len(),
                self.begin == old(self).begin,
                self.end + input@.len() - i <= self.buf@.len(),
                i <= input@.len(),
                self.window() == w + input@.take(i as int),
            decreases input@.len() - i,
        {
            let x = input[i];
            let e = self.end;
            let l = self.buf.len();
            let ghost before = self.buf@;
            let ghost prev = self.window();
            self.buf.set(e, x);
            proof {
                assert(e < l);
                assert(self.buf@ == before.update(e as int, x));
            }
            self.end = e + 1;
            i = i + 1;
            proof {
                assert(self.window() =~= prev.push(x));
                assert(input@.take(i as int) =~= input@.take(i - 1).push(x));
                assert(self.window() =~= w + input@.take(i as int));
            }
        }
        proof {
            assert(input@.take(i as int) =~= input@);
        }
    }

    /// Makes `cnt` more items readable.
    pub fn wadvance(&mut self, cnt: usize)
        requires
            old(self).wf(),
            old(self).spec_end() + cnt <= old(self).cap(),
        ensures
            final(self).wf(),
            final(self).window().len() == old(self).window().len() + cnt,
            final(self).window().take(old(self).window().len() as int) == old(self).window(),
            final(self).cap() == old(self).cap(),
    {
        let l = self.buf.len();
        proof {
            assert(self.end + cnt <= l);
        }
        self.end = self.end + cnt;
        proof {
            assert(self.window().take(old(self).window().len() as int) =~= old(self).window());
        }
    }

    /// Grows the buffer by `extra` default items.
    pub fn reserve(&mut self, extra: usize)
        requires
            old(self).wf(),
            old(self).cap() + extra <= usize::MAX,
        ensures
            final(self).wf(),
            final(self).window() == old(self).window(),
            final(self).cap() == old(self).cap() + extra,
            final(self).spec_begin() == old(self).spec_begin(),
            final(self).spec_end() == old(self).spec_end(),
    {
        let mut i: usize = 0;
        while i < extra
            invariant
                self.wf(),
                self.begin == old(self).begin,
                self.end == old(self).end,
                self.buf@.len() == old(self).buf@.len() + i,
                self.window() == old(self).window(),
                i <= extra,
            decreases extra - i,
        {
            let ghost w = self.window();
            self.buf.push(T::default());
            i = i + 1;
            proof {
                assert(self.window() =~= w);
            }
        }
    }

    /// Moves the readable items to the front, and grows the buffer by
    /// `extra` when no room is left.
    pub fn trim_and_check_reserve(&mut self, extra: usize)
        requires
            old(self).wf(),
            old(self).cap() + extra <= usize::MAX,
        ensures
            final(self).wf(),
            final(self).window() == old(self).window(),
            final(self).spec_begin() == 0,
            final(self).cap() == if old(self).window().len() == old(self).cap() { old(self).cap() + extra } else { old(self).cap() as int },
    {
        self.trim();
        if self.wsize() == 0 {
            self.reserve(extra);
        }
    }

    /// Appends `input`, dropping the oldest items where the buffer would
    /// overflow: what stays readable is the last `cap` items of the readable
    /// ones followed by `input`.
    pub fn push_rotate(&mut self, input: &[T])
        requires
            old(self).wf(),
        ensures
            final(self).wf(),
            final(self).cap() == old(self).cap(),
            final(self).window() == last_n(old(self).window() + input@, old(self).cap()),
    {
        let cap = self.buf.len();
        if input.len() > cap {
            let off = input.len() - cap;
            let (_, idata) = input.split_at(off);
            self.begin = 0;
            self.end = 0;
            proof {
                assert(self.window() =~= Seq::<T>::empty());
            }
            self.wbuf(idata);
            proof {
                assert(idata@ =~= (old(self).window() + input@).skip((old(self).window() + input@).len() - cap));
            }
            return;
        }
        if self.wsize() >= input.len() {
            self.wbuf(input);
            return;
        }
        let spare_len = self.begin + self.wsize();
        if spare_len >= input.len() {
            self.trim();
            self.wbuf(input);
            return;
        }
        let drop = input.len() - spare_len;
        let ghost w0 = self.window();
        self.radvance(drop);
        self.trim();
        self.wbuf(input);
        proof {
            assert(w0.skip(drop as int) + input@ =~= (w0 + input@).skip((w0 + input@).len() - cap));
        }
    }

    /// Number of readable items.
    pub fn rlen(&self) -> (r: usize)
        requires
            self.wf(),
        ensures
            r == self.window().len(),
    {
        self.end - self.begin
    }

    /// The readable items.
    pub fn rdata(&self) -> (r: &[T])
        requires
            self.wf(),
        ensures
            r@ == self.window(),
    {
        &self.buf.as_slice()[self.begin..self.end]
    }

    /// Drops the first `cnt` readable items.
    pub fn radvance(&mut self, cnt: usize)
        requires
            old(self).wf(),
            cnt <= old(self).window().len(),
        ensures
            final(self).wf(),
            final(self).window() == old(self).window().skip(cnt as int),
            final(self).cap() == old(self).cap(),
            final(self).spec_end() == old(self).spec_end(),
            final(self).spec_begin() == old(self).spec_begin() + cnt,
    {
        self.begin = self.begin + cnt;
        proof {
            assert(self.window() =~= old(self).window().skip(cnt as int));
        }
    }

    /// Hands out the first `at` readable items as a range, and drops them.
    pub fn rsplit_to(&mut self, at: usize) -> (r: RRange)
        requires
            old(self).wf(),
            at <= old(self).window().len(),
        ensures
            final(self).wf(),
            final(self).window() == old(self).window().skip(at as int),
            r.start == old(self).spec_begin(),
            r.end == old(self).spec_begin() + at,
            final(self).cap() == old(self).cap(),
    {
        let range = RRange { start: self.begin, end: self.begin + at };
        self.radvance(at);
        range
    }
}

} // verus!
