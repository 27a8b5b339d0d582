//! A reusable buffer that a reader fills with one payload at a time.
use vstd::prelude::*;

verus! {

/// Bytes read so far into a reusable vector.
#[derive(Debug, Clone)]
pub struct VecBuf {
    vec: Vec<u8>,
    pos: usize,
}

impl VecBuf {
    /// The bytes read so far.
    pub closed spec fn data(&self) -> Seq<u8> {
        self.vec@.take(self.pos as int)
    }

    /// Room the vector has beyond the bytes read.
    pub closed spec fn spare(&self) -> nat {
        (self.vec@.len() - self.pos) as nat
    }

    pub closed spec fn wf(&self) -> bool {
        self.pos <= self.vec@.len()
    }

    pub fn new() -> (r: Self)
        ensures
            r.wf(),
            r.data() == Seq::<u8>::empty(),
    {
        let r = Self { vec: Vec::new(), pos: 0 };
        proof {
            assert(r.data() =~= Seq::<u8>::empty());
        }
        r
    }

    /// Reuses `vec` as room; nothing counts as read.
    pub fn from_vec(vec: Vec<u8>) -> (r: Self)
        ensures
            r.wf(),
            r.data() == Seq::<u8>::empty(),
            r.spare() == vec@.len(),
    {
        let r = Self { vec, pos: 0 };
        proof {
            assert(r.data() =~= Seq::<u8>::empty());
        }
        r
    }

    /// Forgets the bytes read, keeping the room.
    pub fn clear(&mut self)
        requires
            old(self).wf(),
        ensures
            final(self).wf(),
            final(self).data() == Seq::<u8>::empty(),
    {
        self.pos = 0;
        proof {
            assert(self.data() =~= Seq::<u8>::empty());
        }
    }

    pub fn as_slice(&self) -> (r: &[u8])
        requires
            self.wf(),
        ensures
            r@ == self.data(),
    {
        &self.vec.as_slice()[0..self.pos]
    }

    /// Makes room for `additional` more bytes.
    pub fn spare_mut(&mut self, additional: usize)
        requires
            old(self).wf(),
            old(self).data().len() + additional <= usize::MAX,
        ensures
            final(self).wf(),
            final(self).data() == old(self).data(),
            final(self).spare() >= additional,
    {
        let limit = self.pos + additional;
        while self.vec.len() < limit
            invariant
                self.wf(),
                self.pos == old(self).pos,
                self.vec@.take(self.pos as int) == old(self).data(),
                limit == self.pos + additional,
            decreases limit - self.vec@.len(),
        {
            let ghost before = self.vec@;
            self.vec.push(0);
            proof {
                assert(self.vec@.take(self.pos as int) =~= before.take(self.pos as int));
            }
        }
    }

    /// Copies `src` into the room and counts it as read.
    pub fn take_up(&mut self, src: &[u8])
        requires
            old(self).wf(),
            src@.len() <= old(self).spare(),
        ensures
            final(self).wf(),
            final(self).data() == old(self).data() + src@,
    {
        let mut i: usize = 0;
        while i < src.len()
            invariant
                self.wf(),
                self.vec@.len() == old(self).vec@.len(),
                self.pos == old(self).pos + i,
                i <= src@.len(),
                src@.len() <= old(self).spare(),
                self.data() == old(self).data() + src@.take(i as int),
            decreases src@.len() - i,
        {
            let p = self.pos;
            let l = self.vec.len();
            proof {
                assert(p < l);
            }
            let ghost prev = self.data();
            self.vec.set(p, src[i]);
            self.pos = p + 1;
            i = i + 1;
            proof {
                assert(self.data() =~= prev.push(src@[i - 1]));
                assert(src@.take(i as int) =~= src@.take(i - 1).push(src@[i - 1]));
            }
        }
        proof {
            assert(src@.take(i as int) =~= src@);
        }
    }

    /// Whether `limit` bytes have been read.
    pub fn is_full(&self, limit: usize) -> (r: bool)
        requires
            self.wf(),
        ensures
            r == (self.data().len() >= limit),
    {
        self.pos >= limit
    }
}

} // verus!
