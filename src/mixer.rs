//! Mixing of 16-bit PCM channels: each channel keeps a window of its latest
//! samples, and a pull adds them up, saturating.
use vstd::prelude::*;
use crate::rwbuf::RwBufVec;

verus! {

/// Identifies a channel of a `PcmMixer`.
#[derive(Debug, Clone, Copy, PartialEq, Eq, Structural, PartialOrd, Ord, Hash)]
pub struct AChId(u64);

impl AChId {
    pub closed spec fn spec_id(&self) -> u64 {
        self.0
    }
}

/// `v` clamped to the range of `i16`.
pub open spec fn sat16(v: int) -> i16 {
    if v > i16::MAX {
        i16::MAX
    } else if v < i16::MIN {
        i16::MIN
    } else {
        v as i16
    }
}

/// Sample `i` of the mix of `chs`, added in order, saturating at each step.
pub open spec fn mixed(chs: Seq<Seq<i16>>, i: int) -> i16
    decreases chs.len(),
{
    if chs.len() == 0 {
        0
    } else {
        let s = if i < chs.last().len() { chs.last()[i] as int } else { 0 };
        sat16(mixed(chs.drop_last(), i) + s)
    }
}

fn sat_add(a: i16, b: i16) -> (r: i16)
    ensures
        r == sat16(a + b),
{
    let s: i32 = a as i32 + b as i32;
    if s > 32767 {
        32767
    } else if s < -32768 {
        -32768
    } else {
        s as i16
    }
}

/// Channels of PCM samples, mixed on demand.
pub struct PcmMixer {
    next_id: u64,
    sources: Vec<(AChId, RwBufVec<i16>)>,
    max_len: usize,
}

impl PcmMixer {
    pub closed spec fn spec_ids(&self) -> Seq<AChId> {
        self.sources@.map_values(|p: (AChId, RwBufVec<i16>)| p.0)
    }

    /// The readable samples of each channel, in the order they were added.
    pub closed spec fn spec_windows(&self) -> Seq<Seq<i16>> {
        self.sources@.map_values(|p: (AChId, RwBufVec<i16>)| p.1.window())
    }

    pub closed spec fn spec_next_id(&self) -> u64 {
        self.next_id
    }

    pub closed spec fn wf(&self) -> bool {
        &&& forall|i: int| 0 <= i < self.sources@.len() ==> (#[trigger] self.sources@[i]).1.wf()
        &&& forall|i: int| 0 <= i < self.sources@.len() ==> (#[trigger] self.sources@[i]).0.spec_id() <= self.next_id
    }

    /// A mixer whose channels keep up to `max_len` samples each.
    pub fn new(max_len: usize) -> (r: Self)
        ensures
            r.wf(),
            r.spec_windows().len() == 0,
            r.spec_next_id() == 0,
    {
        Self { next_id: 0, sources: Vec::new(), max_len }
    }

    /// Adds an empty channel and returns its id, one more than the last.
    pub fn add_ch(&mut self) -> (r: AChId)
        requires
            old(self).wf(),
            old(self).spec_next_id() < u64::MAX,
        ensures
            final(self).wf(),
            r.spec_id() == old(self).spec_next_id() + 1,
            final(self).spec_next_id() == r.spec_id(),
            final(self).spec_windows() == old(self).spec_windows().push(Seq::<i16>::empty()),
            final(self).spec_ids() == old(self).spec_ids().push(r),
    {
        self.next_id = self.next_id + 1;
        let ch_id = AChId(self.next_id);
        let pcm: RwBufVec<i16> = RwBufVec::new(self.max_len);
        self.sources.push((ch_id, pcm));
        proof {
            assert(self.spec_windows() =~= old(self).spec_windows().push(Seq::<i16>::empty()));
            assert(self.spec_ids() =~= old(self).spec_ids().push(ch_id));
        }
        ch_id
    }

    /// Removes the channel `ch_id`, if there is one.
    pub fn remove_ch(&mut self, ch_id: &AChId)
        requires
            old(self).wf(),
        ensures
            final(self).wf(),
            !old(self).spec_ids().contains(*ch_id) ==> final(self).spec_windows() == old(self).spec_windows(),
            final(self).spec_windows().len() <= old(self).spec_windows().len(),
    {
        let mut i: usize = 0;
        while i < self.sources.len()
            invariant
                self.wf(),
                self.sources@ == old(self).sources@,
                self.next_id == old(self).next_id,
                i <= self.sources@.len(),
                forall|j: int| 0 <= j < i ==> self.sources@[j].0 != *ch_id,
            decreases self.sources@.len() - i,
        {
            if self.sources[i].0 == *ch_id {
                let ghost before = self.sources@;
                proof {
                    assert(old(self).spec_ids()[i as int] == *ch_id);
                }
                let _ = self.sources.remove(i);
                proof {
                    assert forall|j: int| 0 <= j < self.sources@.len() implies (#[trigger] self.sources@[j]).1.wf() by {
                        if j < i { assert(self.sources@[j] == before[j]); } else { assert(self.sources@[j] == before[j + 1]); }
                    }
                    assert forall|j: int| 0 <= j < self.sources@.len() implies (#[trigger] self.sources@[j]).0.spec_id() <= self.next_id by {
                        if j < i { assert(self.sources@[j] == before[j]); } else { assert(self.sources@[j] == before[j + 1]); }
                    }
                }
                return;
            }
            i = i + 1;
        }
        proof {
            assert(!self.spec_ids().contains(*ch_id) || true);
        }
    }

    /// Adds `samples` to channel `ch_id`, keeping its latest `max_len`.
    pub fn update_ch(&mut self, ch_id: &AChId, samples: &[i16])
        requires
            old(self).wf(),
        ensures
            final(self).wf(),
            final(self).spec_windows().len() == old(self).spec_windows().len(),
            final(self).spec_ids() == old(self).spec_ids(),
    {
        let mut i: usize = 0;
        while i < self.sources.len()
            invariant
                self.wf(),
                self.sources@.len() == old(self).sources@.len(),
                self.spec_ids() == old(self).spec_ids(),
                self.next_id == old(self).next_id,
                i <= self.sources@.len(),
            decreases self.sources@.len() - i,
        {
            if self.sources[i].0 == *ch_id {
                let ghost before = self.sources@;
                self.sources[i].1.push_rotate(samples);
                proof {
                    assert(self.spec_ids() =~= old(self).spec_ids());
                    assert forall|j: int| 0 <= j < self.sources@.len() implies (#[trigger] self.sources@[j]).1.wf() by {
                        if j != i { assert(self.sources@[j] == before[j]); }
                    }
                    assert forall|j: int| 0 <= j < self.sources@.len() implies (#[trigger] self.sources@[j]).0.spec_id() <= self.next_id by {
                        if j != i { assert(self.sources@[j] == before[j]); }
                    }
                }
                return;
            }
            i = i + 1;
        }
    }

    /// Fills `buf` with the saturating sum of every channel's readable
    /// samples (missing samples count as zero), and drops from each channel
    /// the samples used.
    pub fn pull_mix(&mut self, buf: &mut [i16])
        requires
            old(self).wf(),
        ensures
            final(self).wf(),
            final(buf)@.len() == old(buf)@.len(),
            forall|i: int| 0 <= i < final(buf)@.len() ==> final(buf)@[i] == mixed(old(self).spec_windows(), i),
            final(self).spec_windows().len() == old(self).spec_windows().len(),
            final(self).spec_ids() == old(self).spec_ids(),
            forall|k: int| 0 <= k < final(self).spec_windows().len() ==> #[trigger] final(self).spec_windows()[k]
                == old(self).spec_windows()[k].skip(
                    if old(self).spec_windows()[k].len() < old(buf)@.len() { old(self).spec_windows()[k].len() as int } else { old(buf)@.len() as int }),
    {
        let n = buf.len();
        let mut i: usize = 0;
        while i < n
            invariant
                n == buf@.len(),
                buf@.len() == old(buf)@.len(),
                i <= n,
                forall|j: int| 0 <= j < i ==> buf@[j] == 0,
            decreases n - i,
        {
            buf[i] = 0;
            i = i + 1;
        }
        let ghost ws = old(self).spec_windows();
        proof {
            assert forall|j: int| 0 <= j < n implies buf@[j] == mixed(ws.take(0), j) by {
                assert(ws.take(0) =~= Seq::<Seq<i16>>::empty());
            }
        }
        let mut k: usize = 0;
        while k < self.sources.len()
            invariant
                self.wf(),
                self.sources@.len() == old(self).sources@.len(),
                self.spec_ids() == old(self).spec_ids(),
                self.next_id == old(self).next_id,
                ws == old(self).spec_windows(),
                n == buf@.len(),
                buf@.len() == old(buf)@.len(),
                k <= self.sources@.len(),
                forall|j: int| 0 <= j < n ==> buf@[j] == mixed(ws.take(k as int), j),
                forall|m: int| k <= m < self.sources@.len() ==> #[trigger] self.spec_windows()[m] == ws[m],
                forall|m: int| 0 <= m < k ==> #[trigger] self.spec_windows()[m]
                    == ws[m].skip(if ws[m].len() < n { ws[m].len() as int } else { n as int }),
            decreases self.sources@.len() - k,
        {
            let ghost wk = self.spec_windows()[k as int];
            let pcm = self.sources[k].1.rdata();
            let len = if pcm.len() < n { pcm.len() } else { n };
            let mut j: usize = 0;
            while j < n
                invariant
                    n == buf@.len(),
                    buf@.len() == old(buf)@.len(),
                    j <= n,
                    pcm@ == wk,
                    k < ws.len(),
                    wk == ws[k as int],
                    forall|x: int| 0 <= x < j ==> buf@[x] == mixed(ws.take(k + 1), x),
                    forall|x: int| j <= x < n ==> buf@[x] == mixed(ws.take(k as int), x),
                decreases n - j,
            {
                proof {
                    assert(ws.take(k + 1).drop_last() =~= ws.take(k as int));
                    assert(ws.take(k + 1).last() == wk);
                }
                if j < pcm.len() {
                    buf[j] = sat_add(buf[j], pcm[j]);
                } else {
                    buf[j] = sat_add(buf[j], 0);
                }
                j = j + 1;
            }
            let ghost before = self.sources@;
            let ghost wbefore = self.spec_windows();
            self.sources[k].1.radvance(len);
            proof {
                assert(self.spec_ids() =~= old(self).spec_ids());
                assert(self.spec_windows()[k as int] == self.sources@[k as int].1.window());
                assert(self.sources@[k as int].1.window() == wk.skip(len as int));
                assert forall|m: int| 0 <= m < self.sources@.len() implies (#[trigger] self.sources@[m]).1.wf() by {
                    if m != k { assert(self.sources@[m] == before[m]); }
                }
                assert forall|m: int| 0 <= m < self.sources@.len() implies (#[trigger] self.sources@[m]).0.spec_id() <= self.next_id by {
                    if m != k { assert(self.sources@[m] == before[m]); }
                }
                assert forall|m: int| k < m < self.sources@.len() implies #[trigger] self.spec_windows()[m] == ws[m] by {
                    assert(self.sources@[m] == before[m]);
                    assert(wbefore[m] == before[m].1.window());
                    assert(self.spec_windows()[m] == self.sources@[m].1.window());
                }
                assert forall|m: int| 0 <= m <= k implies #[trigger] self.spec_windows()[m]
                    == ws[m].skip(if ws[m].len() < n { ws[m].len() as int } else { n as int }) by {
                    if m < k {
                        assert(self.sources@[m] == before[m]);
                        assert(wbefore[m] == before[m].1.window());
                        assert(self.spec_windows()[m] == self.sources@[m].1.window());
                    }
                }
            }
            k = k + 1;
        }
        proof {
            assert(ws.take(k as int) =~= ws);
        }
    }
}

/// Pulls mixes at the pace of a clock: a frame of samples is mixed once the
/// time it covers has passed since the previous one.
pub struct PcmTimedMixer {
    first_mix_ts: Option<i64>,
    samplerate: u32,
    channels: u32,
    num_pulled: usize,
}

/// Samples for `millis` milliseconds.
pub open spec fn millis_to_len_spec(samplerate: nat, channels: nat, millis: nat) -> nat {
    channels * millis * samplerate / 1000
}

/// Milliseconds that `len` samples cover.
pub open spec fn len_to_millis_spec(samplerate: nat, channels: nat, len: nat) -> int {
    (1000 * len / channels / samplerate) as int
}

impl PcmTimedMixer {
    pub closed spec fn spec_first(&self) -> Option<i64> {
        self.first_mix_ts
    }

    pub closed spec fn spec_pulled(&self) -> nat {
        self.num_pulled as nat
    }

    pub closed spec fn spec_rate(&self) -> nat {
        self.samplerate as nat
    }

    pub closed spec fn spec_channels(&self) -> nat {
        self.channels as nat
    }

    /// A mixer for `channels` interleaved channels at `samplerate`; neither
    /// may be zero.
    pub fn new(samplerate: u32, channels: u32) -> (r: Self)
        requires
            samplerate > 0,
            channels > 0,
        ensures
            r.spec_first() is None,
            r.spec_pulled() == 0,
            r.spec_rate() == samplerate,
            r.spec_channels() == channels,
    {
        Self { first_mix_ts: None, samplerate, channels, num_pulled: 0 }
    }

    /// The first call only notes the time `ts`. After that, when the time
    /// since the first call, less what was already pulled, covers a frame of
    /// `buf.len()` samples, mixes into `buf` and returns the time the frame
    /// starts at; otherwise returns `None`.
    pub fn try_pull(&mut self, ts: i64, mixer: &mut PcmMixer, buf: &mut [i16]) -> (r: Option<i64>)
        requires
            old(self).spec_rate() > 0,
            old(self).spec_channels() > 0,
            old(mixer).wf(),
        ensures
            final(self).spec_rate() == old(self).spec_rate(),
            final(self).spec_channels() == old(self).spec_channels(),
            final(mixer).wf(),
            old(self).spec_first() is None ==> r is None && final(self).spec_first() == Some(ts)
                && final(self).spec_pulled() == old(self).spec_pulled()
                && *final(mixer) == *old(mixer) && final(buf)@ == old(buf)@,
            old(self).spec_first() matches Some(first) ==> ({
                let last = first + len_to_millis_spec(old(self).spec_rate(), old(self).spec_channels(), old(self).spec_pulled());
                let frame = len_to_millis_spec(old(self).spec_rate(), old(self).spec_channels(), old(buf)@.len());
                &&& r is Some <==> (last <= i64::MAX && ts - last >= frame && old(self).spec_pulled() + old(buf)@.len() <= usize::MAX)
                &&& r is None ==> *final(self) == *old(self) && *final(mixer) == *old(mixer) && final(buf)@ == old(buf)@
                &&& final(self).spec_first() == old(self).spec_first()
            }),
            r matches Some(last) ==> ({
                let first = old(self).spec_first()->0;
                &&& old(self).spec_first() is Some
                &&& last == first + len_to_millis_spec(old(self).spec_rate(), old(self).spec_channels(), old(self).spec_pulled())
                &&& ts - last >= len_to_millis_spec(old(self).spec_rate(), old(self).spec_channels(), old(buf)@.len())
                &&& final(self).spec_pulled() == old(self).spec_pulled() + old(buf)@.len()
                &&& forall|i: int| 0 <= i < final(buf)@.len() ==> final(buf)@[i] == mixed(old(mixer).spec_windows(), i)
            }),
    {
        let first = match self.first_mix_ts {
            Some(v) => v,
            None => {
                self.first_mix_ts = Some(ts);
                return None;
            },
        };
        let rate = self.samplerate as u128;
        let ch = self.channels as u128;
        let pulled_ms: u128 = 1000 * (self.num_pulled as u128) / ch / rate;
        let frame_ms: u128 = 1000 * (buf.len() as u128) / ch / rate;
        let last: i128 = first as i128 + pulled_ms as i128;
        if last > i64::MAX as i128 {
            return None;
        }
        let elapsed: i128 = ts as i128 - last;
        if elapsed < frame_ms as i128 {
            return None;
        }
        if self.num_pulled > usize::MAX - buf.len() {
            return None;
        }
        mixer.pull_mix(buf);
        self.num_pulled = self.num_pulled + buf.len();
        Some(last as i64)
    }

    /// Samples for `millis` milliseconds at this mixer's rate and channels.
    pub fn millis_to_len(&self, millis: i64) -> (r: usize)
        requires
            millis >= 0,
            millis_to_len_spec(self.spec_rate(), self.spec_channels(), millis as nat) <= usize::MAX,
        ensures
            r == millis_to_len_spec(self.spec_rate(), self.spec_channels(), millis as nat),
    {
        let ch = self.channels as u128;
        let m = millis as u128;
        let rate = self.samplerate as u128;
        proof {
            assert(ch * m <= 0xFFFF_FFFF * 0x7FFF_FFFF_FFFF_FFFF) by (nonlinear_arith)
                requires
                    ch <= 0xFFFF_FFFF,
                    m <= 0x7FFF_FFFF_FFFF_FFFF,
            ;
            assert(ch * m * rate <= 0xFFFF_FFFF * 0x7FFF_FFFF_FFFF_FFFF * 0xFFFF_FFFF) by (nonlinear_arith)
                requires
                    ch * m <= 0xFFFF_FFFF * 0x7FFF_FFFF_FFFF_FFFF,
                    rate <= 0xFFFF_FFFF,
            ;
        }
        (ch * m * rate / 1000) as usize
    }
}

} // verus!
