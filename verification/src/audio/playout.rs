//! Feeding the audio device: each time it asks for samples, the output is
//! filled from what is left of the last frame, then from whole frames taken
//! from the jitter buffer; a frame that does not fit is kept for next time,
//! and when the buffer runs dry the rest is silence.  Frames are taken as
//! `FRAME_SAMPLES` samples each (cut or padded with silence).

use vstd::prelude::*;

use crate::transport::jitter::AudioJitterBuffer;

verus! {

/// Samples per jitter-buffer frame: 10 ms at 48 kHz, two channels.
pub const FRAME_SAMPLES: usize = 960;

/// Interleaved channels of the output.
pub const CHANNELS: usize = 2;

/// `x` is a silent (default) sample.
pub open spec fn is_silence<T: Default>(x: T) -> bool {
    call_ensures(T::default, (), x)
}

/// `x` is what the slot `s` holds: the sample, or silence for `None`.
pub open spec fn fits<T: Default>(s: Option<T>, x: T) -> bool {
    match s {
        Some(v) => x == v,
        None => is_silence(x),
    }
}

/// The `FRAME_SAMPLES` slots a frame fills: its samples, then silence.
pub open spec fn frame_slots<T>(f: Seq<T>) -> Seq<Option<T>> {
    Seq::new(FRAME_SAMPLES as nat, |i: int| if i < f.len() { Some(f[i]) } else { None })
}

/// The slots of frames in turn.
pub open spec fn frames_slots<T>(fs: Seq<Seq<T>>) -> Seq<Option<T>>
    decreases fs.len(),
{
    if fs.len() == 0 {
        Seq::empty()
    } else {
        frames_slots(fs.drop_last()) + frame_slots(fs.last())
    }
}

/// Frames taken to fill `n` samples when `have` are left over and `queued`
/// frames wait: as many as needed, at most those waiting.
pub open spec fn frames_to_take(have: int, queued: int, n: int) -> int {
    let need = if n <= have {
        0
    } else {
        (n - have + FRAME_SAMPLES - 1) / (FRAME_SAMPLES as int)
    };
    if need <= queued {
        need
    } else {
        queued
    }
}

/// What a request for `n` samples draws on: the leftover samples, then the
/// slots of the frames taken.
pub open spec fn playout_stream<T>(left: Seq<T>, frames: Seq<Seq<T>>, n: int) -> Seq<Option<T>> {
    left.map_values(|x: T| Some(x)) + frames_slots(
        frames.take(frames_to_take(left.len() as int, frames.len() as int, n)),
    )
}

/// One request for `n` samples served from the leftover `left` and the
/// queued `frames`: `out` holds the slots of `playout_stream` in order, then
/// silence if they run out; the frames taken leave the queue; what the last
/// frame taken has beyond the request is the new leftover.
pub open spec fn rendered<T: Default>(
    left: Seq<T>,
    frames: Seq<Seq<T>>,
    n: int,
    out: Seq<T>,
    left_after: Seq<T>,
    frames_after: Seq<Seq<T>>,
) -> bool {
    let k = frames_to_take(left.len() as int, frames.len() as int, n);
    let s = playout_stream(left, frames, n);
    &&& frames_after == frames.subrange(k, frames.len() as int)
    &&& out.len() == n
    &&& forall|i: int|
        0 <= i < n ==> if i < s.len() {
            fits(s[i], #[trigger] out[i])
        } else {
            is_silence(out[i])
        }
    &&& if s.len() >= n {
        &&& left_after.len() == s.len() - n
        &&& forall|j: int| 0 <= j < s.len() - n ==> fits(s[n + j], #[trigger] left_after[j])
    } else {
        left_after.len() == 0
    }
}

proof fn lemma_frames_slots_len<T>(fs: Seq<Seq<T>>)
    ensures
        frames_slots(fs).len() == FRAME_SAMPLES * fs.len(),
    decreases fs.len(),
{
    if fs.len() > 0 {
        lemma_frames_slots_len(fs.drop_last());
    }
}

proof fn lemma_frames_slots_split<T>(fs: Seq<Seq<T>>, k: int)
    requires
        0 <= k <= fs.len(),
    ensures
        frames_slots(fs) == frames_slots(fs.take(k)) + frames_slots(fs.subrange(k, fs.len() as int)),
    decreases fs.len(),
{
    if fs.len() == k {
        assert(fs.take(k) =~= fs);
        assert(fs.subrange(k, fs.len() as int) =~= Seq::<Seq<T>>::empty());
        assert(frames_slots(fs.take(k)) + frames_slots(Seq::<Seq<T>>::empty()) =~= frames_slots(fs));
    } else {
        let p = fs.drop_last();
        lemma_frames_slots_split(p, k);
        assert(p.take(k) =~= fs.take(k));
        assert(fs.subrange(k, fs.len() as int).drop_last() =~= p.subrange(k, p.len() as int));
        assert(fs.subrange(k, fs.len() as int).last() == fs.last());
        assert(frames_slots(fs) =~= frames_slots(fs.take(k)) + frames_slots(
            fs.subrange(k, fs.len() as int),
        ));
    }
}

/// With enough queued, the frames taken cover the request.
proof fn lemma_enough_taken(have: int, queued: int, n: int)
    requires
        0 <= have,
        0 <= queued,
        0 <= n,
        have + FRAME_SAMPLES * queued >= n,
    ensures
        0 <= frames_to_take(have, queued, n) <= queued,
        have + FRAME_SAMPLES * frames_to_take(have, queued, n) >= n,
{
    if n > have {
        let d = n - have;
        assert((d + 959) / 960 <= queued && 960 * ((d + 959) / 960) >= d && (d + 959) / 960 >= 0)
            by (nonlinear_arith)
            requires
                0 < d <= 960 * queued,
        ;
    }
}

/// Two requests in a row play the queued audio without a gap, a repeat or
/// a reordering: while enough is queued for both, the two outputs together
/// hold the first slots of the leftover and of the frames, in order.
pub proof fn playout_is_continuous<T: Default>(
    left: Seq<T>,
    frames: Seq<Seq<T>>,
    n1: int,
    out1: Seq<T>,
    left1: Seq<T>,
    frames1: Seq<Seq<T>>,
    n2: int,
    out2: Seq<T>,
    left2: Seq<T>,
    frames2: Seq<Seq<T>>,
)
    requires
        0 <= n1,
        0 <= n2,
        rendered(left, frames, n1, out1, left1, frames1),
        rendered(left1, frames1, n2, out2, left2, frames2),
        left.len() + FRAME_SAMPLES * frames.len() >= n1 + n2,
    ensures
        forall|i: int|
            0 <= i < n1 + n2 ==> fits(
                (left.map_values(|x: T| Some(x)) + frames_slots(frames))[i],
                #[trigger] (out1 + out2)[i],
            ),
{
    let whole = left.map_values(|x: T| Some(x)) + frames_slots(frames);
    let k1 = frames_to_take(left.len() as int, frames.len() as int, n1);
    let s1 = playout_stream(left, frames, n1);
    lemma_enough_taken(left.len() as int, frames.len() as int, n1);
    lemma_frames_slots_len(frames.take(k1));
    lemma_frames_slots_split(frames, k1);
    assert(s1.len() >= n1);
    assert(left1.len() == s1.len() - n1);
    assert(frames1 == frames.subrange(k1, frames.len() as int));
    lemma_enough_taken(left1.len() as int, frames1.len() as int, n2);
    let k2 = frames_to_take(left1.len() as int, frames1.len() as int, n2);
    let s2 = playout_stream(left1, frames1, n2);
    lemma_frames_slots_len(frames1.take(k2));
    lemma_frames_slots_split(frames1, k2);
    assert(s2.len() >= n2);
    assert forall|i: int| 0 <= i < n1 + n2 implies fits(whole[i], #[trigger] (out1 + out2)[i]) by {
        if i < n1 {
            assert((out1 + out2)[i] == out1[i]);
            assert(fits(s1[i], out1[i]));
            assert(s1[i] == whole[i]);
        } else {
            let m = i - n1;
            assert((out1 + out2)[i] == out2[m]);
            assert(fits(s2[m], out2[m]));
            if m < left1.len() {
                assert(s2[m] == Some(left1[m]));
                assert(fits(s1[n1 + m], left1[m]));
                assert(s1[n1 + m] == whole[n1 + m]);
            } else {
                let q = m - left1.len();
                assert(s2[m] == frames_slots(frames1.take(k2))[q]);
                assert(frames_slots(frames1.take(k2))[q] == frames_slots(frames1)[q]);
                assert(whole[i] == frames_slots(frames)[i - left.len()]);
                assert(i - left.len() == FRAME_SAMPLES * k1 + q);
                assert(frames_slots(frames)[i - left.len()] == frames_slots(frames1)[q]);
            }
        }
    }
}

pub struct Playout<T> {
    residual: Vec<T>,
    residual_offset: usize,
    samples_played: u64,
}

impl<T: Copy + Default> Playout<T> {
    /// Samples of the last frame not played yet.
    pub closed spec fn leftover(&self) -> Seq<T> {
        self.residual@.subrange(self.residual_offset as int, self.residual@.len() as int)
    }

    /// Sample frames (one sample per channel) handed to the device so far,
    /// modulo 2^64.
    pub closed spec fn played(&self) -> u64 {
        self.samples_played
    }

    pub closed spec fn wf(&self) -> bool {
        self.residual_offset <= self.residual@.len()
    }

    pub fn new() -> (p: Self)
        ensures
            p.wf(),
            p.leftover() == Seq::<T>::empty(),
            p.played() == 0,
    {
        let p = Playout { residual: Vec::new(), residual_offset: 0, samples_played: 0 };
        assert(p.leftover() =~= Seq::<T>::empty());
        p
    }

    /// Sample frames handed to the device so far.
    pub fn samples_played(&self) -> (n: u64)
        ensures
            n == self.played(),
    {
        self.samples_played
    }

    /// Fills `out` for the device.  See `playout_stream`: the output holds
    /// its slots in order, then silence if they run out; what the last frame
    /// taken has beyond `out` is kept.
    pub fn render(&mut self, jitter: &mut AudioJitterBuffer<T>, out: &mut [T])
        requires
            old(self).wf(),
        ensures
            final(self).wf(),
            rendered(
                old(self).leftover(),
                old(jitter).frames(),
                old(out)@.len() as int,
                final(out)@,
                final(self).leftover(),
                final(jitter).frames(),
            ),
            final(jitter).capacity() == old(jitter).capacity(),
            final(self).played() == (old(self).played() + old(out)@.len() / 2) % 0x1_0000_0000_0000_0000,
    {
        let n = out.len();
        let ghost left = self.leftover();
        let ghost frames = jitter.frames();
        let ghost lefts = left.map_values(|x: T| Some(x));
        let mut written: usize = 0;
        if self.residual_offset < self.residual.len() {
            let avail = self.residual.len() - self.residual_offset;
            let to_copy = if avail < n {
                avail
            } else {
                n
            };
            let off = self.residual_offset;
            while written < to_copy
                invariant
                    written <= to_copy,
                    to_copy <= n,
                    n == out@.len(),
                    off + to_copy <= self.residual.len(),
                    self.residual_offset == off,
                    left == self.residual@.subrange(off as int, self.residual@.len() as int),
                    forall|i: int| 0 <= i < written ==> out@[i] == left[i],
                decreases to_copy - written,
            {
                out[written] = self.residual[off + written];
                written = written + 1;
            }
            self.residual_offset = off + to_copy;
        }
        proof {
            assert(frames.take(0) =~= Seq::<Seq<T>>::empty());
            assert(lefts + frames_slots(frames.take(0)) =~= lefts);
            assert(self.leftover() =~= left.subrange(written as int, left.len() as int));
        }
        let ghost mut j: int = 0;
        let mut frame_buf: Vec<T> = Vec::new();
        let mut t: usize = 0;
        while t < FRAME_SAMPLES
            invariant
                t <= FRAME_SAMPLES,
                frame_buf@.len() == t,
            decreases FRAME_SAMPLES - t,
        {
            frame_buf.push(T::default());
            t = t + 1;
        }
        let mut dry = false;
        while written < n && !dry
            invariant
                self.wf(),
                dry ==> {
                    &&& j == frames.len()
                    &&& written == left.len() + FRAME_SAMPLES * j
                    &&& written < n
                    &&& self.leftover().len() == 0
                    &&& forall|i: int| written <= i < n ==> is_silence(#[trigger] out@[i])
                },
                written == n && j == 0 ==> left.len() >= n,
                n == out@.len(),
                0 <= j <= frames.len(),
                jitter.frames() == frames.subrange(j, frames.len() as int),
                jitter.capacity() == old(jitter).capacity(),
                frame_buf@.len() == FRAME_SAMPLES,
                written <= n,
                written < n ==> written == left.len() + FRAME_SAMPLES * j && self.leftover().len() == 0,
                written <= left.len() + FRAME_SAMPLES * j,
                j > 0 ==> left.len() + FRAME_SAMPLES * (j - 1) < n,
                j > 0 ==> left.len() < n,
                written == n && j > 0 ==> left.len() + FRAME_SAMPLES * j >= n,
                written == n && j > 0 && left.len() + FRAME_SAMPLES * j > n ==> {
                    let s = lefts + frames_slots(frames.take(j));
                    &&& self.leftover().len() == s.len() - n
                    &&& forall|q: int|
                        0 <= q < s.len() - n ==> fits(s[n + q], #[trigger] self.leftover()[q])
                },
                written == n && j > 0 && left.len() + FRAME_SAMPLES * j == n ==> self.leftover().len()
                    == 0,
                written == n && j == 0 ==> self.leftover() == left.subrange(n as int, left.len() as int),
                lefts == left.map_values(|x: T| Some(x)),
                forall|i: int|
                    0 <= i < written ==> fits(
                        (lefts + frames_slots(frames.take(j)))[i],
                        #[trigger] out@[i],
                    ),
                self.samples_played == old(self).samples_played,
            decreases n - written + if dry {
                0int
            } else {
                1int
            },
        {
            proof {
                lemma_frames_slots_len(frames.take(j));
            }
            let ghost before_out = out@;
            let got = jitter.pull_frame(frame_buf.as_mut_slice());
            if !got {
                proof {
                    assert(frames.subrange(j, frames.len() as int).len() == 0);
                }
                let mut t = written;
                while t < n
                    invariant
                        written <= t <= n,
                        n == out@.len(),
                        forall|i: int| 0 <= i < written ==> out@[i] == before_out[i],
                        forall|i: int| written <= i < t ==> is_silence(#[trigger] out@[i]),
                    decreases n - t,
                {
                    out[t] = T::default();
                    t = t + 1;
                }
                proof {
                    assert forall|i: int| 0 <= i < written implies fits(
                        (lefts + frames_slots(frames.take(j)))[i],
                        #[trigger] out@[i],
                    ) by {
                        assert(out@[i] == before_out[i]);
                    }
                }
                dry = true;
                continue;
            }
            let ghost fr = frames[j];
            proof {
                assert(frames.take(j + 1).drop_last() =~= frames.take(j));
                assert(frames.subrange(j, frames.len() as int)[0] == fr);
                assert(jitter.frames() =~= frames.subrange(j + 1, frames.len() as int));
                assert forall|i: int| 0 <= i < FRAME_SAMPLES implies fits(
                    #[trigger] frame_slots(fr)[i],
                    frame_buf@[i],
                ) by {}
            }
            let ghost s_prev = lefts + frames_slots(frames.take(j));
            let ghost s_next = lefts + frames_slots(frames.take(j + 1));
            proof {
                assert(s_next =~= s_prev + frame_slots(fr));
            }
            let remaining = n - written;
            let w0 = written;
            let take = if FRAME_SAMPLES <= remaining {
                FRAME_SAMPLES
            } else {
                remaining
            };
            let mut t: usize = 0;
            while t < take
                invariant
                    t <= take,
                    take <= FRAME_SAMPLES,
                    w0 + take <= n,
                    n == out@.len(),
                    frame_buf@.len() == FRAME_SAMPLES,
                    forall|i: int| 0 <= i < w0 ==> out@[i] == before_out[i],
                    forall|i: int| 0 <= i < t ==> out@[w0 + i] == frame_buf@[i],
                decreases take - t,
            {
                out[w0 + t] = frame_buf[t];
                t = t + 1;
            }
            written = w0 + take;
            if take < FRAME_SAMPLES {
                let mut rest: Vec<T> = Vec::new();
                let mut u: usize = take;
                while u < FRAME_SAMPLES
                    invariant
                        take <= u <= FRAME_SAMPLES,
                        frame_buf@.len() == FRAME_SAMPLES,
                        rest@ == frame_buf@.subrange(take as int, u as int),
                    decreases FRAME_SAMPLES - u,
                {
                    rest.push(frame_buf[u]);
                    u = u + 1;
                    assert(rest@ =~= frame_buf@.subrange(take as int, u as int));
                }
                self.residual = rest;
                self.residual_offset = 0;
            }
            proof {
                assert(s_prev.len() == w0);
                assert forall|i: int| 0 <= i < written implies fits(
                    s_next[i],
                    #[trigger] out@[i],
                ) by {
                    if i < w0 {
                        assert(out@[i] == before_out[i]);
                        assert(s_next[i] == s_prev[i]);
                    } else {
                        assert(out@[w0 + (i - w0)] == frame_buf@[i - w0]);
                        assert(s_next[i] == frame_slots(fr)[i - w0]);
                    }
                }
                if take < FRAME_SAMPLES {
                    assert(self.leftover() =~= frame_buf@.subrange(take as int, FRAME_SAMPLES as int));
                    assert forall|q: int| 0 <= q < s_next.len() - n implies fits(
                        s_next[n + q],
                        #[trigger] self.leftover()[q],
                    ) by {
                        assert(s_next[n + q] == frame_slots(fr)[take + q]);
                        assert(self.leftover()[q] == frame_buf@[take + q]);
                    }
                }
                j = j + 1;
                lemma_frames_slots_len(frames.take(j));
            }
        }
        proof {
            let k = frames_to_take(left.len() as int, frames.len() as int, n as int);
            lemma_frames_slots_len(frames.take(j));
            if j == 0 {
                assert(k == 0);
            } else if written == n {
                assert(left.len() + FRAME_SAMPLES * (j - 1) < n <= left.len() + FRAME_SAMPLES * j);
                assert((n - left.len() + FRAME_SAMPLES - 1) / (FRAME_SAMPLES as int) == j) by {
                    let d = n - left.len();
                    assert(960 * (j - 1) < d <= 960 * j);
                    assert((d + 959) / 960 == j) by (nonlinear_arith)
                        requires
                            960 * (j - 1) < d <= 960 * j,
                            j > 0,
                    ;
                }
                assert(k == j);
            }
            if written < n {
                // the buffer ran dry: every frame was taken and more were needed
                assert(dry);
                assert(j == frames.len());
                assert(left.len() + FRAME_SAMPLES * j < n);
                assert((n - left.len() + FRAME_SAMPLES - 1) / (FRAME_SAMPLES as int) > j) by {
                    let d = n - left.len();
                    assert((d + 959) / 960 > j) by (nonlinear_arith)
                        requires
                            960 * j < d,
                            j >= 0,
                    ;
                }
                assert(k == j);
            }
            assert(frames.take(k) == frames.take(j));
        }
        self.samples_played = self.samples_played.wrapping_add((n / CHANNELS) as u64);
    }
}

} // verus!
