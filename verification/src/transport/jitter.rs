//! A bounded FIFO of audio frames that absorbs network jitter: when full, a
//! new frame pushes out the oldest one.  Generic over the sample type.

use std::collections::VecDeque;
use vstd::prelude::*;
use vstd::slice::slice_to_vec;

verus! {

pub struct AudioJitterBuffer<T> {
    frames: VecDeque<Vec<T>>,
    capacity: usize,
}

impl<T: Copy + Default> AudioJitterBuffer<T> {
    /// The buffered frames, oldest first.
    pub closed spec fn frames(&self) -> Seq<Seq<T>> {
        self.frames@.map_values(|f: Vec<T>| f@)
    }

    pub closed spec fn capacity(&self) -> usize {
        self.capacity
    }

    pub fn new(capacity: usize) -> (b: Self)
        ensures
            b.frames() == Seq::<Seq<T>>::empty(),
            b.capacity() == capacity,
    {
        let b = AudioJitterBuffer { frames: VecDeque::with_capacity(capacity), capacity };
        assert(b.frames() =~= Seq::<Seq<T>>::empty());
        b
    }

    /// Appends a frame; when the buffer already holds `capacity` frames, the
    /// oldest one is dropped first.
    pub fn push_frame(&mut self, samples: &[T])
        ensures
            final(self).capacity() == old(self).capacity(),
            final(self).frames() == (if old(self).frames().len() == old(self).capacity()
                && old(self).frames().len() > 0 {
                old(self).frames().drop_first()
            } else {
                old(self).frames()
            }).push(samples@),
            old(self).capacity() >= 1 && old(self).frames().len() <= old(self).capacity()
                ==> final(self).frames().len() <= final(self).capacity(),
    {
        let ghost before = self.frames@;
        if self.frames.len() == self.capacity {
            self.frames.pop_front();
        }
        let ghost mid = self.frames@;
        self.frames.push_back(slice_to_vec(samples));
        proof {
            if before.len() == self.capacity && before.len() > 0 {
                assert(mid.map_values(|f: Vec<T>| f@) =~= before.map_values(|f: Vec<T>| f@).drop_first());
            } else {
                assert(mid == before);
            }
            assert(self.frames() =~= mid.map_values(|f: Vec<T>| f@).push(samples@));
        }
    }

    /// Takes the oldest frame into `out`: its first samples, as many as fit,
    /// then default samples to the end of `out`.  `false` when empty.
    pub fn pull_frame(&mut self, out: &mut [T]) -> (pulled: bool)
        ensures
            final(self).capacity() == old(self).capacity(),
            final(out)@.len() == old(out)@.len(),
            old(self).frames().len() == 0 ==> !pulled && final(self).frames() == old(self).frames()
                && final(out)@ == old(out)@,
            old(self).frames().len() > 0 ==> {
                let frame = old(self).frames()[0];
                &&& pulled
                &&& final(self).frames() == old(self).frames().drop_first()
                &&& forall|i: int|
                    0 <= i < old(out)@.len() ==> if i < frame.len() {
                        final(out)@[i] == frame[i]
                    } else {
                        call_ensures(T::default, (), #[trigger] final(out)@[i])
                    }
            },
    {
        let ghost before = self.frames@;
        match self.frames.pop_front() {
            Some(frame) => {
                proof {
                    assert(self.frames() =~= before.map_values(|f: Vec<T>| f@).drop_first());
                }
                let copy_len = if frame.len() < out.len() {
                    frame.len()
                } else {
                    out.len()
                };
                let mut i: usize = 0;
                while i < copy_len
                    invariant
                        i <= copy_len,
                        copy_len <= frame@.len(),
                        copy_len <= old(out)@.len(),
                        out@.len() == old(out)@.len(),
                        forall|j: int| 0 <= j < i ==> out@[j] == frame@[j],
                    decreases copy_len - i,
                {
                    out[i] = frame[i];
                    i = i + 1;
                }
                let mut k: usize = copy_len;
                while k < out.len()
                    invariant
                        copy_len <= k <= out@.len(),
                        copy_len <= frame@.len(),
                        out@.len() == old(out)@.len(),
                        copy_len == frame@.len() || copy_len == out@.len(),
                        forall|j: int| 0 <= j < copy_len ==> out@[j] == frame@[j],
                        forall|j: int|
                            copy_len <= j < k ==> call_ensures(T::default, (), #[trigger] out@[j]),
                    decreases out@.len() - k,
                {
                    out[k] = T::default();
                    k = k + 1;
                }
                true
            },
            None => false,
        }
    }

    /// Number of buffered frames.
    pub fn level(&self) -> (n: usize)
        ensures
            n == self.frames().len(),
    {
        self.frames.len()
    }

    pub fn is_empty(&self) -> (b: bool)
        ensures
            b == (self.frames().len() == 0),
    {
        self.frames.len() == 0
    }

    pub fn clear(&mut self)
        ensures
            final(self).frames() == Seq::<Seq<T>>::empty(),
            final(self).capacity() == old(self).capacity(),
    {
        self.frames.clear();
        assert(self.frames() =~= Seq::<Seq<T>>::empty());
    }
}

} // verus!
