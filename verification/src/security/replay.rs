//! Anti-replay protection: a sliding window for the unordered UDP media path
//! and a strictly increasing counter check for the ordered TCP control path.

use vstd::prelude::*;

verus! {

/// Width, in counters, of the replay window.
pub const WINDOW_SIZE: u64 = 2048;

/// Number of 64-bit words that hold the window's bitmap.
pub const BITMAP_WORDS: usize = 32;

/// Bit `j` of the word `w` (`j < 64`).
pub open spec fn word_bit(w: u64, j: u64) -> bool {
    (w >> j) & 1u64 == 1u64
}

/// Bit `d` of the window bitmap: the counter `top - d` has been seen.
pub open spec fn marked(bitmap: Seq<u64>, d: int) -> bool {
    0 <= d < WINDOW_SIZE && word_bit(bitmap[d / 64], (d % 64) as u64)
}

/// `c` lies inside the window that ends at `top`.
pub open spec fn in_window(top: u64, c: u64) -> bool {
    c <= top && top - c < WINDOW_SIZE
}

/// Whether a window whose newest counter is `top` and whose remembered
/// counters are `seen` accepts `counter`.
pub open spec fn replay_accepts(top: u64, seen: Set<u64>, counter: u64) -> bool {
    counter > top || (top - counter < WINDOW_SIZE && !seen.contains(counter))
}

/// Newest counter after `counter` was accepted.
pub open spec fn replay_next_top(top: u64, counter: u64) -> u64 {
    if counter > top {
        counter
    } else {
        top
    }
}

/// Remembered counters after `counter` was accepted.
pub open spec fn replay_next_seen(top: u64, seen: Set<u64>, counter: u64) -> Set<u64> {
    Set::new(
        |c: u64|
            in_window(replay_next_top(top, counter), c) && (c == counter || seen.contains(c)),
    )
}

/// One step of the window on `counter`: the state after it, accepted or not.
pub open spec fn replay_step(top: u64, seen: Set<u64>, counter: u64) -> (u64, Set<u64>) {
    if replay_accepts(top, seen, counter) {
        (replay_next_top(top, counter), replay_next_seen(top, seen, counter))
    } else {
        (top, seen)
    }
}

/// The window's state after the counters `cs`, in order.
pub open spec fn replay_run(top: u64, seen: Set<u64>, cs: Seq<u64>) -> (u64, Set<u64>)
    decreases cs.len(),
{
    if cs.len() == 0 {
        (top, seen)
    } else {
        let (t, s) = replay_step(top, seen, cs[0]);
        replay_run(t, s, cs.drop_first())
    }
}

/// A counter that was accepted is never accepted again, whatever counters
/// arrive afterwards.
pub proof fn replay_never_accepts_twice(top: u64, seen: Set<u64>, c: u64, later: Seq<u64>)
    requires
        replay_accepts(top, seen, c),
    ensures
        ({
            let (t1, s1) = replay_step(top, seen, c);
            let (t2, s2) = replay_run(t1, s1, later);
            !replay_accepts(t2, s2, c)
        }),
{
    let (t1, s1) = replay_step(top, seen, c);
    assert(s1.contains(c));
    lemma_accepted_stays_rejected(t1, s1, c, later);
}

/// The newest counter never moves backwards.
pub proof fn replay_top_is_monotonic(top: u64, seen: Set<u64>, cs: Seq<u64>)
    ensures
        replay_run(top, seen, cs).0 >= top,
    decreases cs.len(),
{
    if cs.len() > 0 {
        let (t, s) = replay_step(top, seen, cs[0]);
        replay_top_is_monotonic(t, s, cs.drop_first());
    }
}

proof fn lemma_accepted_stays_rejected(top: u64, seen: Set<u64>, c: u64, cs: Seq<u64>)
    requires
        c <= top,
        seen.contains(c) || top - c >= WINDOW_SIZE,
    ensures
        ({
            let (t2, s2) = replay_run(top, seen, cs);
            !replay_accepts(t2, s2, c)
        }),
    decreases cs.len(),
{
    if cs.len() > 0 {
        let (t, s) = replay_step(top, seen, cs[0]);
        if replay_accepts(top, seen, cs[0]) {
            if t - c < WINDOW_SIZE {
                assert(s.contains(c));
            }
        }
        lemma_accepted_stays_rejected(t, s, c, cs.drop_first());
    }
}

/// One `check_and_mark`: whether `before` accepts `counter`, and the window
/// `after` it: advanced past `counter` when accepted, unchanged otherwise.
pub open spec fn replay_check(before: ReplayWindow, counter: u64, accepted: bool, after: ReplayWindow) -> bool {
    &&& accepted == replay_accepts(before.top(), before.seen(), counter)
    &&& accepted ==> after.top() == replay_next_top(before.top(), counter) && after.seen()
        == replay_next_seen(before.top(), before.seen(), counter)
    &&& !accepted ==> after.top() == before.top() && after.seen() == before.seen()
}

/// The counters accepted among the first `i` checks of a run.
pub open spec fn accepted_before(counters: Seq<u64>, results: Seq<bool>, i: int) -> Set<u64> {
    Set::new(|c: u64| exists|j: int| 0 <= j < i && results[j] && counters[j] == c)
}

/// Whether a window that has accepted exactly the counters `a` accepts `c`:
/// `c` is new, and no accepted counter is the window width or more above it.
pub open spec fn accepts_after(a: Set<u64>, c: u64) -> bool {
    &&& !a.contains(c)
    &&& forall|x: u64| #[trigger] a.contains(x) ==> c > x || x - c < WINDOW_SIZE
}

/// `states[0]` checked `counters[0]` with outcome `results[0]` and became
/// `states[1]`, and so on.
pub open spec fn replay_check_run(states: Seq<ReplayWindow>, counters: Seq<u64>, results: Seq<bool>) -> bool {
    &&& states.len() == counters.len() + 1
    &&& results.len() == counters.len()
    &&& forall|i: int|
        #![trigger counters[i]]
        0 <= i < counters.len() ==> replay_check(states[i], counters[i], results[i], states[i + 1])
}

/// The window's state after a run from `new`, in terms of the accepted
/// counters `a`: nothing before the first acceptance; then the newest
/// counter is the largest accepted, and the remembered counters are the
/// accepted ones inside the window.
pub open spec fn replay_state_of(top: u64, seen: Set<u64>, a: Set<u64>) -> bool {
    &&& a.is_empty() ==> top == 0
    &&& !a.is_empty() ==> a.contains(top)
    &&& forall|x: u64| #[trigger] a.contains(x) ==> x <= top
    &&& seen == Set::new(|c: u64| in_window(top, c) && a.contains(c))
}

/// From a fresh window (as `new` leaves it), each check accepts its counter
/// exactly when the counter was not accepted before and no counter accepted
/// before lies the window width or more above it.
pub proof fn replay_window_from_new(states: Seq<ReplayWindow>, counters: Seq<u64>, results: Seq<bool>)
    requires
        replay_check_run(states, counters, results),
        states[0].top() == 0,
        states[0].seen() == Set::<u64>::empty(),
    ensures
        forall|i: int|
            0 <= i < counters.len() ==> #[trigger] results[i] == accepts_after(
                accepted_before(counters, results, i),
                counters[i],
            ),
{
    lemma_replay_state_run(states, counters, results, counters.len() as int);
    assert forall|i: int| 0 <= i < counters.len() implies #[trigger] results[i] == accepts_after(
        accepted_before(counters, results, i),
        counters[i],
    ) by {
        assert(replay_state_of(states[i].top(), states[i].seen(), accepted_before(counters, results, i)));
        assert(replay_check(states[i], counters[i], results[i], states[i + 1]));
        lemma_replay_accepts_as_set(
            states[i].top(),
            states[i].seen(),
            accepted_before(counters, results, i),
            counters[i],
        );
    }
}

proof fn lemma_replay_accepts_as_set(top: u64, seen: Set<u64>, a: Set<u64>, c: u64)
    requires
        replay_state_of(top, seen, a),
    ensures
        replay_accepts(top, seen, c) == accepts_after(a, c),
{
    if a.is_empty() {
        assert(!seen.contains(c));
    } else if c <= top && top - c >= WINDOW_SIZE {
        assert(a.contains(top));
    } else if c <= top {
        assert(seen.contains(c) == a.contains(c));
    }
}

proof fn lemma_replay_state_run(states: Seq<ReplayWindow>, counters: Seq<u64>, results: Seq<bool>, n: int)
    requires
        replay_check_run(states, counters, results),
        states[0].top() == 0,
        states[0].seen() == Set::<u64>::empty(),
        0 <= n <= counters.len(),
    ensures
        forall|i: int|
            0 <= i <= n ==> replay_state_of(
                #[trigger] states[i].top(),
                states[i].seen(),
                accepted_before(counters, results, i),
            ),
    decreases n,
{
    if n == 0 {
        assert(accepted_before(counters, results, 0) =~= Set::<u64>::empty());
        assert(states[0].seen() =~= Set::new(
            |c: u64| in_window(states[0].top(), c) && Set::<u64>::empty().contains(c),
        ));
        assert forall|i: int| 0 <= i <= n implies replay_state_of(
            #[trigger] states[i].top(),
            states[i].seen(),
            accepted_before(counters, results, i),
        ) by {
            assert(i == 0);
        }
    } else {
        lemma_replay_state_run(states, counters, results, n - 1);
        let j = n - 1;
        let a = accepted_before(counters, results, j);
        let a1 = accepted_before(counters, results, n);
        let c = counters[j];
        let (t, s) = (states[j].top(), states[j].seen());
        assert(replay_state_of(t, s, a));
        assert(replay_check(states[j], c, results[j], states[j + 1]));
        assert(states[n] == states[j + 1]);
        lemma_replay_accepts_as_set(t, s, a, c);
        if results[j] {
            assert(a1 =~= a.insert(c)) by {
                assert forall|x: u64| a1.contains(x) implies a.insert(c).contains(x) by {
                    let k = choose|k: int| 0 <= k < n && results[k] && counters[k] == x;
                    if k < j {
                        assert(a.contains(x));
                    }
                }
                assert forall|x: u64| a.insert(c).contains(x) implies a1.contains(x) by {
                    if x == c {
                        assert(0 <= j < n && results[j] && counters[j] == x);
                    } else {
                        let k = choose|k: int| 0 <= k < j && results[k] && counters[k] == x;
                        assert(0 <= k < n && results[k] && counters[k] == x);
                    }
                }
            }
            let t1 = states[n].top();
            assert(t1 == replay_next_top(t, c));
            assert(states[n].seen() =~= Set::new(|x: u64| in_window(t1, x) && a1.contains(x))) by {
                assert forall|x: u64| #[trigger] a.contains(x) && in_window(t1, x) implies in_window(t, x) by {
                    assert(x <= t);
                }
            }
            assert(replay_state_of(t1, states[n].seen(), a1));
        } else {
            assert(a1 =~= a) by {
                assert forall|x: u64| a1.contains(x) implies a.contains(x) by {
                    let k = choose|k: int| 0 <= k < n && results[k] && counters[k] == x;
                    assert(k != j);
                }
                assert forall|x: u64| a.contains(x) implies a1.contains(x) by {
                    let k = choose|k: int| 0 <= k < j && results[k] && counters[k] == x;
                    assert(0 <= k < n && results[k] && counters[k] == x);
                }
            }
        }
        assert forall|i: int| 0 <= i <= n implies replay_state_of(
            #[trigger] states[i].top(),
            states[i].seen(),
            accepted_before(counters, results, i),
        ) by {
            if i == n {
                assert(states[i] == states[j + 1]);
            }
        }
    }
}

/// Sliding-window replay detector (RFC 4303 style) over 64-bit counters.
pub struct ReplayWindow {
    top: u64,
    bitmap: [u64; 32],
}

impl ReplayWindow {
    /// Newest counter accepted so far (0 before any).
    pub closed spec fn top(&self) -> u64 {
        self.top
    }

    /// Counters inside the current window that were already accepted.
    pub closed spec fn seen(&self) -> Set<u64> {
        Set::new(|c: u64| in_window(self.top, c) && marked(self.bitmap@, self.top - c))
    }

    /// Internal invariant: no bit stands for a counter above `top`.
    pub closed spec fn wf(&self) -> bool {
        forall|d: int| 0 <= d < WINDOW_SIZE && marked(self.bitmap@, d) ==> d <= self.top
    }

    pub fn new() -> (w: Self)
        ensures
            w.wf(),
            w.top() == 0,
            w.seen() == Set::<u64>::empty(),
    {
        let w = ReplayWindow { top: 0, bitmap: [0u64; 32] };
        proof {
            assert forall|d: int| 0 <= d < WINDOW_SIZE implies !marked(w.bitmap@, d) by {
                lemma_word_bit_zero((d % 64) as u64);
            }
            assert(w.seen() =~= Set::<u64>::empty());
        }
        w
    }

    /// Checks a counter: returns true if the packet should be processed,
    /// and then remembers the counter.  A counter is accepted when it is newer
    /// than every counter seen so far, or when it lies inside the window and
    /// has not been seen yet.
    pub fn check_and_mark(&mut self, counter: u64) -> (accepted: bool)
        requires
            old(self).wf(),
        ensures
            final(self).wf(),
            replay_check(*old(self), counter, accepted, *final(self)),
    {
        let ghost old_top = self.top;
        let ghost old_bits = self.bitmap@;
        let ghost old_seen = self.seen();
        if counter == 0 && self.top == 0 && self.bitmap[0] == 0 {
            self.top = counter;
            self.bitmap[0] = 1;
            proof {
                assert(!marked(old_bits, 0)) by {
                    lemma_word_bit_zero(0);
                }
                lemma_word_bit_one(0);
                assert forall|d: int| 0 <= d < WINDOW_SIZE && marked(self.bitmap@, d) implies d
                    <= self.top by {
                    if d >= 64 {
                        assert(self.bitmap@[d / 64] == old_bits[d / 64]);
                        assert(marked(self.bitmap@, d) == marked(old_bits, d));
                        assert(false);
                    } else {
                        lemma_word_bit_one((d % 64) as u64);
                    }
                }
                assert(self.seen() =~= replay_next_seen(old_top, old_seen, counter));
            }
            return true;
        }
        if counter > self.top {
            let shift = counter - self.top;
            self.advance(shift);
            self.top = counter;
            let ghost after_adv = self.bitmap@;
            let w0 = self.bitmap[0];
            self.bitmap[0] = w0 | 1;
            proof {
                let bits1 = self.bitmap@;
                lemma_set_bit(w0, 0);
                assert forall|d: int| 0 <= d < WINDOW_SIZE implies #[trigger] marked(bits1, d) == (
                d == 0 || (d >= shift && marked(old_bits, d - shift))) by {
                    assert(marked(after_adv, d) == (d >= shift && marked(old_bits, d - shift)));
                    if d >= 64 {
                        assert(bits1[d / 64] == after_adv[d / 64]);
                    } else {
                        lemma_set_bit(w0, (d % 64) as u64);
                    }
                }
                assert(self.seen() =~= replay_next_seen(old_top, old_seen, counter));
            }
            return true;
        }
        let diff = self.top - counter;
        if diff >= WINDOW_SIZE {
            return false;
        }
        let word_idx = (diff as usize) / 64;
        let bit_idx = (diff as usize) % 64;
        let w = self.bitmap[word_idx];
        if w & (1u64 << bit_idx) != 0 {
            proof {
                lemma_test_bit(w, bit_idx as u64);
            }
            return false;
        }
        self.bitmap[word_idx] = w | (1u64 << bit_idx);
        proof {
            lemma_test_bit(w, bit_idx as u64);
            let bits1 = self.bitmap@;
            assert forall|d: int| 0 <= d < WINDOW_SIZE implies #[trigger] marked(bits1, d) == (d
                == diff || marked(old_bits, d)) by {
                if d / 64 == word_idx {
                    lemma_set_bit(w, (d % 64) as u64);
                } else {
                    assert(bits1[d / 64] == old_bits[d / 64]);
                }
            }
            assert(self.seen() =~= replay_next_seen(old_top, old_seen, counter));
        }
        true
    }

    /// Shifts the bitmap by `shift` positions towards older counters.
    fn advance(&mut self, shift: u64)
        requires
            shift >= 1,
        ensures
            final(self).top == old(self).top,
            forall|d: int|
                0 <= d < WINDOW_SIZE ==> #[trigger] marked(final(self).bitmap@, d) == (d >= shift
                    && marked(old(self).bitmap@, d - shift)),
    {
        let ghost old_bits = self.bitmap@;
        if shift >= WINDOW_SIZE {
            self.bitmap = [0u64; 32];
            proof {
                assert forall|d: int| 0 <= d < WINDOW_SIZE implies !marked(self.bitmap@, d) by {
                    lemma_word_bit_zero((d % 64) as u64);
                }
            }
            return;
        }
        let word_shift = (shift as usize) / 64;
        let bit_shift = (shift as usize) % 64;

        if word_shift > 0 {
            let mut i: usize = BITMAP_WORDS;
            while i > word_shift
                invariant
                    word_shift <= i <= BITMAP_WORDS,
                    word_shift < BITMAP_WORDS,
                    self.top == old(self).top,
                    forall|k: int| 0 <= k < i ==> self.bitmap@[k] == old_bits[k],
                    forall|k: int| i <= k < BITMAP_WORDS ==> self.bitmap@[k] == old_bits[k - word_shift],
                decreases i,
            {
                i = i - 1;
                let v = self.bitmap[i - word_shift];
                self.bitmap[i] = v;
            }
            let mut k: usize = 0;
            while k < word_shift
                invariant
                    k <= word_shift < BITMAP_WORDS,
                    self.top == old(self).top,
                    forall|m: int| 0 <= m < k ==> self.bitmap@[m] == 0,
                    forall|m: int| word_shift <= m < BITMAP_WORDS ==> self.bitmap@[m] == old_bits[m - word_shift],
                decreases word_shift - k,
            {
                self.bitmap[k] = 0;
                k = k + 1;
            }
        }
        let ghost w1 = self.bitmap@;
        assert forall|k: int| 0 <= k < BITMAP_WORDS implies #[trigger] w1[k] == (if k >= word_shift {
            old_bits[k - word_shift]
        } else {
            0u64
        }) by {}

        if bit_shift > 0 {
            let mut i: usize = BITMAP_WORDS - 1;
            while i > 0
                invariant
                    0 <= i < BITMAP_WORDS,
                    0 < bit_shift < 64,
                    self.top == old(self).top,
                    forall|k: int| 0 <= k <= i ==> self.bitmap@[k] == w1[k],
                    forall|k: int|
                        i < k < BITMAP_WORDS ==> self.bitmap@[k] == ((w1[k] << bit_shift) | (w1[k
                            - 1] >> (64 - bit_shift))),
                decreases i,
            {
                let hi = self.bitmap[i];
                let lo = self.bitmap[i - 1];
                self.bitmap[i] = (hi << bit_shift) | (lo >> (64 - bit_shift));
                i = i - 1;
            }
            let w0 = self.bitmap[0];
            self.bitmap[0] = w0 << bit_shift;
        }
        proof {
            let fin = self.bitmap@;
            assert forall|d: int| 0 <= d < WINDOW_SIZE implies #[trigger] marked(fin, d) == (d
                >= shift && marked(old_bits, d - shift)) by {
                let k = d / 64;
                let j = (d % 64) as u64;
                let bs = bit_shift as u64;
                if bit_shift == 0 {
                    if k < word_shift {
                        lemma_word_bit_zero(j);
                    }
                } else if k == 0 {
                    lemma_shl_bit(w1[0], bs, j);
                    if j >= bs && k >= word_shift {
                        assert((d - shift) / 64 == k - word_shift);
                    } else if j >= bs {
                        lemma_word_bit_zero((j - bs) as u64);
                    }
                } else {
                    lemma_combine_bit(w1[k], w1[k - 1], bs, j);
                    if j >= bs {
                        if k >= word_shift {
                            assert((d - shift) / 64 == k - word_shift);
                            assert((d - shift) % 64 == j - bs);
                        } else {
                            lemma_word_bit_zero((j - bs) as u64);
                        }
                    } else {
                        if k - 1 >= word_shift {
                            assert((d - shift) / 64 == k - 1 - word_shift);
                            assert((d - shift) % 64 == j + 64 - bs);
                        } else {
                            lemma_word_bit_zero((j + 64 - bs) as u64);
                        }
                    }
                }
            }
        }
    }
}

proof fn lemma_word_bit_zero(j: u64)
    requires
        j < 64,
    ensures
        !word_bit(0u64, j),
{
    assert(!((0u64 >> j) & 1u64 == 1u64)) by (bit_vector)
        requires
            j < 64,
    ;
}

proof fn lemma_word_bit_one(j: u64)
    requires
        j < 64,
    ensures
        word_bit(1u64, j) == (j == 0),
{
    assert(((1u64 >> j) & 1u64 == 1u64) == (j == 0)) by (bit_vector)
        requires
            j < 64,
    ;
}

proof fn lemma_set_bit(w: u64, j: u64)
    requires
        j < 64,
    ensures
        forall|b: u64| b < 64 ==> #[trigger] word_bit(w | (1u64 << b), j) == (j == b || word_bit(w, j)),
        word_bit(w | 1u64, j) == (j == 0 || word_bit(w, j)),
{
    assert forall|b: u64| b < 64 implies #[trigger] word_bit(w | (1u64 << b), j) == (j == b
        || word_bit(w, j)) by {
        assert((((w | (1u64 << b)) >> j) & 1u64 == 1u64) == (j == b || ((w >> j) & 1u64 == 1u64)))
            by (bit_vector)
            requires
                j < 64,
                b < 64,
        ;
    }
    assert((((w | 1u64) >> j) & 1u64 == 1u64) == (j == 0 || ((w >> j) & 1u64 == 1u64)))
        by (bit_vector)
        requires
            j < 64,
    ;
}

proof fn lemma_test_bit(w: u64, b: u64)
    requires
        b < 64,
    ensures
        (w & (1u64 << b) != 0) == word_bit(w, b),
{
    assert((w & (1u64 << b) != 0) == ((w >> b) & 1u64 == 1u64)) by (bit_vector)
        requires
            b < 64,
    ;
}

proof fn lemma_shl_bit(a: u64, s: u64, j: u64)
    requires
        0 < s < 64,
        j < 64,
    ensures
        word_bit(a << s, j) == (j >= s && word_bit(a, (j - s) as u64)),
{
    assert((((a << s) >> j) & 1u64 == 1u64) == (j >= s && ((a >> ((j - s) as u64)) & 1u64
        == 1u64))) by (bit_vector)
        requires
            0 < s < 64,
            j < 64,
    ;
}

proof fn lemma_combine_bit(a: u64, b: u64, s: u64, j: u64)
    requires
        0 < s < 64,
        j < 64,
    ensures
        word_bit((a << s) | (b >> ((64 - s) as u64)), j) == (if j >= s {
            word_bit(a, (j - s) as u64)
        } else {
            word_bit(b, (j + 64 - s) as u64)
        }),
{
    assert(((((a << s) | (b >> ((64 - s) as u64))) >> j) & 1u64 == 1u64) == (if j >= s {
        ((a >> ((j - s) as u64)) & 1u64 == 1u64)
    } else {
        ((b >> ((j + 64 - s) as u64)) & 1u64 == 1u64)
    })) by (bit_vector)
        requires
            0 < s < 64,
            j < 64,
    ;
}

/// Simple monotonic counter check for the TCP control channel: every counter
/// must be strictly greater than the previous one.
pub struct TcpCounterCheck {
    last: Option<u64>,
}

impl TcpCounterCheck {
    /// Last counter accepted, if any.
    pub closed spec fn last(&self) -> Option<u64> {
        self.last
    }

    pub fn new() -> (c: Self)
        ensures
            c.last() == None::<u64>,
    {
        TcpCounterCheck { last: None }
    }

    /// Accepts the first counter, then only counters strictly above the last
    /// accepted one.
    pub fn check(&mut self, counter: u64) -> (accepted: bool)
        ensures
            accepted == match old(self).last() {
                None => true,
                Some(prev) => counter > prev,
            },
            accepted ==> final(self).last() == Some(counter),
            !accepted ==> final(self).last() == old(self).last(),
    {
        match self.last {
            None => {
                self.last = Some(counter);
                true
            },
            Some(prev) => {
                if counter > prev {
                    self.last = Some(counter);
                    true
                } else {
                    false
                }
            },
        }
    }
}

} // verus!
