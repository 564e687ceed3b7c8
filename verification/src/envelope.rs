//! Constant-time peak hold: the maximum over a sliding window of the latest samples.
//!
//! Samples are `i64` keys: any totally ordered sample type (such as audio levels) is held by
//! an order-preserving key, and `i64::MIN` plays the part of minus infinity.

use vstd::prelude::*;
use vstd::arithmetic::power2::*;
use vstd::arithmetic::div_mod::*;
use vstd::arithmetic::mul::*;
use vstd::bits::*;

use crate::pow2::{next_power_of_two, spec_next_power_of_two, lemma_next_power_of_two};

verus! {

/// The key that stands for minus infinity.
pub const NEG_INFINITY: i64 = i64::MIN;

pub open spec fn max2(a: i64, b: i64) -> i64 {
    if a >= b { a } else { b }
}

/// The maximum of a sequence; `NEG_INFINITY` for the empty one.
pub open spec fn seq_max(s: Seq<i64>) -> i64
    decreases s.len(),
{
    if s.len() == 0 {
        NEG_INFINITY
    } else {
        max2(s[0], seq_max(s.drop_first()))
    }
}

/// Maximum of `vals` over the positions `lo..hi`.
pub open spec fn range_max(vals: spec_fn(int) -> i64, lo: int, hi: int) -> i64
    decreases hi - lo,
{
    if lo >= hi {
        NEG_INFINITY
    } else {
        max2(vals(lo), range_max(vals, lo + 1, hi))
    }
}

pub open spec fn at(buf: Seq<i64>, j: int) -> i64 {
    buf[j % (buf.len() as int)]
}

/// Positions `lo..hi` hold the suffix maxima up to `end`.
pub open spec fn suffix_maxima(buf: Seq<i64>, vals: spec_fn(int) -> i64, lo: int, hi: int, end: int) -> bool {
    forall|j: int| lo <= j < hi ==> #[trigger] at(buf, j) == range_max(vals, j, end)
}

/// Positions `lo..hi` hold the samples themselves.
pub open spec fn raw_samples(buf: Seq<i64>, vals: spec_fn(int) -> i64, lo: int, hi: int) -> bool {
    forall|j: int| lo <= j < hi ==> #[trigger] at(buf, j) == vals(j)
}

pub open spec fn all_equal(vals: spec_fn(int) -> i64, lo: int, hi: int) -> bool {
    forall|i: int, j: int| lo <= i < hi && lo <= j < hi ==> #[trigger] vals(i) == #[trigger] vals(j)
}

proof fn lemma_range_max_extend(vals: spec_fn(int) -> i64, lo: int, hi: int)
    requires
        lo <= hi,
    ensures
        range_max(vals, lo, hi + 1) == max2(range_max(vals, lo, hi), vals(hi)),
    decreases hi - lo,
{
    assert(range_max(vals, hi + 1, hi + 1) == NEG_INFINITY);
    if lo < hi {
        lemma_range_max_extend(vals, lo + 1, hi);
        assert(range_max(vals, lo, hi) == max2(vals(lo), range_max(vals, lo + 1, hi)));
        assert(range_max(vals, lo, hi + 1) == max2(vals(lo), range_max(vals, lo + 1, hi + 1)));
    } else {
        assert(range_max(vals, lo, hi + 1) == max2(vals(lo), range_max(vals, lo + 1, hi + 1)));
    }
}

proof fn lemma_range_max_split(vals: spec_fn(int) -> i64, lo: int, mid: int, hi: int)
    requires
        lo <= mid <= hi,
    ensures
        range_max(vals, lo, hi) == max2(range_max(vals, lo, mid), range_max(vals, mid, hi)),
    decreases mid - lo,
{
    if lo < mid {
        lemma_range_max_split(vals, lo + 1, mid, hi);
    }
}

proof fn lemma_range_max_congruent(v1: spec_fn(int) -> i64, v2: spec_fn(int) -> i64, lo: int, hi: int)
    requires
        forall|j: int| lo <= j < hi ==> #[trigger] v1(j) == v2(j),
    ensures
        range_max(v1, lo, hi) == range_max(v2, lo, hi),
    decreases hi - lo,
{
    if lo < hi {
        lemma_range_max_congruent(v1, v2, lo + 1, hi);
    }
}

proof fn lemma_range_max_constant(vals: spec_fn(int) -> i64, lo: int, hi: int)
    requires
        lo < hi,
        all_equal(vals, lo, hi),
    ensures
        range_max(vals, lo, hi) == vals(lo),
    decreases hi - lo,
{
    assert(range_max(vals, lo, hi) == max2(vals(lo), range_max(vals, lo + 1, hi)));
    if lo + 1 < hi {
        assert(all_equal(vals, lo + 1, hi));
        lemma_range_max_constant(vals, lo + 1, hi);
        assert(vals(lo + 1) == vals(lo));
    }
}

proof fn lemma_seq_max_window(vals: spec_fn(int) -> i64, lo: int, n: nat)
    ensures
        seq_max(Seq::new(n, |k: int| vals(lo + k))) == range_max(vals, lo, lo + n),
    decreases n,
{
    let s = Seq::new(n, |k: int| vals(lo + k));
    if n > 0 {
        lemma_seq_max_window(vals, lo + 1, (n - 1) as nat);
        assert(s.drop_first() =~= Seq::new((n - 1) as nat, |k: int| vals(lo + 1 + k)));
    }
}

proof fn lemma_distinct_slots(i: int, j: int, n: int)
    requires
        0 <= i < j,
        j - i < n,
    ensures
        i % n != j % n,
{
    lemma_fundamental_div_mod(i, n);
    lemma_fundamental_div_mod(j, n);
    lemma_mod_bound(i, n);
    lemma_mod_bound(j, n);
    if i % n == j % n {
        assert(n * (j / n) - n * (i / n) == j - i);
        lemma_mul_is_distributive_sub(n, j / n, i / n);
        if j / n - i / n >= 1 {
            lemma_mul_inequality(1, j / n - i / n, n);
        } else {
            lemma_mul_inequality(j / n - i / n, 0, n);
        }
    }
}



fn max_i64(a: i64, b: i64) -> (r: i64)
    ensures
        r == max2(a, b),
{
    if a >= b { a } else { b }
}

/// Peak hold over a window of the latest `hold_length` samples, each step in amortised
/// constant time.
///
/// The buffer is a ring of a power-of-two length, split into a back region (suffix maxima),
/// a middle region (being turned into suffix maxima one element per step) and a front region
/// (raw recent samples).
pub struct PeakHold {
    buffer: Vec<i64>,
    buf_mask: u64,
    /// the start idx of back region, which saves the reverse-cumulative-max values
    i_back: isize,
    /// middle_start ~ i_working -1 : input values waiting for reverse-cumulative-max
    i_mid_start: isize,
    i_working: isize,
    /// i_working ~ middle_end : recently calculated reverse-cumulative-max values
    i_mid_end: isize,
    /// the end idx of front region, which saves the recent input values
    i_front: isize,
    /// max of the interval middle_end ~ i_front
    front_max: i64,
    /// max of the interval i_working ~ middle_end
    working_max: i64,
    /// max of the interval middle_start ~ middle_end
    middle_max: i64,
    /// the sample at each absolute position
    vals: Ghost<spec_fn(int) -> i64>,
    /// the buffer holds `2^log_len` slots
    log_len: Ghost<nat>,
    /// what `read` gives while the window is empty
    idle: Ghost<i64>,
}

impl PeakHold {
    /// The number of samples the window holds.
    pub closed spec fn hold(self) -> nat {
        (self.i_front - self.i_back) as nat
    }

    /// The samples in the window, oldest first.
    pub closed spec fn window(self) -> Seq<i64> {
        Seq::new(self.hold(), |k: int| (self.vals@)(self.i_back + k))
    }

    /// The number of ring slots.
    pub closed spec fn capacity(self) -> nat {
        self.buffer@.len()
    }

    /// What `read` gives while the window is empty.
    pub closed spec fn idle(self) -> i64 {
        self.idle@
    }

    /// How many more steps the positions can count before they reach `isize::MAX`.
    pub closed spec fn steps_left(self) -> int {
        isize::MAX - self.i_front
    }

    spec fn shape(self) -> bool {
        let n = self.buffer@.len() as int;
        &&& self.log_len@ < 64
        &&& n == pow2(self.log_len@)
        &&& self.buf_mask == low_bits_mask(self.log_len@) as u64
        &&& 0 <= self.i_back <= self.i_front
        &&& self.i_front - self.i_back + 1 <= n
    }

    spec fn inv(self, delta: int) -> bool {
        let b = self.i_back as int;
        let s = self.i_mid_start as int;
        let w = self.i_working as int;
        let e = self.i_mid_end as int;
        let f = self.i_front as int;
        let buf = self.buffer@;
        let vals = self.vals@;
        let n = buf.len() as int;
        &&& self.log_len@ < 64
        &&& n == pow2(self.log_len@)
        &&& self.buf_mask == low_bits_mask(self.log_len@) as u64
        &&& 0 <= b <= s <= w <= e <= f
        &&& f - b - delta + 1 <= n
        &&& (delta == 1 ==> e < f)
        &&& (f - e) + (s - b) <= (e - s) + delta
        &&& (e - s) <= (f - e) + (s - b) + 2 - delta
        &&& w - s <= s - b + 1
        &&& suffix_maxima(buf, vals, b, s, s)
        &&& raw_samples(buf, vals, s, w)
        &&& suffix_maxima(buf, vals, w, e, e)
        &&& raw_samples(buf, vals, e, f)
        &&& self.working_max == range_max(vals, w, e)
        &&& self.front_max == range_max(vals, e, f)
        &&& (self.middle_max == range_max(vals, s, e) || (self.middle_max == NEG_INFINITY
            && all_equal(vals, b, e)))
        &&& (b == f ==> at(buf, b) == self.idle@)
    }

    /// The state holds its window as described: what every method keeps.
    pub closed spec fn wf(self) -> bool {
        self.inv(0)
    }

    /// The state just after `swap_regions`, before the back index moves on.
    spec fn swapped(self) -> bool {
        let b = self.i_back as int;
        let s = self.i_mid_start as int;
        let w = self.i_working as int;
        let e = self.i_mid_end as int;
        let f = self.i_front as int;
        let buf = self.buffer@;
        let vals = self.vals@;
        let n = buf.len() as int;
        &&& self.log_len@ < 64
        &&& n == pow2(self.log_len@)
        &&& self.buf_mask == low_bits_mask(self.log_len@) as u64
        &&& 0 <= b < s <= w <= e <= f
        &&& f - b <= n
        &&& (f - e) + (s - b - 1) <= (e - s)
        &&& (e - s) <= (f - e) + (s - b - 1) + 2
        &&& w - s <= s - b + 1
        &&& suffix_maxima(buf, vals, b + 1, s, s)
        &&& raw_samples(buf, vals, s, w)
        &&& suffix_maxima(buf, vals, w, e, e)
        &&& raw_samples(buf, vals, e, f)
        &&& self.working_max == range_max(vals, w, e)
        &&& self.front_max == range_max(vals, e, f)
        &&& self.middle_max == range_max(vals, s, e)
        &&& at(buf, f) == NEG_INFINITY
        &&& self.idle@ == NEG_INFINITY
    }

    fn slot(&self, j: isize) -> (r: usize)
        requires
            self.log_len@ < 64,
            self.buffer@.len() == pow2(self.log_len@),
            self.buf_mask == low_bits_mask(self.log_len@) as u64,
            0 <= j,
        ensures
            r == (j as int) % (self.buffer@.len() as int),
            r < self.buffer@.len(),
    {
        proof {
            lemma_u64_low_bits_mask_is_mod(j as u64, self.log_len@);
            lemma_pow2_pos(self.log_len@);
            lemma_u64_pow2_no_overflow(self.log_len@);
            lemma_mod_bound(j as int, pow2(self.log_len@) as int);
            assert((j as u64) as int == j as int);
            assert((pow2(self.log_len@) as u64) as int == pow2(self.log_len@));
        }
        let r = (j as u64) & self.buf_mask;
        let n = self.buffer.len();
        proof {
            assert(r as int == (j as int) % (self.buffer@.len() as int));
            assert(r < n);
        }
        r as usize
    }
}


impl PeakHold {
    /// Pushes `value` into the front region.
    fn push_front(&mut self, value: i64)
        requires
            old(self).inv(0),
            old(self).i_front < isize::MAX,
        ensures
            final(self).inv(1),
            final(self).i_back == old(self).i_back,
            final(self).i_front == old(self).i_front + 1,
            final(self).vals@ == (|j: int| if j == old(self).i_front as int { value } else { (old(self).vals@)(j) }),
            final(self).buffer@.len() == old(self).buffer@.len(),
            final(self).log_len@ == old(self).log_len@,
            final(self).idle@ == old(self).idle@,
    {
        let ghost buf0 = self.buffer@;
        let ghost vals0 = self.vals@;
        let ghost b = self.i_back as int;
        let ghost f = self.i_front as int;
        let ghost n = self.buffer@.len() as int;
        let k = self.slot(self.i_front);
        self.buffer.set(k, value);
        self.vals = Ghost(|j: int| if j == f { value } else { vals0(j) });
        self.i_front = self.i_front + 1;
        self.front_max = max_i64(self.front_max, value);
        proof {
            let buf = self.buffer@;
            let vals = self.vals@;
            let s = self.i_mid_start as int;
            let w = self.i_working as int;
            let e = self.i_mid_end as int;
            assert forall|j: int| b <= j < f implies #[trigger] at(buf, j) == at(buf0, j) by {
                lemma_distinct_slots(j, f, n);
            }
            assert forall|lo: int, hi: int| b <= lo && hi <= f implies #[trigger] range_max(vals, lo, hi)
                == range_max(vals0, lo, hi) by {
                lemma_range_max_congruent(vals, vals0, lo, hi);
            }
            assert(suffix_maxima(buf, vals, b, s, s)) by {
                assert forall|j: int| b <= j < s implies #[trigger] at(buf, j) == range_max(vals, j, s) by {
                    assert(at(buf0, j) == range_max(vals0, j, s));
                }
            }
            assert(suffix_maxima(buf, vals, w, e, e)) by {
                assert forall|j: int| w <= j < e implies #[trigger] at(buf, j) == range_max(vals, j, e) by {
                    assert(at(buf0, j) == range_max(vals0, j, e));
                }
            }
            assert(raw_samples(buf, vals, s, w)) by {
                assert forall|j: int| s <= j < w implies #[trigger] at(buf, j) == vals(j) by {
                    assert(at(buf0, j) == vals0(j));
                }
            }
            assert(raw_samples(buf, vals, e, f + 1)) by {
                assert forall|j: int| e <= j < f + 1 implies #[trigger] at(buf, j) == vals(j) by {
                    if j < f {
                        assert(at(buf0, j) == vals0(j));
                    } else {
                        assert(at(buf, j) == value);
                    }
                }
            }
            assert(self.working_max == range_max(vals, w, e));
            lemma_range_max_extend(vals, e, f);
            assert(range_max(vals, e, f) == range_max(vals0, e, f));
            assert(self.front_max == range_max(vals, e, f + 1));
            assert(range_max(vals, s, e) == range_max(vals0, s, e));
            if !(self.middle_max == range_max(vals, s, e)) {
                assert(all_equal(vals0, b, e));
                assert forall|i: int, j: int| b <= i < e && b <= j < e implies #[trigger] vals(i)
                    == #[trigger] vals(j) by {
                    assert(vals0(i) == vals0(j));
                }
            }
        }
    }
}


impl PeakHold {
    /// Moves the middle region to the back and the front to the middle, once the back is
    /// used up.
    #[verifier::loop_isolation(false)]
    fn swap_regions(&mut self)
        requires
            old(self).inv(1),
            old(self).i_back == old(self).i_mid_start,
        ensures
            final(self).swapped(),
            final(self).i_back == old(self).i_back,
            final(self).i_front == old(self).i_front,
            final(self).vals@ == old(self).vals@,
            final(self).buffer@.len() == old(self).buffer@.len(),
            final(self).log_len@ == old(self).log_len@,
    {
        let ghost buf0 = self.buffer@;
        let ghost vals = self.vals@;
        let ghost b = self.i_back as int;
        let ghost s0 = self.i_mid_start as int;
        let ghost w0 = self.i_working as int;
        let ghost e0 = self.i_mid_end as int;
        let ghost f = self.i_front as int;
        let ghost n = self.buffer@.len() as int;

        // Move along the maximums
        self.working_max = NEG_INFINITY;
        self.middle_max = self.front_max;
        self.front_max = NEG_INFINITY;

        let prev_front_len = self.i_front - self.i_mid_end;
        let prev_mid_len = self.i_mid_end - self.i_mid_start;
        if prev_front_len <= prev_mid_len + 1 {
            // Swap over simply
            self.i_mid_start = self.i_mid_end;
            self.i_mid_end = self.i_front;
            self.i_working = self.i_mid_end;
        } else {
            // The front is longer than the middle - only happens if unbalanced
            // We don't move *all* of the front over, keeping half the surplus in the front
            let mid_len = (self.i_front - self.i_mid_start) / 2;
            self.i_mid_start = self.i_mid_end;
            self.i_mid_end = self.i_mid_end + mid_len;

            // Working index is close enough that it will be finished by the time the back is empty
            let back_len = self.i_mid_start - self.i_back;
            let mid_span = self.i_mid_end - self.i_mid_start;
            let working_len = if back_len < mid_span { back_len } else { mid_span };
            self.i_working = self.i_mid_start + working_len;

            // Since the front was not completely consumed, we re-calculate the front's maximum
            let mut rest_max = NEG_INFINITY;
            let mut i = self.i_mid_end;
            while i < self.i_front
                decreases self.i_front - i,
            {
                let k = self.slot(i);
                rest_max = max_i64(rest_max, self.buffer[k]);
                i = i + 1;
            }
            self.front_max = max_i64(self.front_max, rest_max);

            // The index might not start at the end of the working block - compute the last bit immediately
            let mut i = self.i_mid_end;
            while i > self.i_working
                decreases i,
            {
                i = i - 1;
                let k = self.slot(i);
                self.working_max = max_i64(self.working_max, self.buffer[k]);
                self.buffer.set(k, self.working_max);
            }
        }

        // Is the new back (previous middle) empty? Only happens if unbalanced
        if self.i_back == self.i_mid_start {
            // swap over again (front is empty, no change)
            self.working_max = NEG_INFINITY;
            self.middle_max = self.front_max;
            self.front_max = NEG_INFINITY;
            self.i_working = self.i_mid_end;
            self.i_mid_start = self.i_mid_end;
            if self.i_back == self.i_mid_start {
                // Only happens if pop from an empty list - fail nicely
                self.i_back = self.i_back - 1;
            }
        }

        // In case of length 0, when everything points at this value
        let k = self.slot(self.i_front);
        self.buffer.set(k, NEG_INFINITY);
        self.idle = Ghost(NEG_INFINITY);
        proof {
            let buf = self.buffer@;
            assert forall|j: int| b < j < f implies #[trigger] at(buf, j) == at(buf0, j) by {
                lemma_distinct_slots(j, f, n);
            }
            assert(at(buf, f) == NEG_INFINITY);
            if e0 > b {
                assert(suffix_maxima(buf, vals, b + 1, e0, e0)) by {
                    assert forall|j: int| b + 1 <= j < e0 implies #[trigger] at(buf, j)
                        == range_max(vals, j, e0) by {
                        assert(at(buf0, j) == range_max(vals, j, e0));
                    }
                }
                assert(raw_samples(buf, vals, e0, f)) by {
                    assert forall|j: int| e0 <= j < f implies #[trigger] at(buf, j) == vals(j) by {
                        assert(at(buf0, j) == vals(j));
                    }
                }
            }
        }
    }
}


impl PeakHold {
    /// Drops the oldest sample and moves the working index one step.
    fn pop_back(&mut self)
        requires
            old(self).inv(1),
        ensures
            final(self).inv(0),
            old(self).i_back != old(self).i_mid_start ==> final(self).idle@ == old(self).idle@,
            final(self).i_back == old(self).i_back + 1,
            final(self).i_front == old(self).i_front,
            final(self).vals@ == old(self).vals@,
            final(self).buffer@.len() == old(self).buffer@.len(),
            final(self).log_len@ == old(self).log_len@,
            old(self).i_back == old(self).i_mid_start ==> final(self).idle@ == NEG_INFINITY,
    {
        let ghost vals = self.vals@;
        let ghost b = self.i_back as int;
        let ghost f = self.i_front as int;
        let ghost n = self.buffer@.len() as int;
        if self.i_back == self.i_mid_start {
            self.swap_regions();
        }
        let ghost buf1 = self.buffer@;
        self.i_back = self.i_back + 1;
        if self.i_working != self.i_mid_start {
            // gradually work (==calculate reverse-cumulative-max) for the middle region
            self.i_working = self.i_working - 1;
            let k = self.slot(self.i_working);
            self.working_max = max_i64(self.working_max, self.buffer[k]);
            self.buffer.set(k, self.working_max);
            proof {
                let buf = self.buffer@;
                let w = self.i_working as int;
                let e = self.i_mid_end as int;
                assert forall|j: int| b + 1 <= j < f && j != w implies #[trigger] at(buf, j) == at(buf1, j) by {
                    if j < w {
                        lemma_distinct_slots(j, w, n);
                    } else {
                        lemma_distinct_slots(w, j, n);
                    }
                }
                assert(at(buf1, w) == vals(w));
                assert(range_max(vals, w, e) == max2(vals(w), range_max(vals, w + 1, e)));
                assert(at(buf, w) == range_max(vals, w, e));
                let s = self.i_mid_start as int;
                assert(suffix_maxima(buf, vals, b + 1, s, s)) by {
                    assert forall|j: int| b + 1 <= j < s implies #[trigger] at(buf, j)
                        == range_max(vals, j, s) by {
                        assert(at(buf1, j) == range_max(vals, j, s));
                    }
                }
                assert(raw_samples(buf, vals, s, w)) by {
                    assert forall|j: int| s <= j < w implies #[trigger] at(buf, j) == vals(j) by {
                        assert(at(buf1, j) == vals(j));
                    }
                }
                assert(suffix_maxima(buf, vals, w, e, e)) by {
                    assert forall|j: int| w <= j < e implies #[trigger] at(buf, j) == range_max(vals, j, e) by {
                        if j > w {
                            assert(at(buf1, j) == range_max(vals, j, e));
                        }
                    }
                }
                assert(raw_samples(buf, vals, e, f)) by {
                    assert forall|j: int| e <= j < f implies #[trigger] at(buf, j) == vals(j) by {
                        assert(at(buf1, j) == vals(j));
                    }
                }
                if f == b + 1 {
                    assert(at(buf, f) == at(buf1, f)) by {
                        lemma_distinct_slots(w, f, n);
                    }
                }
            }
        }
        proof {
            let e = self.i_mid_end as int;
            if !(self.middle_max == range_max(vals, self.i_mid_start as int, e)) {
                assert(all_equal(vals, b + 1, e));
            }
        }
    }
}


proof fn lemma_range_max_first(vals: spec_fn(int) -> i64, lo: int, hi: int)
    requires
        lo < hi,
    ensures
        vals(lo) <= range_max(vals, lo, hi),
        range_max(vals, lo, hi) == max2(vals(lo), range_max(vals, lo + 1, hi)),
{
}

impl PeakHold {
    /// The maximum over the window.
    pub fn read(&self) -> (r: i64)
        requires
            self.wf(),
        ensures
            r == (if self.hold() > 0 { seq_max(self.window()) } else { self.idle() }),
    {
        let k = self.slot(self.i_back);
        let r = max_i64(max_i64(self.buffer[k], self.middle_max), self.front_max);
        proof {
            let buf = self.buffer@;
            let vals = self.vals@;
            let b = self.i_back as int;
            let s = self.i_mid_start as int;
            let w = self.i_working as int;
            let e = self.i_mid_end as int;
            let f = self.i_front as int;
            lemma_seq_max_window(vals, b, self.hold());
            lemma_range_max_split(vals, b, s, f);
            lemma_range_max_split(vals, s, e, f);
            if b < f {
                if b < s {
                    assert(at(buf, b) == range_max(vals, b, s));
                    if self.middle_max != range_max(vals, s, e) {
                        lemma_range_max_first(vals, b, s);
                        if s < e {
                            lemma_range_max_constant(vals, s, e);
                            assert(vals(s) == vals(b));
                        }
                    }
                } else if s < e {
                    if w == s {
                        assert(at(buf, b) == range_max(vals, w, e));
                    } else {
                        assert(at(buf, b) == vals(b));
                        lemma_range_max_first(vals, s, e);
                        if self.middle_max != range_max(vals, s, e) {
                            lemma_range_max_constant(vals, s, e);
                        }
                    }
                } else {
                    assert(at(buf, b) == vals(b));
                    lemma_range_max_first(vals, b, f);
                }
            }
        }
        r
    }

    /// How many more values the positions can count before they reach `isize::MAX`.
    pub fn steps_remaining(&self) -> (r: usize)
        requires
            self.wf(),
        ensures
            r == self.steps_left(),
    {
        (isize::MAX - self.i_front) as usize
    }

    /// The number of samples the window holds.
    pub fn hold_length(&self) -> (r: usize)
        requires
            self.wf(),
        ensures
            r == self.hold(),
    {
        (self.i_front - self.i_back) as usize
    }
}


impl PeakHold {
    /// A peak hold over the latest `hold_length` samples, all minus infinity at first.
    ///
    /// The ring has the least power of two of slots that leaves one free beside the window.
    pub fn new(hold_length: usize) -> (res: Self)
        requires
            hold_length <= usize::MAX / 2,
        ensures
            res.wf(),
            res.window() == Seq::new(hold_length as nat, |k: int| NEG_INFINITY),
            res.capacity() == spec_next_power_of_two(hold_length as nat + 1),
            res.idle() == NEG_INFINITY,
            res.steps_left() == isize::MAX - hold_length,
    {
        let mut out = PeakHold {
            buffer: Vec::new(),
            buf_mask: 0,
            i_back: 0,
            i_mid_start: 0,
            i_working: 0,
            i_mid_end: 0,
            i_front: 0,
            front_max: NEG_INFINITY,
            working_max: NEG_INFINITY,
            middle_max: NEG_INFINITY,
            vals: Ghost(|j: int| NEG_INFINITY),
            log_len: Ghost(0),
            idle: Ghost(NEG_INFINITY),
        };
        out.resize(hold_length);
        out
    }

    /// Sets a new window length and clears the window to minus infinity.
    pub fn resize(&mut self, hold_length: usize)
        requires
            hold_length <= usize::MAX / 2,
        ensures
            final(self).wf(),
            final(self).window() == Seq::new(hold_length as nat, |k: int| NEG_INFINITY),
            final(self).capacity() == spec_next_power_of_two(hold_length as nat + 1),
            final(self).idle() == NEG_INFINITY,
            final(self).steps_left() == isize::MAX - hold_length,
    {
        // one slot more than the window, so that the front never runs into the back
        let buf_length = next_power_of_two(hold_length + 1);
        let ghost k = lemma_next_power_of_two(hold_length as nat + 1);
        let mut buffer: Vec<i64> = Vec::new();
        while buffer.len() < buf_length
            invariant
                buffer.len() <= buf_length,
            decreases buf_length - buffer.len(),
        {
            buffer.push(NEG_INFINITY);
        }
        self.buffer = buffer;
        // because buffer_length is a power of two,
        // index can be calculated by i & buffer_mask, which is cheaper than i % buffer_length
        self.buf_mask = (buf_length - 1) as u64;
        self.log_len = Ghost(k);
        self.i_back = 0;
        self.i_front = hold_length as isize;
        proof {
            lemma2_to64();
            if k >= 64 {
                lemma_pow2_strictly_increases(64, k);
                assert(false);
            }
            assert(low_bits_mask(k) == buf_length - 1);
        }
        self.clear_to(NEG_INFINITY);
    }

    /// Fills the window with `fill`, keeping its length; the state need only have its shape.
    fn clear_to(&mut self, fill: i64)
        requires
            old(self).shape(),
        ensures
            final(self).wf(),
            final(self).hold() == old(self).hold(),
            final(self).window() == Seq::new(old(self).hold(), |k: int| fill),
            final(self).capacity() == old(self).capacity(),
            final(self).idle() == fill,
            final(self).steps_left() == isize::MAX - old(self).hold(),
    {
        let hold_length = self.i_front - self.i_back;
        let len = self.buffer.len();
        let mut i: usize = 0;
        while i < len
            invariant
                len == self.buffer@.len(),
                i <= len,
                forall|j: int| 0 <= j < i ==> self.buffer@[j] == fill,
                self.log_len@ == old(self).log_len@,
                self.buf_mask == old(self).buf_mask,
                len == old(self).buffer@.len(),
                hold_length == old(self).i_front - old(self).i_back,
                old(self).shape(),
            decreases len - i,
        {
            self.buffer.set(i, fill);
            i = i + 1;
        }
        self.i_back = 0;
        self.i_mid_start = hold_length / 2;
        self.i_working = hold_length;
        self.i_mid_end = hold_length;
        self.i_front = hold_length;

        self.front_max = NEG_INFINITY;
        self.working_max = NEG_INFINITY;
        self.middle_max = NEG_INFINITY;
        self.vals = Ghost(|j: int| fill);
        self.idle = Ghost(fill);
        proof {
            let buf = self.buffer@;
            let vals = self.vals@;
            let h = hold_length as int;
            let n = len as int;
            assert forall|j: int| 0 <= j implies #[trigger] at(buf, j) == fill by {
                lemma_mod_bound(j, n);
            }
            assert(all_equal(vals, 0, h));
            assert forall|j: int| 0 <= j < h / 2 implies #[trigger] at(buf, j) == range_max(vals, j, h / 2) by {
                lemma_range_max_constant(vals, j, h / 2);
            }
            assert(self.window() =~= Seq::new(old(self).hold(), |k: int| fill));
        }
    }

    /// Fills the window with `fill`, keeping its length.
    pub fn reset(&mut self, fill: i64)
        requires
            old(self).wf(),
        ensures
            final(self).wf(),
            final(self).hold() == old(self).hold(),
            final(self).window() == Seq::new(old(self).hold(), |k: int| fill),
            final(self).capacity() == old(self).capacity(),
            final(self).idle() == fill,
            final(self).steps_left() == isize::MAX - old(self).hold(),
    {
        self.clear_to(fill);
    }

    /// Fills the window with minus infinity.
    pub fn reset_default(&mut self)
        requires
            old(self).wf(),
        ensures
            final(self).wf(),
            final(self).hold() == old(self).hold(),
            final(self).window() == Seq::new(old(self).hold(), |k: int| NEG_INFINITY),
            final(self).capacity() == old(self).capacity(),
            final(self).idle() == NEG_INFINITY,
            final(self).steps_left() == isize::MAX - old(self).hold(),
    {
        self.reset(NEG_INFINITY);
    }

    /// A value was pushed and the oldest is yet to be dropped: the window holds one value more
    /// than the hold length.
    pub closed spec fn pushed(self) -> bool {
        self.inv(1)
    }

    /// Appends `value` to the window; `pop` then drops the oldest value.
    pub fn push(&mut self, value: i64)
        requires
            old(self).wf(),
            old(self).steps_left() > 0,
        ensures
            final(self).pushed(),
            final(self).window() == old(self).window().push(value),
            final(self).capacity() == old(self).capacity(),
            final(self).idle() == old(self).idle(),
            final(self).steps_left() == old(self).steps_left() - 1,
    {
        let ghost old_window = self.window();
        self.push_front(value);
        proof {
            assert(self.window() =~= old_window.push(value));
        }
    }

    /// Drops the oldest value of the window after a `push`.
    pub fn pop(&mut self)
        requires
            old(self).pushed(),
        ensures
            final(self).wf(),
            final(self).window() == old(self).window().drop_first(),
            final(self).capacity() == old(self).capacity(),
            final(self).idle() == old(self).idle() || final(self).idle() == NEG_INFINITY,
            final(self).steps_left() == old(self).steps_left(),
    {
        let ghost old_window = self.window();
        self.pop_back();
        proof {
            assert(self.window() =~= old_window.drop_first());
        }
    }

    /// Takes in `value` and gives the maximum over the window, which now ends with it.
    pub fn step(&mut self, value: i64) -> (r: i64)
        requires
            old(self).wf(),
            old(self).steps_left() > 0,
        ensures
            final(self).wf(),
            final(self).window() == old(self).window().push(value).drop_first(),
            r == seq_max(final(self).window()),
            final(self).hold() == old(self).hold(),
            final(self).capacity() == old(self).capacity(),
            final(self).steps_left() == old(self).steps_left() - 1,
    {
        let ghost old_window = self.window();
        let ghost h = self.hold();
        self.push_front(value);
        self.pop_back();
        let r = self.read();
        proof {
            assert(self.window() =~= old_window.push(value).drop_first());
        }
        r
    }
}


/// The window after taking in `xs` one value at a time, each step pushing a value and dropping
/// the oldest, as `PeakHold::step` does.
pub open spec fn slide(window: Seq<i64>, xs: Seq<i64>) -> Seq<i64>
    decreases xs.len(),
{
    if xs.len() == 0 {
        window
    } else {
        slide(window, xs.drop_last()).push(xs.last()).drop_first()
    }
}

/// A peak hold that took in `xs` step by step holds the latest values: its window is the last
/// `window.len()` values of its former window followed by `xs`, so each step gives the maximum
/// of the latest `hold` values taken in (older window values filling in at the start).
pub proof fn law_peak_hold_window(window: Seq<i64>, xs: Seq<i64>)
    ensures
        slide(window, xs) == (window + xs).subrange(xs.len() as int, (window.len() + xs.len()) as int),
    decreases xs.len(),
{
    if xs.len() > 0 {
        let rest = xs.drop_last();
        law_peak_hold_window(window, rest);
        if window.len() > 0 {
            assert((window + rest).subrange(rest.len() as int, (window.len() + rest.len()) as int).push(xs.last()).drop_first()
                =~= (window + xs).subrange(xs.len() as int, (window.len() + xs.len()) as int));
        } else {
            assert(slide(window, rest).len() == 0);
            assert(slide(window, rest).push(xs.last()).drop_first() =~= Seq::<i64>::empty());
            assert((window + xs).subrange(xs.len() as int, (window.len() + xs.len()) as int) =~= Seq::<i64>::empty());
        }
    }
}

} // verus!
