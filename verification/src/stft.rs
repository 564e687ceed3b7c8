//! Where the frames of a short-time Fourier transform lie.
//!
//! The signal is cut into windows of `win_length` samples, `hop_length` apart, each centred on a
//! multiple of `hop_length` and zero-padded to `n_fft` samples. Near both ends the signal is
//! mirrored by `win_length / 2` samples, so the transform is cut in three runs of frames: the
//! front (over the mirrored start), the middle (over the signal itself) and the back (over the
//! mirrored end). A signal shorter than one window is mirrored on both sides at once.

use vstd::prelude::*;

use crate::pow2::{next_power_of_two, spec_next_power_of_two};

verus! {

/// The number of windows of `win` samples, `hop` apart, that fit in `len` samples.
pub open spec fn n_windows(len: int, win: int, hop: int) -> int {
    if len >= win {
        (len - win) / hop + 1
    } else {
        0
    }
}

/// How a transform is cut into frames.
#[derive(Clone, Copy, PartialEq, Eq, Debug)]
pub struct StftFramePlan {
    /// zeros before each windowed frame
    pub n_pad_left: usize,
    /// zeros after each windowed frame
    pub n_pad_right: usize,
    /// the signal is shorter than one window and is mirrored on both sides at once
    pub short: bool,
    /// frames over the mirrored start (or, for a short signal, all frames)
    pub front_frames: usize,
    /// where the middle run starts in the signal
    pub mid_start: usize,
    /// frames over the signal itself
    pub mid_frames: usize,
    /// where the signal taken for the back run starts
    pub back_start: usize,
    /// samples dropped from the front of the mirrored back part
    pub back_skip: usize,
    /// frames over the mirrored end
    pub back_frames: usize,
    /// all frames
    pub n_frames: usize,
}

/// The plan as the transform computes it; `None` where the signal cannot be cut so (the middle
/// or the back run would start past the end of what it is cut from).
pub open spec fn spec_frame_plan(len: int, win: int, hop: int, n_fft: int) -> Option<StftFramePlan> {
    let half = win / 2;
    let pad_left = (n_fft - win) / 2;
    let pad_right = n_fft - win - pad_left;
    if len < win {
        let frames = n_windows(len + 2 * half, win, hop);
        Some(StftFramePlan {
            n_pad_left: pad_left as usize,
            n_pad_right: pad_right as usize,
            short: true,
            front_frames: frames as usize,
            mid_start: 0,
            mid_frames: 0,
            back_start: 0,
            back_skip: 0,
            back_frames: 0,
            n_frames: frames as usize,
        })
    } else {
        let front = n_windows(win - 1 + half, win, hop);
        let mid_start = front * hop - half;
        if mid_start > len {
            None
        } else {
            let mid = n_windows(len - mid_start, win, hop);
            let back_first = mid_start + mid * hop;
            let back_start = if back_first < len - half - 1 { back_first } else { len - half - 1 };
            let back_skip = back_first - back_start;
            if back_skip > len - back_start + half {
                None
            } else {
                let back = n_windows(len - back_start + half - back_skip, win, hop);
                Some(StftFramePlan {
                    n_pad_left: pad_left as usize,
                    n_pad_right: pad_right as usize,
                    short: false,
                    front_frames: front as usize,
                    mid_start: mid_start as usize,
                    mid_frames: mid as usize,
                    back_start: back_start as usize,
                    back_skip: back_skip as usize,
                    back_frames: back as usize,
                    n_frames: (front + mid + back) as usize,
                })
            }
        }
    }
}

/// `a` windows start by `x` when `a` hops fit in `x`.
proof fn lemma_hops_within(a: int, x: int, h: int)
    requires
        h > 0,
        x >= 0,
        a * h <= x,
    ensures
        a <= x / h,
{
    vstd::arithmetic::div_mod::lemma_fundamental_div_mod(x, h);
    assert(a <= x / h) by (nonlinear_arith)
        requires
            a * h <= x,
            x == h * (x / h) + x % h,
            0 <= x % h < h,
            h > 0,
    ;
}

/// Dropping the first `k` windows (`k` at most all of them) leaves the windows that fit after
/// `k` hops.
proof fn lemma_rest_windows(p: int, w: int, h: int, k: int)
    requires
        h > 0,
        w >= 1,
        p >= 0,
        0 <= k <= n_windows(p, w, h),
    ensures
        n_windows(p - k * h, w, h) + k == n_windows(p, w, h),
{
    if p >= w {
        let q = (p - w) / h;
        let r = (p - w) % h;
        vstd::arithmetic::div_mod::lemma_fundamental_div_mod(p - w, h);
        assert(p - w == q * h + r) by (nonlinear_arith)
            requires
                p - w == h * q + r,
        ;
        if p - k * h >= w {
            assert(p - k * h - w == (q - k) * h + r) by (nonlinear_arith)
                requires
                    p - w == q * h + r,
            ;
            vstd::arithmetic::div_mod::lemma_fundamental_div_mod_converse(p - k * h - w, h, q - k, r);
        } else {
            assert(k > q) by (nonlinear_arith)
                requires
                    p - w == q * h + r,
                    0 <= r < h,
                    p - k * h < w,
                    h > 0,
            ;
        }
    }
}

/// The frames of a plan are the windows over the signal mirrored by half a window on both
/// sides, each starting a whole number of hops into it: as many as fit there.
proof fn lemma_plan_counts_all_windows(len: int, win: int, hop: int, n_fft: int)
    requires
        win >= 1,
        hop >= 1,
        len >= 0,
        n_fft >= win,
        spec_frame_plan(len, win, hop, n_fft) is Some,
        len >= win,
    ensures
        ({
            let half = win / 2;
            let front = n_windows(win - 1 + half, win, hop);
            let mid_start = front * hop - half;
            let mid = n_windows(len - mid_start, win, hop);
            let back_first = mid_start + mid * hop;
            let back_start = if back_first < len - half - 1 { back_first } else { len - half - 1 };
            let back_skip = back_first - back_start;
            let back = n_windows(len - back_start + half - back_skip, win, hop);
            &&& front + mid + back == n_windows(len + 2 * half, win, hop)
            &&& 0 <= front &&& 0 <= mid &&& 0 <= back
        }),
{
    let half = win / 2;
    let p = len + 2 * half;
    let front = n_windows(win - 1 + half, win, hop);
    let mid_start = front * hop - half;
    let mid = n_windows(len - mid_start, win, hop);
    let k = front + mid;
    lemma_windows_span(win - 1 + half, win, hop);
    lemma_windows_span(len - mid_start, win, hop);
    assert(k * hop == front * hop + mid * hop) by (nonlinear_arith)
        requires
            k == front + mid,
    ;
    // the windows of the front and the middle all fit in the mirrored signal
    if k >= 1 {
        if mid >= 1 {
            vstd::arithmetic::div_mod::lemma_fundamental_div_mod(len - mid_start - win, hop);
            assert((mid - 1) * hop <= len - mid_start - win) by (nonlinear_arith)
                requires
                    mid - 1 == (len - mid_start - win) / hop,
                    len - mid_start - win == hop * ((len - mid_start - win) / hop) + (len - mid_start - win) % hop,
                    0 <= (len - mid_start - win) % hop,
            ;
        } else {
            vstd::arithmetic::div_mod::lemma_fundamental_div_mod(half - 1, hop);
            assert((front - 1) * hop <= half - 1) by (nonlinear_arith)
                requires
                    front - 1 == (half - 1) / hop,
                    half - 1 == hop * ((half - 1) / hop) + (half - 1) % hop,
                    0 <= (half - 1) % hop,
            ;
        }
        assert((k - 1) * hop == k * hop - hop) by (nonlinear_arith);
        assert((front - 1) * hop == front * hop - hop) by (nonlinear_arith);
        assert((mid - 1) * hop == mid * hop - hop) by (nonlinear_arith);
        lemma_hops_within(k - 1, p - win, hop);
    }
    lemma_rest_windows(p, win, hop, k);
}

fn count_windows(len: usize, win: usize, hop: usize) -> (r: usize)
    requires
        hop > 0,
        len < usize::MAX,
    ensures
        r == n_windows(len as int, win as int, hop as int),
{
    if len >= win {
        proof {
            vstd::arithmetic::div_mod::lemma_div_is_ordered_by_denominator((len - win) as int, 1, hop as int);
        }
        (len - win) / hop + 1
    } else {
        0
    }
}

proof fn lemma_windows_span(len: int, win: int, hop: int)
    requires
        hop > 0,
        win >= 1,
        len >= 0,
    ensures
        0 <= n_windows(len, win, hop),
        len >= win ==> n_windows(len, win, hop) * hop <= len - win + hop,
        len < win ==> n_windows(len, win, hop) == 0,
        n_windows(len, win, hop) <= len,
{
    if len >= win {
        let q = (len - win) / hop;
        vstd::arithmetic::div_mod::lemma_fundamental_div_mod(len - win, hop);
        assert((q + 1) * hop <= len - win + hop) by (nonlinear_arith)
            requires
                len - win == hop * q + (len - win) % hop,
                0 <= (len - win) % hop,
        ;
        vstd::arithmetic::div_mod::lemma_div_is_ordered_by_denominator(len - win, 1, hop);
        assert(0 <= (len - win) % hop);
    }
}

/// Plans the frames of the transform of `len` samples with windows of `win_length` samples,
/// `hop_length` apart, padded to `n_fft`; `None` where the signal cannot be cut so.
pub fn stft_frame_plan(len: usize, win_length: usize, hop_length: usize, n_fft: usize) -> (res: Option<StftFramePlan>)
    requires
        win_length >= 1,
        hop_length >= 1,
        n_fft >= win_length,
        2 * len + 2 * win_length + 2 * hop_length <= usize::MAX,
    ensures
        res == spec_frame_plan(len as int, win_length as int, hop_length as int, n_fft as int),
        res matches Some(plan) ==> plan.n_frames == n_windows(len + 2 * (win_length / 2), win_length as int, hop_length as int),
{
    let half = win_length / 2;
    let n_pad_left = (n_fft - win_length) / 2;
    let n_pad_right = n_fft - win_length - n_pad_left;
    if len < win_length {
        let frames = count_windows(len + 2 * half, win_length, hop_length);
        return Some(StftFramePlan {
            n_pad_left,
            n_pad_right,
            short: true,
            front_frames: frames,
            mid_start: 0,
            mid_frames: 0,
            back_start: 0,
            back_skip: 0,
            back_frames: 0,
            n_frames: frames,
        });
    }
    let front_frames = count_windows(win_length - 1 + half, win_length, hop_length);
    proof {
        lemma_windows_span((win_length - 1 + half) as int, win_length as int, hop_length as int);
        if front_frames == 0 {
            assert(half == 0);
        } else {
            assert(front_frames * hop_length >= hop_length) by (nonlinear_arith)
                requires
                    front_frames >= 1,
                    hop_length >= 1,
            ;
            vstd::arithmetic::div_mod::lemma_fundamental_div_mod((win_length - 1 + half - win_length) as int, hop_length as int);
            assert(front_frames * hop_length >= half) by (nonlinear_arith)
                requires
                    front_frames == (half - 1) / (hop_length as int) + 1,
                    half >= 1,
                    hop_length >= 1,
                    half - 1 == (hop_length as int) * ((half - 1) / (hop_length as int)) + (half - 1) % (hop_length as int),
                    (half - 1) % (hop_length as int) < hop_length,
            ;
        }
    }
    let mid_start = front_frames * hop_length - half;
    if mid_start > len {
        return None;
    }
    let mid_frames = count_windows(len - mid_start, win_length, hop_length);
    proof {
        lemma_windows_span((len - mid_start) as int, win_length as int, hop_length as int);
        if mid_frames == 0 {
            assert(mid_frames * hop_length == 0) by (nonlinear_arith)
                requires
                    mid_frames == 0,
            ;
        }
        assert(mid_start + mid_frames * hop_length <= len + hop_length);
    }
    let back_first = mid_start + mid_frames * hop_length;
    let back_start = if back_first < len - half - 1 { back_first } else { len - half - 1 };
    let back_skip = back_first - back_start;
    if back_skip > len - back_start + half {
        return None;
    }
    let back_frames = count_windows(len - back_start + half - back_skip, win_length, hop_length);
    proof {
        lemma_windows_span((len - back_start + half - back_skip) as int, win_length as int, hop_length as int);
        lemma_plan_counts_all_windows(len as int, win_length as int, hop_length as int, n_fft as int);
    }
    Some(StftFramePlan {
        n_pad_left,
        n_pad_right,
        short: false,
        front_frames,
        mid_start,
        mid_frames,
        back_start,
        back_skip,
        back_frames,
        n_frames: front_frames + mid_frames + back_frames,
    })
}


/// The hop, window and FFT lengths for a hop of `hop_length` samples: the window spans
/// `t_overlap` hops and the FFT `f_overlap` times the window length rounded up to a power of
/// two.
pub fn calc_framing_params(hop_length: usize, t_overlap: u32, f_overlap: u32) -> (res: (usize, usize, usize))
    requires
        hop_length * t_overlap <= usize::MAX / 2 + 1,
        spec_next_power_of_two((hop_length * t_overlap) as nat) * f_overlap <= usize::MAX,
    ensures
        res.0 == hop_length,
        res.1 == hop_length * t_overlap,
        res.2 == spec_next_power_of_two((hop_length * t_overlap) as nat) * f_overlap,
{
    let win_length = hop_length * (t_overlap as usize);
    let n_fft = next_power_of_two(win_length) * (f_overlap as usize);
    (hop_length, win_length, n_fft)
}

} // verus!
