//! Slices of arrays: clipping a range to an array, and widening it by a margin.

use vstd::prelude::*;

verus! {

/// The part of `[index, index + length)` that lies inside `[0, total_length)`,
/// as `(start, len)`, or `None` when nothing of it does.
pub open spec fn spec_effective_slice(index: int, length: int, total_length: int) -> Option<(int, int)> {
    if index >= total_length {
        None
    } else if index < 0 {
        let i_right = length + index;
        if i_right > 0 {
            Some((0, if i_right < total_length { i_right } else { total_length }))
        } else {
            None
        }
    } else {
        Some((index, if length < total_length - index { length } else { total_length - index }))
    }
}

/// Clips the range `[index, index + length)` to `[0, total_length)`.
pub fn calc_effective_slice(index: isize, length: usize, total_length: usize) -> (res: Option<(usize, usize)>)
    ensures
        res.is_some() == spec_effective_slice(index as int, length as int, total_length as int).is_some(),
        res matches Some(r) ==> spec_effective_slice(index as int, length as int, total_length as int)
            == Some((r.0 as int, r.1 as int)),
        res is None <==> (index >= total_length || index + length <= 0 && index < 0),
        res matches Some(r) ==> (r.0 == index || (r.0 == 0 && index < 0)) && r.0 + r.1 <= total_length
            && r.0 + r.1 <= index + length && (r.0 + r.1 == index + length || r.0 + r.1 == total_length),
{
    proof {
        law_effective_slice(index as int, length as int, total_length as int);
    }
    if index < 0 {
        // how far the range starts before the array
        let before = (-(index + 1)) as usize + 1;
        if length > before {
            let r = length - before;
            Some((0, if r < total_length { r } else { total_length }))
        } else {
            None
        }
    } else if index as usize >= total_length {
        None
    } else {
        let rest = total_length - index as usize;
        Some((index as usize, if length < rest { length } else { rest }))
    }
}

/// The effective slice is the part of `[index, index + length)` inside `[0, total_length)`:
/// there is none exactly when the range starts at or past the end, or ends at or before zero
/// having started before it; else it starts at the range's start (or at zero, for a range that
/// starts before the array) and ends at the range's end or the array's, whichever comes first.
pub proof fn law_effective_slice(index: int, length: int, total_length: int)
    requires
        length >= 0,
        total_length >= 0,
    ensures
        spec_effective_slice(index, length, total_length) is None
            <==> (index >= total_length || (index < 0 && index + length <= 0)),
        spec_effective_slice(index, length, total_length) matches Some(r) ==> {
            &&& 0 <= r.0 <= total_length
            &&& r.0 == index || (r.0 == 0 && index < 0)
            &&& 0 <= r.1
            &&& r.0 + r.1 <= total_length
            &&& r.0 + r.1 <= index + length
            &&& r.0 + r.1 == index + length || r.0 + r.1 == total_length
        },
{
}

/// `x` as a `usize`, wrapping around for negative values.
pub open spec fn wrap_to_usize(x: int) -> int {
    if x < 0 { x + usize::MAX + 1 } else { x }
}

/// The start and the length of the slice of `[0, max_length)` that covers the range from
/// `start_floor` to `end_ceil` widened by `margin` on both sides, the start clipped at zero and
/// the length at what is left after the start (a length below zero wraps around as a `usize`).
pub open spec fn spec_margin_slice(start_floor: int, end_ceil: int, max_length: int, margin: int) -> (int, int) {
    let start_w_margin = start_floor - margin;
    let len_w_margin = if end_ceil + margin - start_w_margin > 0 { end_ceil + margin - start_w_margin } else { 0 };
    let start_clipped = if start_w_margin > 0 { start_w_margin } else { 0 };
    let rest = max_length - start_clipped;
    (start_clipped, wrap_to_usize(if len_w_margin < rest { len_w_margin } else { rest }))
}

/// Widens a range by `margin` on both sides and clips it to `[0, max_length)`: the range starts
/// at `start_floor` (its start rounded toward zero) and ends at `end_ceil` (its end rounded up).
/// Returns the start and the length of the slice.
pub fn margin_slice(start_floor: isize, end_ceil: isize, max_length: usize, margin: usize) -> (res: (usize, usize))
    requires
        margin <= isize::MAX,
        max_length <= isize::MAX,
        start_floor - margin >= isize::MIN,
        end_ceil + margin <= isize::MAX,
        end_ceil + 2 * margin - start_floor <= isize::MAX,
        end_ceil + 2 * margin - start_floor >= isize::MIN,
    ensures
        (res.0 as int, res.1 as int) == spec_margin_slice(start_floor as int, end_ceil as int, max_length as int, margin as int),
        res.0 >= start_floor - margin,
        res.0 == 0 || res.0 == start_floor - margin,
        res.0 <= max_length ==> res.0 + res.1 <= max_length,
        res.0 <= max_length ==> res.1 <= end_ceil + margin - (start_floor - margin) || res.1 == 0,
        res.0 <= max_length ==> res.1 == end_ceil + margin - (start_floor - margin) || res.0 + res.1 == max_length
            || (res.1 == 0 && end_ceil + margin <= start_floor - margin),
        res.0 > max_length ==> res.1 + (res.0 - max_length) == usize::MAX + 1,
{
    proof {
        law_margin_slice(start_floor as int, end_ceil as int, max_length as int, margin as int);
    }
    let m = margin as isize;
    let start_w_margin = start_floor - m;
    let span = end_ceil + m - start_w_margin;
    let len_w_margin = if span > 0 { span } else { 0 };
    let start_clipped: usize = if start_w_margin > 0 { start_w_margin as usize } else { 0 };
    let rest = max_length as isize - start_clipped as isize;
    let len = if len_w_margin < rest { len_w_margin } else { rest };
    let len_usize: usize = if len < 0 { usize::MAX - ((-(len + 1)) as usize) } else { len as usize };
    (start_clipped, len_usize)
}

/// The widened slice starts at the range's start less the margin, or at zero where that falls
/// before the array. Where that start lies within the array, the slice stays inside it: its
/// length is the widened range's (`end_ceil - start_floor + 2 * margin`, or zero for an empty
/// range), cut short only by the end of the array. A start past the end gives a length below
/// zero, which wraps around as a `usize`.
pub proof fn law_margin_slice(start_floor: int, end_ceil: int, max_length: int, margin: int)
    requires
        margin >= 0,
        max_length >= 0,
    ensures
        ({
            let (start, len) = spec_margin_slice(start_floor, end_ceil, max_length, margin);
            let widened_start = start_floor - margin;
            let widened_len = end_ceil + margin - widened_start;
            &&& start >= 0
            &&& start >= widened_start
            &&& (start == 0 || start == widened_start)
            &&& start <= max_length ==> 0 <= len && start + len <= max_length
            &&& start <= max_length ==> len <= widened_len || len == 0
            &&& start <= max_length ==> len == widened_len || start + len == max_length
                || (len == 0 && widened_len <= 0)
            &&& start > max_length ==> len + (start - max_length) == usize::MAX + 1
        }),
{
}

} // verus!
