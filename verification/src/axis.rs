//! Axis labels: which ticks of an axis carry a label, and how a frequency reads.

use vstd::prelude::*;

use vstd::arithmetic::div_mod::{lemma_fundamental_div_mod, lemma_mod_bound};

use crate::decimal::{dec_digits, padded_digits, push_decimal, push_padded};

verus! {

/// `ceil(len / max_num_labels)`: every this many ticks, one carries a label.
pub open spec fn label_interval(len: int, max_num_labels: int) -> int {
    len / max_num_labels + if len % max_num_labels > 0 { 1int } else { 0int }
}

/// Whether tick `i` of `len` keeps its label: every `n_mod`-th tick from the first, unless it
/// stands closer than `n_mod` to the last, and the last tick always.
pub open spec fn keeps_label(i: int, len: int, n_mod: int) -> bool {
    (i % n_mod == 0 && len - 1 - i >= n_mod) || i == len - 1
}

/// Clears the labels of all but about `max_num_labels` evenly spaced ticks of an axis of
/// `len` ticks, always keeping the last one.
pub fn omit_labels_from_linear_axis<Y: Copy>(axis: Vec<(Y, String)>, len: usize, max_num_labels: u32) -> (res: Vec<(Y, String)>)
    requires
        max_num_labels > 0,
        axis@.len() <= len,
    ensures
        res@.len() == axis@.len(),
        forall|i: int| 0 <= i < axis@.len() ==> (#[trigger] res@[i]).0 == axis@[i].0 && res@[i].1@ == (if keeps_label(
            i,
            len as int,
            label_interval(len as int, max_num_labels as int),
        ) {
            axis@[i].1@
        } else {
            Seq::<char>::empty()
        }),
{
    let m = max_num_labels as usize;
    proof {
        lemma_fundamental_div_mod(len as int, m as int);
        lemma_mod_bound(len as int, m as int);
        if len % m > 0 {
            assert(m >= 2);
            assert((len / m) * m <= len);
            assert(len / m < usize::MAX) by (nonlinear_arith)
                requires (len / m) * m <= len, m >= 2, len <= usize::MAX;
        }
        assert(len > 0 && len / m == 0 ==> len % m > 0) by (nonlinear_arith)
            requires m > 0, len == m * (len / m) + len % m;
    }
    let n_mod = len / m + if len % m > 0 { 1 } else { 0 };
    let mut res: Vec<(Y, String)> = Vec::new();
    let n = axis.len();
    let mut i: usize = 0;
    while i < n
        invariant
            n == axis@.len(),
            n <= len,
            i <= n,
            m == max_num_labels,
            m > 0,
            n_mod == label_interval(len as int, m as int),
            len > 0 ==> n_mod >= 1,
            res@.len() == i,
            forall|j: int| 0 <= j < i ==> (#[trigger] res@[j]).0 == axis@[j].0 && res@[j].1@ == (if keeps_label(
                j,
                len as int,
                n_mod as int,
            ) {
                axis@[j].1@
            } else {
                Seq::<char>::empty()
            }),
        decreases n - i,
    {
        let y = axis[i].0;
        if i % n_mod == 0 && (len - 1 - i) >= n_mod || i == len - 1 {
            res.push((y, axis[i].1.clone()));
        } else {
            res.push((y, String::new()));
        }
        i = i + 1;
    }
    res
}

/// The label of a frequency of `freq` Hz: plain below 1 kHz, else in kHz with as many
/// decimals (up to three) as the frequency needs, such as `"500"`, `"12k"`, `"10.5k"`,
/// `"11.025k"`.
pub open spec fn hz_label(freq: nat) -> Seq<char> {
    if freq >= 1000 {
        let frac = if freq % 1000 == 0 {
            Seq::empty()
        } else if freq % 100 == 0 {
            seq!['.'] + padded_digits(freq % 1000 / 100, 1)
        } else if freq % 10 == 0 {
            seq!['.'] + padded_digits(freq % 1000 / 10, 2)
        } else {
            seq!['.'] + padded_digits(freq % 1000, 3)
        };
        dec_digits(freq / 1000) + frac + seq!['k']
    } else {
        dec_digits(freq)
    }
}

/// The label of a frequency, already rounded to whole Hz.
pub fn convert_hz_to_label(freq: usize) -> (label: String)
    ensures
        label@ == hz_label(freq as nat),
{
    let mut s = String::new();
    proof {
        reveal_strlit(".");
        reveal_strlit("k");
    }
    if freq >= 1000 {
        push_decimal(&mut s, freq / 1000);
        if freq % 1000 == 0 {
        } else if freq % 100 == 0 {
            s.append(".");
            push_padded(&mut s, freq % 1000 / 100, 1);
        } else if freq % 10 == 0 {
            s.append(".");
            push_padded(&mut s, freq % 1000 / 10, 2);
        } else {
            s.append(".");
            push_padded(&mut s, freq % 1000, 3);
        }
        s.append("k");
    } else {
        push_decimal(&mut s, freq);
    }
    s
}

} // verus!
