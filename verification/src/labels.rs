//! The grammar of axis labels typed in by the user: which part of a frequency label is a
//! number and whether it counts kilohertz, and how a time label splits into hours, minutes and
//! seconds. The numbers with a fraction are read by the caller.

use vstd::prelude::*;

use crate::decimal::{parse_usize, parse_usize_range};

verus! {

pub open spec fn is_kilo_char(c: char) -> bool {
    c == 'k' || c == 'K'
}

/// `s` begins with `p`.
pub open spec fn begins_with(s: Seq<char>, p: Seq<char>) -> bool {
    p.len() <= s.len() && s.take(p.len() as int) == p
}

/// A frequency label that stands for no frequency whatever its number: it begins with `k`,
/// `-k`, `K`, `-K` or `.`, or it holds both `k` and `K`.
pub open spec fn freq_label_refused(s: Seq<char>) -> bool {
    ||| begins_with(s, seq!['k'])
    ||| begins_with(s, seq!['-', 'k'])
    ||| begins_with(s, seq!['K'])
    ||| begins_with(s, seq!['-', 'K'])
    ||| begins_with(s, seq!['.'])
    ||| (s.contains('k') && s.contains('K'))
}

/// `s` with each `k` or `K` turned into a decimal point.
pub open spec fn kilo_as_point(s: Seq<char>) -> Seq<char> {
    Seq::new(s.len(), |i: int| if is_kilo_char(s[i]) { '.' } else { s[i] })
}

/// The number text of a frequency label and whether it counts kilohertz: a label ending in
/// `k` or `K` counts the kilohertz before it; a label with `k` or `K` inside and no `.` has it
/// stand for the decimal point of kilohertz (`2k5` is 2.5 kHz); any other label counts hertz.
pub open spec fn freq_label_number(s: Seq<char>) -> Option<(Seq<char>, bool)> {
    if freq_label_refused(s) {
        None
    } else if s.len() > 0 && is_kilo_char(s.last()) {
        Some((s.drop_last(), true))
    } else if (s.contains('k') || s.contains('K')) && !s.contains('.') {
        Some((kilo_as_point(s), true))
    } else {
        Some((s, false))
    }
}

/// Whether `s` holds `c`.
fn has_char(s: &str, c: char) -> (r: bool)
    ensures
        r == s@.contains(c),
{
    let n = s.unicode_len();
    let mut i: usize = 0;
    while i < n
        invariant
            n == s@.len(),
            i <= n,
            forall|j: int| 0 <= j < i ==> s@[j] != c,
        decreases n - i,
    {
        if s.get_char(i) == c {
            proof {
                assert(s@[i as int] == c);
            }
            return true;
        }
        i = i + 1;
    }
    false
}

/// The characters `start..end` of `s`, as a `String`.
fn text_of(s: &str, start: usize, end: usize) -> (r: String)
    requires
        start <= end <= s@.len(),
    ensures
        r@ == s@.subrange(start as int, end as int),
{
    let mut out = String::new();
    out.append(s.substring_char(start, end));
    proof {
        assert(out@ =~= s@.subrange(start as int, end as int));
    }
    out
}

/// The number text of the frequency label `label` (already trimmed) and whether it counts
/// kilohertz; `None` for a label that stands for no frequency.
pub fn freq_label_parts(label: &str) -> (res: Option<(String, bool)>)
    ensures
        match res {
            Some((text, kilo)) => freq_label_number(label@) == Some((text@, kilo)),
            None => freq_label_number(label@) is None,
        },
{
    let ghost s = label@;
    let n = label.unicode_len();
    let first = if n > 0 { label.get_char(0) } else { ' ' };
    let second = if n > 1 { label.get_char(1) } else { ' ' };
    let has_small = has_char(label, 'k');
    let has_capital = has_char(label, 'K');
    let refused = (n > 0 && (first == 'k' || first == 'K' || first == '.'))
        || (n > 1 && first == '-' && (second == 'k' || second == 'K'))
        || (has_small && has_capital);
    proof {
        if n > 0 {
            assert(s.take(1) =~= seq![s[0]]);
        }
        if n > 1 {
            assert(s.take(2) =~= seq![s[0], s[1]]);
        }
        if begins_with(s, seq!['k']) || begins_with(s, seq!['K']) || begins_with(s, seq!['.']) {
            assert(s.take(1)[0] == s[0]);
        }
        if begins_with(s, seq!['-', 'k']) || begins_with(s, seq!['-', 'K']) {
            assert(s.take(2)[0] == s[0]);
            assert(s.take(2)[1] == s[1]);
        }
        assert(refused == freq_label_refused(s));
    }
    if refused {
        return None;
    }
    let last = if n > 0 { label.get_char(n - 1) } else { ' ' };
    if n > 0 && (last == 'k' || last == 'K') {
        let text = text_of(label, 0, n - 1);
        proof {
            assert(s.drop_last() =~= s.subrange(0, n - 1));
        }
        return Some((text, true));
    }
    if (has_small || has_capital) && !has_char(label, '.') {
        let mut out = String::new();
        let mut i: usize = 0;
        proof {
            reveal_strlit(".");
            assert("."@ =~= seq!['.']);
        }
        while i < n
            invariant
                n == s.len(),
                s == label@,
                i <= n,
                out@ == kilo_as_point(s).take(i as int),
                "."@ == seq!['.'],
            decreases n - i,
        {
            let c = label.get_char(i);
            if c == 'k' || c == 'K' {
                out.append(".");
            } else {
                out.append(label.substring_char(i, i + 1));
            }
            proof {
                assert(out@ =~= kilo_as_point(s).take(i + 1));
            }
            i = i + 1;
        }
        proof {
            assert(kilo_as_point(s).take(n as int) =~= kilo_as_point(s));
        }
        return Some((out, true));
    }
    let text = text_of(label, 0, n);
    proof {
        assert(s.subrange(0, n as int) =~= s);
    }
    Some((text, false))
}

/// What parsing `s` as a `u32` gives: an optional `+`, then decimal digits whose value fits.
pub open spec fn parse_u32(s: Seq<char>) -> Option<u32> {
    match parse_usize(s) {
        Some(v) => if v <= u32::MAX { Some(v as u32) } else { None },
        None => None,
    }
}

/// The positions of the colons of `s`, in order.
pub open spec fn colon_positions(s: Seq<char>) -> Seq<int>
    decreases s.len(),
{
    if s.len() == 0 {
        Seq::empty()
    } else if s.last() == ':' {
        colon_positions(s.drop_last()).push(s.len() - 1)
    } else {
        colon_positions(s.drop_last())
    }
}

/// A time label split at its colons: the seconds text after the last colon, and the minutes
/// and hours before it as whole numbers (zero where they are not given); `None` for more than
/// two colons, or for minutes or hours that are not a `u32`.
pub open spec fn time_label_split(s: Seq<char>) -> Option<(Seq<char>, u32, u32)> {
    let ghost c = colon_positions(s);
    if c.len() == 0 {
        Some((s, 0u32, 0u32))
    } else if c.len() == 1 {
        match parse_u32(s.subrange(0, c[0])) {
            Some(m) => Some((s.subrange(c[0] + 1, s.len() as int), m, 0u32)),
            None => None,
        }
    } else if c.len() == 2 {
        match (parse_u32(s.subrange(c[0] + 1, c[1])), parse_u32(s.subrange(0, c[0]))) {
            (Some(m), Some(h)) => Some((s.subrange(c[1] + 1, s.len() as int), m, h)),
            _ => None,
        }
    } else {
        None
    }
}

proof fn lemma_colon_positions_bounds(s: Seq<char>)
    ensures
        forall|k: int| 0 <= k < colon_positions(s).len() ==> 0 <= #[trigger] colon_positions(s)[k] < s.len()
            && s[colon_positions(s)[k]] == ':',
        forall|k1: int, k2: int| 0 <= k1 < k2 < colon_positions(s).len() ==> #[trigger] colon_positions(s)[k1]
            < #[trigger] colon_positions(s)[k2],
    decreases s.len(),
{
    if s.len() > 0 {
        let d = s.drop_last();
        lemma_colon_positions_bounds(d);
        let p = colon_positions(d);
        assert forall|k: int| 0 <= k < p.len() implies 0 <= #[trigger] p[k] < d.len() && s[p[k]] == ':' by {
            assert(s[p[k]] == d[p[k]]);
        }
        if s.last() == ':' {
            let q = p.push(s.len() - 1);
            assert(colon_positions(s) == q);
            assert forall|k: int| 0 <= k < q.len() implies 0 <= #[trigger] q[k] < s.len() && s[q[k]] == ':' by {
                if k < p.len() {
                    assert(q[k] == p[k]);
                }
            }
            assert forall|k1: int, k2: int| 0 <= k1 < k2 < q.len() implies #[trigger] q[k1] < #[trigger] q[k2] by {
                assert(q[k1] == p[k1]);
                if k2 < p.len() {
                    assert(q[k2] == p[k2]);
                }
            }
        } else {
            assert(colon_positions(s) == p);
        }
    }
}

fn parse_u32_range(text: &str, start: usize, end: usize) -> (res: Option<u32>)
    requires
        start <= end <= text@.len(),
    ensures
        res == parse_u32(text@.subrange(start as int, end as int)),
{
    match parse_usize_range(text, start, end) {
        Some(v) => if v <= u32::MAX as usize { Some(v as u32) } else { None },
        None => None,
    }
}

/// The seconds text, minutes and hours of the time label `label` (already trimmed), of the
/// form `[[hh:]mm:]ss.xxx`; `None` where it has more than two colons or its minutes or hours are
/// not whole numbers that fit a `u32`.
pub fn time_label_parts(label: &str) -> (res: Option<(String, u32, u32)>)
    ensures
        match res {
            Some((text, m, h)) => time_label_split(label@) == Some((text@, m, h)),
            None => time_label_split(label@) is None,
        },
{
    let ghost s = label@;
    let n = label.unicode_len();
    let mut colons: Vec<usize> = Vec::new();
    let mut i: usize = 0;
    while i < n
        invariant
            n == s.len(),
            s == label@,
            i <= n,
            colons@.len() == colon_positions(s.take(i as int)).len(),
            forall|k: int| 0 <= k < colons@.len() ==> colons@[k] as int == #[trigger] colon_positions(s.take(i as int))[k],
        decreases n - i,
    {
        proof {
            assert(s.take(i + 1).drop_last() =~= s.take(i as int));
        }
        if label.get_char(i) == ':' {
            colons.push(i);
        }
        i = i + 1;
    }
    proof {
        assert(s.take(n as int) =~= s);
        lemma_colon_positions_bounds(s);
    }
    let ghost c = colon_positions(s);
    if colons.len() == 0 {
        let text = text_of(label, 0, n);
        proof {
            assert(s.subrange(0, n as int) =~= s);
        }
        Some((text, 0, 0))
    } else if colons.len() == 1 {
        let c0 = colons[0];
        match parse_u32_range(label, 0, c0) {
            Some(m) => Some((text_of(label, c0 + 1, n), m, 0)),
            None => None,
        }
    } else if colons.len() == 2 {
        let c0 = colons[0];
        let c1 = colons[1];
        let m = parse_u32_range(label, c0 + 1, c1);
        let h = parse_u32_range(label, 0, c0);
        match (m, h) {
            (Some(m), Some(h)) => Some((text_of(label, c1 + 1, n), m, h)),
            _ => None,
        }
    } else {
        None
    }
}

} // verus!
