//! Decimal numerals: writing and reading unsigned integers as text.

use vstd::prelude::*;

verus! {

/// The character of a decimal digit.
pub open spec fn digit_char(d: nat) -> char {
    ((d + 48) as u32) as char
}

pub open spec fn is_digit(c: char) -> bool {
    '0' <= c && c <= '9'
}

/// The decimal numeral of `n`, without leading zeros.
pub open spec fn dec_digits(n: nat) -> Seq<char>
    decreases n,
{
    if n < 10 {
        seq![digit_char(n)]
    } else {
        dec_digits(n / 10).push(digit_char(n % 10))
    }
}

/// The value of a string of decimal digits.
pub open spec fn digits_value(s: Seq<char>) -> nat
    decreases s.len(),
{
    if s.len() == 0 {
        0
    } else {
        digits_value(s.drop_last()) * 10 + ((s.last() as u32) - 48) as nat
    }
}

/// What parsing `s` as a `usize` gives: an optional `+`, then one or more decimal digits,
/// whose value fits a `usize`.
pub open spec fn parse_usize(s: Seq<char>) -> Option<usize> {
    let d = unsigned_digits(s);
    if d.len() > 0 && all_digits(d) && digits_value(d) <= usize::MAX {
        Some(digits_value(d) as usize)
    } else {
        None
    }
}

/// `s` without a leading `+`.
pub open spec fn unsigned_digits(s: Seq<char>) -> Seq<char> {
    if s.len() > 0 && s[0] == '+' { s.drop_first() } else { s }
}

pub open spec fn all_digits(d: Seq<char>) -> bool {
    forall|i: int| 0 <= i < d.len() ==> is_digit(#[trigger] d[i])
}

fn digit_str(d: usize) -> (r: &'static str)
    requires
        d < 10,
    ensures
        r@ == seq![digit_char(d as nat)],
{
    proof {
        reveal_strlit("0");
        reveal_strlit("1");
        reveal_strlit("2");
        reveal_strlit("3");
        reveal_strlit("4");
        reveal_strlit("5");
        reveal_strlit("6");
        reveal_strlit("7");
        reveal_strlit("8");
        reveal_strlit("9");
    }
    match d {
        0 => "0",
        1 => "1",
        2 => "2",
        3 => "3",
        4 => "4",
        5 => "5",
        6 => "6",
        7 => "7",
        8 => "8",
        _ => "9",
    }
}

/// `n` in `width` decimal digits, with leading zeros (its last `width` digits).
pub open spec fn padded_digits(n: nat, width: nat) -> Seq<char>
    decreases width,
{
    if width == 0 {
        Seq::empty()
    } else {
        padded_digits(n / 10, (width - 1) as nat).push(digit_char(n % 10))
    }
}

pub fn push_padded(s: &mut String, n: usize, width: usize)
    ensures
        final(s)@ == old(s)@ + padded_digits(n as nat, width as nat),
    decreases width,
{
    if width > 0 {
        push_padded(s, n / 10, width - 1);
        s.append(digit_str(n % 10));
    }
}

/// Appends the decimal numeral of `n` to `s`.
pub fn push_decimal(s: &mut String, n: usize)
    ensures
        final(s)@ == old(s)@ + dec_digits(n as nat),
    decreases n,
{
    if n >= 10 {
        push_decimal(s, n / 10);
    }
    s.append(digit_str(n % 10));
    proof {
        if n >= 10 {
            assert(dec_digits(n as nat) == dec_digits((n / 10) as nat).push(digit_char((n % 10) as nat)));
        }
    }
}


proof fn lemma_digits_value_grows(s: Seq<char>, k: int)
    requires
        0 <= k <= s.len(),
        forall|i: int| 0 <= i < s.len() ==> is_digit(#[trigger] s[i]),
    ensures
        digits_value(s.subrange(0, k)) <= digits_value(s),
    decreases s.len() - k,
{
    if k < s.len() {
        lemma_digits_value_grows(s, k + 1);
        let t = s.subrange(0, k + 1);
        assert(t.drop_last() =~= s.subrange(0, k));
    } else {
        assert(s.subrange(0, k) =~= s);
    }
}

/// Parses the characters `start..end` of `text` as a `usize` (an optional `+`, then digits).
pub fn parse_usize_range(text: &str, start: usize, end: usize) -> (res: Option<usize>)
    requires
        start <= end <= text@.len(),
    ensures
        res == parse_usize(text@.subrange(start as int, end as int)),
{
    let ghost s = text@.subrange(start as int, end as int);
    let mut i = start;
    if i < end && text.get_char(i) == '+' {
        i = i + 1;
    }
    let ghost d = text@.subrange(i as int, end as int);
    proof {
        if s.len() > 0 && s[0] == '+' {
            assert(d =~= s.drop_first());
        } else {
            assert(d =~= s);
        }
    }
    if i == end {
        return None;
    }
    let first = i;
    let mut value: usize = 0;
    while i < end
        invariant
            first <= i <= end <= text@.len(),
            first < end,
            d == text@.subrange(first as int, end as int),
            s == text@.subrange(start as int, end as int),
            d == unsigned_digits(s),
            forall|k: int| 0 <= k < i - first ==> is_digit(#[trigger] d[k]),
            value as nat == digits_value(d.subrange(0, i - first)),
        decreases end - i,
    {
        let c = text.get_char(i);
        if !('0' <= c && c <= '9') {
            proof {
                assert(d[i - first] == c);
                assert(!is_digit(d[i - first]));
                assert(!all_digits(d));
            }
            return None;
        }
        proof {
            assert(d[i - first] == c);
            assert(d.subrange(0, i - first + 1).drop_last() =~= d.subrange(0, i - first));
        }
        let digit = (c as u32 - 48) as usize;
        proof {
            assert(is_digit(d[i - first]));
            assert(d.subrange(0, i - first + 1).last() == c);
            assert(digits_value(d.subrange(0, i - first + 1)) == value * 10 + digit);
        }
        match value.checked_mul(10) {
            Some(v10) => match v10.checked_add(digit) {
                Some(v) => {
                    value = v;
                }
                None => {
                    proof {
                        lemma_none_when_large(d, first, i, end);
                    }
                    return None;
                }
            },
            None => {
                proof {
                    lemma_none_when_large(d, first, i, end);
                }
                return None;
            }
        }
        i = i + 1;
    }
    proof {
        assert(d.subrange(0, end - first) =~= d);
    }
    Some(value)
}

proof fn lemma_none_when_large(d: Seq<char>, first: usize, i: usize, end: usize)
    requires
        first <= i < end,
        d.len() == end - first,
        forall|k: int| 0 <= k < i - first + 1 ==> is_digit(#[trigger] d[k]),
        digits_value(d.subrange(0, i - first + 1)) > usize::MAX,
    ensures
        !(d.len() > 0 && all_digits(d) && digits_value(d) <= usize::MAX),
{
    if all_digits(d) {
        lemma_digits_value_grows(d, i - first + 1);
    }
}

} // verus!
