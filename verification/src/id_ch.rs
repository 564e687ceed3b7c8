//! The text key of a track channel: `"{id}_{ch}"`.

use vstd::prelude::*;

use crate::decimal::{
    all_digits, dec_digits, digit_char, digits_value, is_digit, parse_usize, parse_usize_range, push_decimal,
    unsigned_digits,
};

verus! {

/// The error of a key that is not `"{unsigned_int}_{unsigned_int}"`.
#[derive(Clone, Copy, PartialEq, Eq, Debug)]
pub struct IdChParseError;

impl IdChParseError {
    /// The message the error carries.
    pub fn message(&self) -> (r: &'static str)
        ensures
            r@ == "The array element should be \"{unsigned_int}_{unsigned_int}\"."@,
    {
        "The array element should be \"{unsigned_int}_{unsigned_int}\"."
    }
}

/// The key of channel `ch` of track `id`.
pub open spec fn spec_format_id_ch(id: usize, ch: usize) -> Seq<char> {
    dec_digits(id as nat) + seq!['_'] + dec_digits(ch as nat)
}

/// The first position at or after `start` that holds `_`, or the end of `s`.
pub open spec fn field_end(s: Seq<char>, start: int) -> int
    decreases s.len() - start,
{
    if start >= s.len() {
        s.len() as int
    } else if s[start] == '_' {
        start
    } else {
        field_end(s, start + 1)
    }
}

/// What a key parses to: its first two `_`-separated fields, each as a `usize`.
pub open spec fn spec_parse_id_ch(s: Seq<char>) -> Option<(usize, usize)> {
    let e0 = field_end(s, 0);
    if e0 >= s.len() {
        None
    } else {
        let e1 = field_end(s, e0 + 1);
        match (parse_usize(s.subrange(0, e0)), parse_usize(s.subrange(e0 + 1, e1))) {
            (Some(id), Some(ch)) => Some((id, ch)),
            _ => None,
        }
    }
}

/// The key of channel `ch` of track `id`.
pub fn format_id_ch(id: usize, ch: usize) -> (r: String)
    ensures
        r@ == spec_format_id_ch(id, ch),
{
    let mut s = String::new();
    push_decimal(&mut s, id);
    proof {
        reveal_strlit("_");
    }
    s.append("_");
    push_decimal(&mut s, ch);
    s
}

fn find_field_end(text: &str, start: usize, len: usize) -> (r: usize)
    requires
        len == text@.len(),
        start <= len,
    ensures
        r as int == field_end(text@, start as int),
        start <= r <= len,
{
    let mut i = start;
    while i < len && text.get_char(i) != '_'
        invariant
            len == text@.len(),
            start <= i <= len,
            field_end(text@, i as int) == field_end(text@, start as int),
        decreases len - i,
    {
        i = i + 1;
    }
    i
}

proof fn lemma_field_end_bounds(s: Seq<char>, start: int)
    requires
        0 <= start,
    ensures
        start <= field_end(s, start) || start > s.len(),
        field_end(s, start) <= s.len(),
    decreases s.len() - start,
{
    if start < s.len() && s[start] != '_' {
        lemma_field_end_bounds(s, start + 1);
    }
}

/// Parses a key into `(id, ch)`.
pub fn parse_id_ch_str(id_ch_str: &str) -> (res: Result<(usize, usize), IdChParseError>)
    ensures
        res matches Ok(p) ==> spec_parse_id_ch(id_ch_str@) == Some(p),
        res is Err ==> spec_parse_id_ch(id_ch_str@) is None,
{
    let len = id_ch_str.unicode_len();
    let e0 = find_field_end(id_ch_str, 0, len);
    if e0 >= len {
        return Err(IdChParseError);
    }
    let e1 = find_field_end(id_ch_str, e0 + 1, len);
    match (parse_usize_range(id_ch_str, 0, e0), parse_usize_range(id_ch_str, e0 + 1, e1)) {
        (Some(id), Some(ch)) => Ok((id, ch)),
        _ => Err(IdChParseError),
    }
}

proof fn lemma_dec_digits(n: nat)
    ensures
        dec_digits(n).len() > 0,
        all_digits(dec_digits(n)),
        digits_value(dec_digits(n)) == n,
    decreases n,
{
    let d = dec_digits(n);
    if n >= 10 {
        lemma_dec_digits(n / 10);
        assert(d.drop_last() =~= dec_digits(n / 10));
        assert forall|i: int| 0 <= i < d.len() implies is_digit(#[trigger] d[i]) by {
            if i < d.len() - 1 {
                assert(d[i] == dec_digits(n / 10)[i]);
            }
        }
    }
    let k = n % 10;
    assert(((k + 48) as u32) as int == k + 48);
    assert((((k + 48) as u32) as char) as u32 == (k + 48) as u32);
    assert(((digit_char(k) as u32) - 48) as nat == k);
    assert(d.last() == digit_char(k));
    assert(digits_value(d) == digits_value(d.drop_last()) * 10 + k);
    if n < 10 {
        assert(d.drop_last() =~= Seq::<char>::empty());
        assert(digits_value(d.drop_last()) == 0);
    } else {
        assert(digits_value(d.drop_last()) == n / 10);
    }
}

proof fn lemma_parse_decimal(n: usize)
    ensures
        parse_usize(dec_digits(n as nat)) == Some(n),
{
    lemma_dec_digits(n as nat);
    let d = dec_digits(n as nat);
    assert(is_digit(d[0]));
    assert(unsigned_digits(d) == d);
}

proof fn lemma_field_end_skips_digits(s: Seq<char>, start: int, stop: int)
    requires
        0 <= start <= stop <= s.len(),
        forall|i: int| start <= i < stop ==> is_digit(#[trigger] s[i]),
        stop == s.len() || s[stop] == '_',
    ensures
        field_end(s, start) == stop,
    decreases stop - start,
{
    if start < stop {
        assert(is_digit(s[start]));
        lemma_field_end_skips_digits(s, start + 1, stop);
    }
}

/// Reading a key gives back the id and the channel it was made of.
pub proof fn law_parse_format_id_ch(id: usize, ch: usize)
    ensures
        spec_parse_id_ch(spec_format_id_ch(id, ch)) == Some((id, ch)),
{
    let a = dec_digits(id as nat);
    let b = dec_digits(ch as nat);
    let s = spec_format_id_ch(id, ch);
    lemma_dec_digits(id as nat);
    lemma_dec_digits(ch as nat);
    lemma_parse_decimal(id);
    lemma_parse_decimal(ch);
    assert forall|i: int| 0 <= i < a.len() implies is_digit(#[trigger] s[i]) by {
        assert(s[i] == a[i]);
    }
    assert(s[a.len() as int] == '_');
    lemma_field_end_skips_digits(s, 0, a.len() as int);
    assert forall|i: int| a.len() + 1 <= i < s.len() implies is_digit(#[trigger] s[i]) by {
        assert(s[i] == b[i - a.len() - 1]);
    }
    lemma_field_end_skips_digits(s, a.len() as int + 1, s.len() as int);
    assert(s.subrange(0, a.len() as int) =~= a);
    assert(s.subrange(a.len() as int + 1, s.len() as int) =~= b);
}

} // verus!
