//! Choosing the audio host and the output device by name.
//!
//! A host whose name mentions jack is taken over the default host, and an output device whose
//! name mentions pipewire, pulse or jack over the default device; where several do, the last
//! one listed wins. Names are compared as lowercased: a capital letter matches its small letter,
//! and the Kelvin sign (U+212A), which lowercases to `k`, matches `k`. No other character
//! lowercases into a small ASCII letter on its own; the dotted capital I (U+0130) lowercases to
//! `i` followed by a combining dot, which no searched word has after an `i`, so it never makes
//! or breaks a match.

use vstd::prelude::*;

verus! {

/// `c`, lowercased, is the character of ASCII code `k`: `k` itself, its capital, or, for `k`,
/// the Kelvin sign.
pub open spec fn same_letter(c: char, k: u8) -> bool {
    ||| c as int == k as int
    ||| ('A' <= c && c <= 'Z' && c as int + 32 == k as int)
    ||| (c as int == 0x212A && k == 107)
}

/// `word` stands in `name` from position `i` on.
pub open spec fn word_at(name: Seq<char>, word: Seq<u8>, i: int) -> bool {
    &&& 0 <= i
    &&& i + word.len() <= name.len()
    &&& forall|j: int| 0 <= j < word.len() ==> same_letter(#[trigger] name[i + j], word[j])
}

/// `name` mentions `word` somewhere.
pub open spec fn mentions(name: Seq<char>, word: Seq<u8>) -> bool {
    exists|i: int| word_at(name, word, i)
}

/// `jack` in ASCII.
pub open spec fn jack() -> Seq<u8> {
    seq![106u8, 97, 99, 107]
}

/// `pipewire` in ASCII.
pub open spec fn pipewire() -> Seq<u8> {
    seq![112u8, 105, 112, 101, 119, 105, 114, 101]
}

/// `pulse` in ASCII.
pub open spec fn pulse() -> Seq<u8> {
    seq![112u8, 117, 108, 115, 101]
}

/// A host of this name is preferred to the default one.
pub open spec fn preferred_host(name: Seq<char>) -> bool {
    mentions(name, jack())
}

/// An output device of this name is preferred to the default one.
pub open spec fn preferred_device(name: Seq<char>) -> bool {
    mentions(name, pipewire()) || mentions(name, pulse()) || mentions(name, jack())
}

/// Whether `name` mentions `word`, a word of small ASCII letters.
fn mentions_word(name: &str, word: &[u8]) -> (r: bool)
    ensures
        r == mentions(name@, word@),
{
    let n = name.unicode_len();
    let m = word.len();
    if m > n {
        proof {
            assert forall|i: int| !word_at(name@, word@, i) by {}
        }
        return false;
    }
    let mut i: usize = 0;
    while i <= n - m
        invariant
            n == name@.len(),
            m == word@.len(),
            m <= n,
            forall|i2: int| 0 <= i2 < i ==> !word_at(name@, word@, i2),
        decreases n - m + 1 - i,
    {
        let mut j: usize = 0;
        let mut all = true;
        while j < m
            invariant
                n == name@.len(),
                m == word@.len(),
                i + m <= n,
                j <= m,
                all ==> forall|j2: int| 0 <= j2 < j ==> same_letter(#[trigger] name@[i + j2], word@[j2]),
                !all ==> !word_at(name@, word@, i as int),
            decreases m - j,
        {
            let c = name.get_char(i + j);
            let k = word[j];
            let code = c as u32;
            let kcode = k as u32;
            proof {
                assert(code as int == c as int);
            }
            let same = code == kcode || ('A' <= c && c <= 'Z' && code + 32 == kcode)
                || (code == 0x212A && kcode == 107);
            proof {
                assert(same == same_letter(name@[i + j], word@[j as int]));
            }
            if !same {
                all = false;
            }
            j = j + 1;
        }
        if all {
            proof {
                assert(word_at(name@, word@, i as int));
            }
            return true;
        }
        i = i + 1;
    }
    proof {
        assert forall|i2: int| !word_at(name@, word@, i2) by {
            if 0 <= i2 && i2 + m <= n {
                assert(i2 < i);
            }
        }
    }
    false
}

fn is_preferred_host(name: &str) -> (r: bool)
    ensures
        r == preferred_host(name@),
{
    let jack_word: [u8; 4] = [106, 97, 99, 107];
    proof {
        assert(jack_word@ == jack());
    }
    mentions_word(name, &jack_word)
}

fn is_preferred_device(name: &str) -> (r: bool)
    ensures
        r == preferred_device(name@),
{
    let pipewire_word: [u8; 8] = [112, 105, 112, 101, 119, 105, 114, 101];
    let pulse_word: [u8; 5] = [112, 117, 108, 115, 101];
    let jack_word: [u8; 4] = [106, 97, 99, 107];
    proof {
        assert(pipewire_word@ == pipewire());
        assert(pulse_word@ == pulse());
        assert(jack_word@ == jack());
    }
    mentions_word(name, &pipewire_word) || mentions_word(name, &pulse_word) || mentions_word(name, &jack_word)
}

/// The host to take among the available ones, by position in `host_names`: the last one whose
/// name mentions jack, or `None` for the default host.
pub fn choose_host(host_names: &[String]) -> (res: Option<usize>)
    ensures
        match res {
            Some(i) => i < host_names@.len() && preferred_host(host_names@[i as int]@)
                && forall|j: int| i < j < host_names@.len() ==> !preferred_host(#[trigger] host_names@[j]@),
            None => forall|j: int| 0 <= j < host_names@.len() ==> !preferred_host(#[trigger] host_names@[j]@),
        },
{
    let mut chosen: Option<usize> = None;
    let n = host_names.len();
    let mut i: usize = 0;
    while i < n
        invariant
            n == host_names@.len(),
            i <= n,
            match chosen {
                Some(c) => c < i && preferred_host(host_names@[c as int]@)
                    && forall|j: int| c < j < i ==> !preferred_host(#[trigger] host_names@[j]@),
                None => forall|j: int| 0 <= j < i ==> !preferred_host(#[trigger] host_names@[j]@),
            },
        decreases n - i,
    {
        if is_preferred_host(host_names[i].as_str()) {
            chosen = Some(i);
        }
        i = i + 1;
    }
    chosen
}

/// The output device to take, by position in `device_names` (`None` where a device's name
/// could not be read): the last one whose name mentions pipewire, pulse or jack, or `None` for
/// the host's default device.
pub fn choose_device(device_names: &[Option<String>]) -> (res: Option<usize>)
    ensures
        match res {
            Some(i) => i < device_names@.len() && device_names@[i as int] is Some
                && preferred_device(device_names@[i as int]->0@)
                && forall|j: int| i < j < device_names@.len() && #[trigger] device_names@[j] is Some
                    ==> !preferred_device(device_names@[j]->0@),
            None => forall|j: int| 0 <= j < device_names@.len() && #[trigger] device_names@[j] is Some
                ==> !preferred_device(device_names@[j]->0@),
        },
{
    let mut chosen: Option<usize> = None;
    let n = device_names.len();
    let mut i: usize = 0;
    while i < n
        invariant
            n == device_names@.len(),
            i <= n,
            match chosen {
                Some(c) => c < i && device_names@[c as int] is Some && preferred_device(device_names@[c as int]->0@)
                    && forall|j: int| c < j < i && #[trigger] device_names@[j] is Some
                        ==> !preferred_device(device_names@[j]->0@),
                None => forall|j: int| 0 <= j < i && #[trigger] device_names@[j] is Some
                    ==> !preferred_device(device_names@[j]->0@),
            },
        decreases n - i,
    {
        match &device_names[i] {
            Some(name) => {
                if is_preferred_device(name.as_str()) {
                    chosen = Some(i);
                }
            },
            None => {},
        }
        i = i + 1;
    }
    chosen
}

} // verus!
