//! What is shown of an audio file's format: its name, sample rate, bit depth and bitrate.
//!
//! The decoder reports the container's and the codec's names and what it knows of the samples;
//! the caller hands those in as plain values.

use vstd::prelude::*;

use crate::decimal::{dec_digits, push_decimal};

verus! {

/// What the decoder knows of the coded samples, the first that it knows of these.
#[derive(Clone, Debug)]
pub enum CodecDetail {
    /// the sample format, by name
    SampleFormat(String),
    /// bits per decoded sample
    BitsPerSample(u32),
    /// bits per coded sample
    BitsPerCodedSample(u32),
    /// nothing
    Unknown,
}

/// The format of an audio file as shown to the user.
#[derive(Clone, Debug, PartialEq, Eq)]
pub struct AudioFormatInfo {
    pub name: String,
    pub sr: u32,
    pub bit_depth: String,
    pub bitrate: String,
}

/// `s` with each `wave` read from the left turned into `wav`.
pub open spec fn wave_to_wav(s: Seq<char>) -> Seq<char>
    decreases s.len(),
{
    if s.len() >= 4 && s.take(4) == seq!['w', 'a', 'v', 'e'] {
        seq!['w', 'a', 'v'] + wave_to_wav(s.skip(4))
    } else if s.len() == 0 {
        Seq::empty()
    } else {
        seq![s[0]] + wave_to_wav(s.skip(1))
    }
}

/// The name of a format: the container's name (with `wave` written `wav`), followed by
/// ` - ` and the codec's name where the two differ.
pub open spec fn display_name(format_name: Seq<char>, codec_name: Seq<char>) -> Seq<char> {
    let f = wave_to_wav(format_name);
    if f == codec_name {
        f
    } else {
        f + seq![' ', '-', ' '] + codec_name
    }
}

pub open spec fn is_alac(codec_name: Seq<char>) -> bool {
    codec_name == seq!['a', 'l', 'a', 'c']
}

pub open spec fn starts_with_wav(name: Seq<char>) -> bool {
    name.len() >= 3 && name.take(3) == seq!['w', 'a', 'v']
}

/// `num / den` rounded to the nearest integer (halves up) and held to `usize`; for a zero
/// `den`, zero over zero gives zero and anything else the largest `usize`.
pub open spec fn rounded_kbps(num: int, den: int) -> int {
    let q = if den == 0 {
        if num == 0 { 0 } else { usize::MAX as int }
    } else {
        (2 * num + den) / (2 * den)
    };
    if q > usize::MAX { usize::MAX as int } else { q }
}

/// The bitrate text of `kbps` kilobits per second.
pub open spec fn kbps_text(kbps: int) -> Seq<char> {
    dec_digits(kbps as nat) + seq![' ', 'k', 'b', 'p', 's']
}

/// Whether two texts are the same.
fn same_text(a: &str, b: &str) -> (r: bool)
    ensures
        r == (a@ == b@),
{
    let n = a.unicode_len();
    if n != b.unicode_len() {
        return false;
    }
    let mut i: usize = 0;
    while i < n
        invariant
            n == a@.len(),
            n == b@.len(),
            i <= n,
            forall|j: int| 0 <= j < i ==> a@[j] == b@[j],
        decreases n - i,
    {
        if a.get_char(i) != b.get_char(i) {
            return false;
        }
        i = i + 1;
    }
    proof {
        assert(a@ =~= b@);
    }
    true
}

fn wave_to_wav_text(s: &str) -> (r: String)
    ensures
        r@ == wave_to_wav(s@),
{
    let n = s.unicode_len();
    let mut out = String::new();
    let mut i: usize = 0;
    proof {
        reveal_strlit("wav");
        assert("wav"@ =~= seq!['w', 'a', 'v']);
        assert(s@.skip(0) =~= s@);
    }
    while i < n
        invariant
            n == s@.len(),
            i <= n,
            out@ + wave_to_wav(s@.skip(i as int)) == wave_to_wav(s@),
            "wav"@ == seq!['w', 'a', 'v'],
        decreases n - i,
    {
        let ghost rest = s@.skip(i as int);
        if n - i >= 4 && s.get_char(i) == 'w' && s.get_char(i + 1) == 'a' && s.get_char(i + 2) == 'v'
            && s.get_char(i + 3) == 'e' {
            proof {
                assert(rest.take(4) =~= seq!['w', 'a', 'v', 'e']);
                assert(rest.skip(4) =~= s@.skip(i + 4));
                assert(out@ + wave_to_wav(rest) =~= (out@ + seq!['w', 'a', 'v']) + wave_to_wav(s@.skip(i + 4)));
            }
            out.append("wav");
            i = i + 4;
        } else {
            let piece = s.substring_char(i, i + 1);
            proof {
                if rest.len() >= 4 && rest.take(4) == seq!['w', 'a', 'v', 'e'] {
                    assert(rest.take(4)[0] == s@[i as int]);
                    assert(rest.take(4)[1] == s@[i + 1]);
                    assert(rest.take(4)[2] == s@[i + 2]);
                    assert(rest.take(4)[3] == s@[i + 3]);
                }
                assert(piece@ =~= seq![rest[0]]);
                assert(rest.skip(1) =~= s@.skip(i + 1));
                assert(out@ + wave_to_wav(rest) =~= (out@ + piece@) + wave_to_wav(s@.skip(i + 1)));
            }
            out.append(piece);
            i = i + 1;
        }
    }
    proof {
        assert(s@.skip(n as int) =~= Seq::<char>::empty());
        assert(out@ + Seq::<char>::empty() =~= out@);
    }
    out
}

/// The name of a format, from the container's and the codec's names.
pub fn format_display_name(format_name: &str, codec_name: &str) -> (r: String)
    ensures
        r@ == display_name(format_name@, codec_name@),
{
    let mut name = wave_to_wav_text(format_name);
    if same_text(name.as_str(), codec_name) {
        name
    } else {
        proof {
            reveal_strlit(" - ");
            assert(" - "@ =~= seq![' ', '-', ' ']);
        }
        name.append(" - ");
        name.append(codec_name);
        proof {
            assert(name@ =~= wave_to_wav(format_name@) + seq![' ', '-', ' '] + codec_name@);
        }
        name
    }
}

fn kbps(num: u128, den: u128) -> (r: usize)
    requires
        num < 0x1_0000_0000_0000_0000_0000_0000,
        den < 0x1_0000_0000_0000_0000_0000_0000,
    ensures
        r == rounded_kbps(num as int, den as int),
{
    let q: u128 = if den == 0 {
        if num == 0 { 0 } else { usize::MAX as u128 }
    } else {
        (2 * num + den) / (2 * den)
    };
    if q > usize::MAX as u128 {
        usize::MAX
    } else {
        q as usize
    }
}

/// The format shown for a file that the decoder read: the name of its container and codec, the
/// sample rate found, and, as the codec allows, a bit depth or a bitrate. For ALAC the bit
/// depth is the sample format found; a WAV shows neither; else the first detail the decoder
/// knows gives the bit depth, or the bitrate is taken from the bits per coded sample, or else
/// from the bytes of all packets over the decoded length.
pub fn from_decoding_result(
    format_name: &str,
    codec_name: &str,
    detail: &CodecDetail,
    found_sr: u32,
    found_sample_format: &str,
    total_packets_byte: usize,
    decoded_wav_len: usize,
) -> (res: AudioFormatInfo)
    requires
        total_packets_byte * 8 <= usize::MAX,
        detail matches CodecDetail::BitsPerCodedSample(b) ==> b * found_sr <= usize::MAX,
    ensures
        res.name@ == display_name(format_name@, codec_name@),
        res.sr == found_sr,
        is_alac(codec_name@) ==> res.bit_depth@ == found_sample_format@ && res.bitrate@ == Seq::<char>::empty(),
        !is_alac(codec_name@) && starts_with_wav(res.name@) ==> res.bit_depth@ == Seq::<char>::empty()
            && res.bitrate@ == Seq::<char>::empty(),
        !is_alac(codec_name@) && !starts_with_wav(res.name@) ==> match detail {
            CodecDetail::SampleFormat(f) => res.bit_depth@ == f@ && res.bitrate@ == Seq::<char>::empty(),
            CodecDetail::BitsPerSample(b) => res.bit_depth@ == dec_digits(*b as nat) + seq![' ', 'b', 'i', 't']
                && res.bitrate@ == Seq::<char>::empty(),
            CodecDetail::BitsPerCodedSample(b) => res.bit_depth@ == Seq::<char>::empty()
                && res.bitrate@ == kbps_text(rounded_kbps(*b as int * found_sr as int, 1000)),
            CodecDetail::Unknown => res.bit_depth@ == Seq::<char>::empty()
                && res.bitrate@ == kbps_text(rounded_kbps(
                    total_packets_byte as int * 8 * found_sr as int,
                    decoded_wav_len as int * 1000,
                )),
        },
{
    let name = format_display_name(format_name, codec_name);
    proof {
        reveal_strlit("alac");
        reveal_strlit(" bit");
        reveal_strlit(" kbps");
        assert("alac"@ =~= seq!['a', 'l', 'a', 'c']);
        assert(" bit"@ =~= seq![' ', 'b', 'i', 't']);
        assert(" kbps"@ =~= seq![' ', 'k', 'b', 'p', 's']);
    }
    if same_text(codec_name, "alac") {
        let mut bit_depth = String::new();
        bit_depth.append(found_sample_format);
        proof {
            assert(bit_depth@ =~= found_sample_format@);
        }
        return AudioFormatInfo { name, sr: found_sr, bit_depth, bitrate: String::new() };
    }
    let wav_prefix = name.unicode_len() >= 3 && name.as_str().get_char(0) == 'w'
        && name.as_str().get_char(1) == 'a' && name.as_str().get_char(2) == 'v';
    proof {
        if name@.len() >= 3 {
            if wav_prefix {
                assert(name@.take(3) =~= seq!['w', 'a', 'v']);
            } else if name@.take(3) == seq!['w', 'a', 'v'] {
                assert(name@.take(3)[0] == name@[0]);
                assert(name@.take(3)[1] == name@[1]);
                assert(name@.take(3)[2] == name@[2]);
            }
        }
        assert(wav_prefix == starts_with_wav(name@));
    }
    if wav_prefix {
        return AudioFormatInfo { name, sr: found_sr, bit_depth: String::new(), bitrate: String::new() };
    }
    let mut bit_depth = String::new();
    let mut bitrate = String::new();
    match detail {
        CodecDetail::SampleFormat(f) => {
            bit_depth.append(f.as_str());
            proof {
                assert(bit_depth@ =~= f@);
            }
        },
        CodecDetail::BitsPerSample(b) => {
            push_decimal(&mut bit_depth, *b as usize);
            bit_depth.append(" bit");
        },
        CodecDetail::BitsPerCodedSample(b) => {
            let bits = *b as u128;
            let sr = found_sr as u128;
            proof {
                assert(bits * sr < 0x1_0000_0000_0000_0000) by (nonlinear_arith)
                    requires bits < 0x1_0000_0000, sr < 0x1_0000_0000;
            }
            let k = kbps(bits * sr, 1000);
            push_decimal(&mut bitrate, k);
            bitrate.append(" kbps");
        },
        CodecDetail::Unknown => {
            let bits = (total_packets_byte * 8) as u128;
            let sr = found_sr as u128;
            let den = (decoded_wav_len as u128) * 1000;
            proof {
                assert(bits * sr < 0x1_0000_0000_0000_0000_0000_0000) by (nonlinear_arith)
                    requires bits < 0x1_0000_0000_0000_0000, sr < 0x1_0000_0000;
            }
            let k = kbps(bits * sr, den);
            push_decimal(&mut bitrate, k);
            bitrate.append(" kbps");
        },
    }
    AudioFormatInfo { name, sr: found_sr, bit_depth, bitrate }
}

} // verus!
