//! The colormap of spectrograms: grey levels to RGB colors.

use vstd::prelude::*;

verus! {

pub const COLORMAP_R: [u8; 256] = [
    0, 1, 1, 1, 2, 2, 2, 3, 4, 4, 5, 6, 7, 8, 9, 10,
    11, 12, 13, 14, 16, 17, 18, 20, 21, 22, 24, 25, 27, 28, 30, 31,
    33, 35, 36, 38, 40, 42, 43, 45, 47, 49, 51, 52, 54, 56, 58, 59,
    61, 63, 64, 66, 68, 69, 71, 73, 74, 76, 78, 79, 81, 83, 84, 86,
    87, 89, 91, 92, 94, 95, 97, 99, 100, 102, 103, 105, 107, 108, 110, 111,
    113, 115, 116, 118, 119, 121, 123, 124, 126, 127, 129, 130, 132, 134, 135, 137,
    138, 140, 142, 143, 145, 146, 148, 150, 151, 153, 154, 156, 158, 159, 161, 162,
    164, 165, 167, 169, 170, 172, 173, 175, 176, 178, 179, 181, 182, 184, 185, 187,
    188, 190, 191, 193, 194, 196, 197, 198, 200, 201, 203, 204, 205, 207, 208, 209,
    211, 212, 213, 214, 216, 217, 218, 219, 220, 221, 223, 224, 225, 226, 227, 228,
    229, 230, 231, 232, 233, 234, 235, 235, 236, 237, 238, 239, 240, 240, 241, 242,
    242, 243, 244, 244, 245, 246, 246, 247, 247, 248, 248, 249, 249, 249, 250, 250,
    250, 251, 251, 251, 252, 252, 252, 252, 252, 253, 253, 253, 253, 253, 253, 253,
    253, 253, 253, 253, 253, 252, 252, 252, 252, 252, 251, 251, 251, 251, 250, 250,
    250, 249, 249, 248, 248, 247, 247, 246, 246, 245, 245, 244, 244, 244, 243, 243,
    243, 242, 242, 242, 242, 243, 243, 244, 244, 245, 246, 247, 249, 250, 251, 253,
];

pub const COLORMAP_G: [u8; 256] = [
    0, 0, 1, 1, 1, 2, 2, 2, 3, 3, 4, 4, 5, 6, 6, 7,
    7, 8, 8, 9, 9, 10, 10, 11, 11, 11, 12, 12, 12, 12, 12, 12,
    12, 12, 12, 12, 11, 11, 11, 11, 10, 10, 10, 10, 9, 9, 9, 9,
    9, 9, 10, 10, 10, 10, 11, 11, 12, 12, 13, 13, 14, 14, 15, 15,
    16, 17, 17, 18, 18, 19, 20, 20, 21, 21, 22, 23, 23, 24, 24, 25,
    25, 26, 27, 27, 28, 28, 29, 29, 30, 31, 31, 32, 32, 33, 33, 34,
    34, 35, 36, 36, 37, 37, 38, 38, 39, 40, 40, 41, 41, 42, 43, 43,
    44, 45, 45, 46, 46, 47, 48, 49, 49, 50, 51, 51, 52, 53, 54, 54,
    55, 56, 57, 58, 59, 60, 60, 61, 62, 63, 64, 65, 66, 67, 68, 69,
    70, 72, 73, 74, 75, 76, 77, 79, 80, 81, 82, 84, 85, 86, 88, 89,
    90, 92, 93, 95, 96, 98, 99, 101, 102, 104, 105, 107, 109, 110, 112, 113,
    115, 117, 118, 120, 122, 123, 125, 127, 129, 130, 132, 134, 136, 137, 139, 141,
    143, 145, 146, 148, 150, 152, 154, 156, 158, 160, 161, 163, 165, 167, 169, 171,
    173, 175, 177, 179, 181, 183, 185, 186, 188, 190, 192, 194, 196, 198, 200, 202,
    204, 206, 208, 210, 212, 214, 216, 218, 220, 222, 224, 226, 228, 229, 231, 233,
    235, 237, 238, 240, 241, 243, 244, 246, 247, 249, 250, 251, 252, 253, 254, 255,
];

pub const COLORMAP_B: [u8; 256] = [
    4, 5, 6, 8, 10, 12, 14, 16, 18, 21, 23, 25, 27, 29, 32, 34,
    36, 38, 41, 43, 45, 48, 50, 53, 55, 58, 60, 62, 65, 67, 70, 72,
    74, 77, 79, 81, 83, 85, 87, 89, 91, 93, 94, 96, 97, 98, 99, 100,
    101, 102, 103, 104, 105, 105, 106, 107, 107, 108, 108, 108, 109, 109, 109, 110,
    110, 110, 110, 110, 111, 111, 111, 111, 111, 111, 111, 111, 111, 111, 111, 111,
    110, 110, 110, 110, 110, 110, 109, 109, 109, 109, 108, 108, 108, 107, 107, 107,
    106, 106, 105, 105, 105, 104, 104, 103, 102, 102, 101, 101, 100, 100, 99, 98,
    98, 97, 96, 95, 95, 94, 93, 92, 92, 91, 90, 89, 88, 87, 86, 85,
    85, 84, 83, 82, 81, 80, 79, 78, 77, 76, 75, 74, 72, 71, 70, 69,
    68, 67, 66, 65, 64, 62, 61, 60, 59, 58, 57, 56, 54, 53, 52, 51,
    50, 48, 47, 46, 45, 43, 42, 41, 40, 38, 37, 36, 35, 33, 32, 31,
    30, 28, 27, 26, 24, 23, 22, 20, 19, 18, 16, 15, 14, 12, 11, 10,
    9, 8, 7, 7, 6, 6, 6, 6, 7, 7, 8, 9, 10, 12, 13, 15,
    17, 19, 20, 22, 24, 27, 29, 31, 33, 35, 38, 40, 43, 45, 48, 50,
    53, 56, 58, 61, 64, 67, 70, 73, 76, 80, 83, 86, 90, 94, 97, 101,
    105, 109, 113, 117, 122, 126, 130, 134, 138, 142, 146, 150, 154, 158, 162, 165,
];


/// The number of colormap entries.
pub const COLORMAP_LEN: usize = 256;

/// The denominator of the interpolation ratio: grey `x` lies at position
/// `(x - 1) * 256 / 65534 = (x - 1) * 128 / 32767` on the colormap.
pub const POSITION_DENOM: u32 = 32767;

/// Channel `c` (0: red, 1: green, 2: blue) of colormap entry `i`.
pub open spec fn colormap(c: int, i: int) -> u8 {
    if c == 0 {
        COLORMAP_R@[i]
    } else if c == 1 {
        COLORMAP_G@[i]
    } else {
        COLORMAP_B@[i]
    }
}

/// The mix of `a` (weight `r`) and `b` (weight `32767 - r`), rounded to the nearest integer
/// (there is no tie: the denominator is odd).
pub open spec fn interpolate_spec(a: int, b: int, r: int) -> int {
    (2 * (r * a + (POSITION_DENOM - r) * b) + POSITION_DENOM) / (2 * POSITION_DENOM)
}

/// Channel `c` of the color of grey level `x`: the first colormap entry for 0, white for
/// `u16::MAX`, else the colormap interpolated at position `(x - 1) * 256 / 65534`, where
/// positions past the last entry fade to white.
pub open spec fn grey_color(x: u16, c: int) -> int {
    if x == 0 {
        colormap(c, 0) as int
    } else if x == u16::MAX {
        255
    } else {
        let scaled = (x - 1) * 128;
        let idx2 = scaled / POSITION_DENOM as int;
        let r = scaled % POSITION_DENOM as int;
        let c1 = if idx2 >= COLORMAP_LEN - 1 { 255 } else { colormap(c, idx2 + 1) as int };
        interpolate_spec(c1, colormap(c, idx2) as int, r)
    }
}

fn interpolate(color1: &[u8; 3], color2: &[u8; 3], ratio: u32) -> (out: [u8; 3])
    requires
        ratio < POSITION_DENOM,
    ensures
        forall|c: int| 0 <= c < 3 ==> out@[c] as int == #[trigger] interpolate_spec(color1@[c] as int, color2@[c] as int, ratio as int),
{
    let mut out: [u8; 3] = [0; 3];
    let mut c: usize = 0;
    while c < 3
        invariant
            c <= 3,
            ratio < POSITION_DENOM,
            forall|k: int| 0 <= k < c ==> out@[k] as int == #[trigger] interpolate_spec(color1@[k] as int, color2@[k] as int, ratio as int),
        decreases 3 - c,
    {
        let a = color1[c] as u32;
        let b = color2[c] as u32;
        proof {
            assert(ratio * a <= 32766 * 255) by (nonlinear_arith) requires ratio < 32767, a <= 255;
            assert((32767 - ratio) * b <= 32767 * 255) by (nonlinear_arith) requires ratio < 32767, b <= 255;
            assert(ratio * a + (32767 - ratio) * b <= 32767 * 255) by (nonlinear_arith)
                requires ratio < 32767, a <= 255, b <= 255;
        }
        let mixed = ratio * a + (POSITION_DENOM - ratio) * b;
        let v = (2 * mixed + POSITION_DENOM) / (2 * POSITION_DENOM);
        proof {
            assert(POSITION_DENOM == 32767);
            assert(v <= 255) by (nonlinear_arith)
                requires v as int == (2 * mixed as int + 32767) / 65534int, mixed <= 32767 * 255;
        }
        out[c] = v as u8;
        c = c + 1;
    }
    out
}

/// Maps a `u16` grey level to an RGB color.
/// 0 -> COLORMAP[0], u16::MAX -> WHITE
pub fn map_grey_to_color(x: u16) -> (rgb: [u8; 3])
    ensures
        forall|c: int| 0 <= c < 3 ==> rgb@[c] as int == #[trigger] grey_color(x, c),
{
    if x == 0 {
        return [COLORMAP_R[0], COLORMAP_G[0], COLORMAP_B[0]];
    }
    if x == u16::MAX {
        return [255; 3];
    }
    let scaled = (x as u32 - 1) * 128;
    let idx2 = (scaled / POSITION_DENOM) as usize;
    let ratio = scaled % POSITION_DENOM;
    let rgb1 = if idx2 >= COLORMAP_LEN - 1 {
        [255u8; 3]
    } else {
        [COLORMAP_R[idx2 + 1], COLORMAP_G[idx2 + 1], COLORMAP_B[idx2 + 1]]
    };
    let rgb2 = [COLORMAP_R[idx2], COLORMAP_G[idx2], COLORMAP_B[idx2]];
    let out = interpolate(&rgb1, &rgb2, ratio);
    proof {
        assert forall|c: int| 0 <= c < 3 implies out@[c] as int == #[trigger] grey_color(x, c) by {
            assert(idx2 as int == ((x - 1) * 128) / POSITION_DENOM as int);
            assert(ratio as int == ((x - 1) * 128) % POSITION_DENOM as int);
            assert(rgb2@[c] == colormap(c, idx2 as int));
            if idx2 < COLORMAP_LEN - 1 {
                assert(rgb1@[c] == colormap(c, idx2 + 1));
            } else {
                assert(rgb1@[c] == 255);
            }
            assert(out@[c] as int == interpolate_spec(rgb1@[c] as int, rgb2@[c] as int, ratio as int));
        }
    }
    out
}


/// RGBA bytes of each grey level in turn: the color, then an opaque alpha.
pub fn map_grey_to_color_iter_fallback(grey: &[u16]) -> (rgba: Vec<u8>)
    requires
        grey@.len() * 4 <= usize::MAX,
    ensures
        rgba@.len() == grey@.len() * 4,
        forall|i: int, c: int| 0 <= i < grey@.len() && 0 <= c < 3 ==> rgba@[4 * i + c] as int
            == #[trigger] grey_color(grey@[i], c),
        forall|i: int| 0 <= i < grey@.len() ==> #[trigger] rgba@[4 * i + 3] == u8::MAX,
{
    let mut rgba: Vec<u8> = Vec::new();
    let n = grey.len();
    let mut i: usize = 0;
    while i < n
        invariant
            n == grey@.len(),
            i <= n,
            rgba@.len() == 4 * i,
            forall|j: int, c: int| 0 <= j < i && 0 <= c < 3 ==> rgba@[4 * j + c] as int
                == #[trigger] grey_color(grey@[j], c),
            forall|j: int| 0 <= j < i ==> #[trigger] rgba@[4 * j + 3] == u8::MAX,
        decreases n - i,
    {
        let rgb = map_grey_to_color(grey[i]);
        let ghost before = rgba@;
        rgba.push(rgb[0]);
        rgba.push(rgb[1]);
        rgba.push(rgb[2]);
        rgba.push(u8::MAX);
        proof {
            assert forall|j: int, c: int| 0 <= j < i + 1 && 0 <= c < 3 implies rgba@[4 * j + c] as int
                == #[trigger] grey_color(grey@[j], c) by {
                if j < i {
                    assert(rgba@[4 * j + c] == before[4 * j + c]);
                } else {
                    assert(rgba@[4 * j + c] == rgb@[c]);
                }
            }
            assert forall|j: int| 0 <= j < i + 1 implies #[trigger] rgba@[4 * j + 3] == u8::MAX by {
                if j < i {
                    assert(rgba@[4 * j + 3] == before[4 * j + 3]);
                }
            }
        }
        i = i + 1;
    }
    rgba
}

/// RGBA bytes of each grey level in turn (see `map_grey_to_color_iter_fallback`).
pub fn map_grey_to_color_iter(grey: &[u16]) -> (rgba: Vec<u8>)
    requires
        grey@.len() * 4 <= usize::MAX,
    ensures
        rgba@.len() == grey@.len() * 4,
        forall|i: int, c: int| 0 <= i < grey@.len() && 0 <= c < 3 ==> rgba@[4 * i + c] as int
            == #[trigger] grey_color(grey@[i], c),
        forall|i: int| 0 <= i < grey@.len() ==> #[trigger] rgba@[4 * i + 3] == u8::MAX,
{
    map_grey_to_color_iter_fallback(grey)
}

/// The least of three lengths.
pub open spec fn shortest(a: nat, b: nat, c: nat) -> nat {
    if a <= b && a <= c {
        a
    } else if b <= c {
        b
    } else {
        c
    }
}

/// `itertools::multizip` over three byte tables: it yields their entries side by side, in
/// lockstep, until the shortest table runs out. The contract states that of the result; the
/// tuples are copied out of the references it yields.
#[verifier::external_body]
fn zip_channels(r: &[u8], g: &[u8], b: &[u8]) -> (res: Vec<(u8, u8, u8)>)
    ensures
        res@.len() == shortest(r@.len(), g@.len(), b@.len()),
        forall|i: int| 0 <= i < res@.len() ==> #[trigger] res@[i] == (r@[i], g@[i], b@[i]),
{
    itertools::multizip((r.iter(), g.iter(), b.iter())).map(|(&r, &g, &b)| (r, g, b)).collect()
}

/// The colormap as RGB bytes, entry by entry, followed by white.
pub fn get_colormap_rgb() -> (rgb: Vec<u8>)
    ensures
        rgb@.len() == 3 * COLORMAP_LEN + 3,
        forall|i: int, c: int| 0 <= i < COLORMAP_LEN && 0 <= c < 3 ==> rgb@[3 * i + c] == #[trigger] colormap(c, i),
        rgb@[3 * COLORMAP_LEN] == 255 && rgb@[3 * COLORMAP_LEN + 1] == 255 && rgb@[3 * COLORMAP_LEN + 2] == 255,
{
    let entries = zip_channels(&COLORMAP_R, &COLORMAP_G, &COLORMAP_B);
    let mut rgb: Vec<u8> = Vec::new();
    let n = entries.len();
    let mut i: usize = 0;
    while i < n
        invariant
            n == entries@.len(),
            n == COLORMAP_LEN,
            forall|j: int| 0 <= j < n ==> #[trigger] entries@[j] == (COLORMAP_R@[j], COLORMAP_G@[j], COLORMAP_B@[j]),
            i <= n,
            rgb@.len() == 3 * i,
            forall|j: int, c: int| 0 <= j < i && 0 <= c < 3 ==> rgb@[3 * j + c] == #[trigger] colormap(c, j),
        decreases n - i,
    {
        let ghost before = rgb@;
        let (r, g, b) = entries[i];
        assert(entries@[i as int] == (COLORMAP_R@[i as int], COLORMAP_G@[i as int], COLORMAP_B@[i as int]));
        rgb.push(r);
        rgb.push(g);
        rgb.push(b);
        proof {
            assert forall|j: int, c: int| 0 <= j < i + 1 && 0 <= c < 3 implies rgb@[3 * j + c]
                == #[trigger] colormap(c, j) by {
                if j < i {
                    assert(rgb@[3 * j + c] == before[3 * j + c]);
                }
            }
        }
        i = i + 1;
    }
    rgb.push(255);
    rgb.push(255);
    rgb.push(255);
    proof {
        assert forall|j: int, c: int| 0 <= j < COLORMAP_LEN && 0 <= c < 3 implies rgb@[3 * j + c]
            == #[trigger] colormap(c, j) by {
            assert(rgb@[3 * j + c] == rgb@.subrange(0, 3 * COLORMAP_LEN as int)[3 * j + c]);
        }
    }
    rgb
}

} // verus!
