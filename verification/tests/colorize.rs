use thesia::colorize::{
    get_colormap_rgb, map_grey_to_color, map_grey_to_color_iter, map_grey_to_color_iter_fallback, COLORMAP_B,
    COLORMAP_G, COLORMAP_LEN, COLORMAP_R,
};

fn entry(i: usize) -> [u8; 3] {
    [COLORMAP_R[i], COLORMAP_G[i], COLORMAP_B[i]]
}

/// The same mapping computed in single precision, as a reference.
fn map_in_f32(x: u16) -> [u8; 3] {
    if x == 0 {
        return entry(0);
    }
    if x == u16::MAX {
        return [255; 3];
    }
    let grey_to_pos = COLORMAP_LEN as f32 / (u16::MAX - 1) as f32;
    let position = (x as f32).mul_add(grey_to_pos, -grey_to_pos);
    let idx2 = position.floor() as usize;
    let ratio = position.fract();
    let c1 = if idx2 >= COLORMAP_LEN - 1 { [255u8; 3] } else { entry(idx2 + 1) };
    let c2 = entry(idx2);
    let mut out = [0u8; 3];
    for k in 0..3 {
        let (a, b) = (c1[k] as f32, c2[k] as f32);
        out[k] = ratio.mul_add(a, b.mul_add(-ratio, b)).round_ties_even() as u8;
    }
    out
}

#[test]
fn grey_ends_map_to_the_first_entry_and_white() {
    assert_eq!(map_grey_to_color(0), [0, 0, 4]);
    assert_eq!(map_grey_to_color(0), entry(0));
    assert_eq!(map_grey_to_color(u16::MAX), [255, 255, 255]);
    assert_eq!(map_grey_to_color(1), entry(0));
}

#[test]
fn grey_on_an_entry_maps_to_it() {
    // grey 1 + 32767 k lies exactly on entry 128 k
    assert_eq!(map_grey_to_color(1 + 32767), entry(128));
}

#[test]
fn grey_halfway_mixes_neighbours() {
    // grey 1 + 32767 * 3 / 128 rounds to position 3 minus a little
    let x: u16 = 1 + (32767 * 3 / 128) as u16;
    let got = map_grey_to_color(x);
    let (lo, hi) = (entry(2), entry(3));
    for k in 0..3 {
        let (a, b) = (lo[k].min(hi[k]), lo[k].max(hi[k]));
        assert!(a <= got[k] && got[k] <= b);
    }
}

#[test]
fn grey_mapping_agrees_with_single_precision_within_one() {
    let mut differ = 0;
    for x in 0..=u16::MAX {
        let exact = map_grey_to_color(x);
        let approx = map_in_f32(x);
        for k in 0..3 {
            let d = (exact[k] as i32 - approx[k] as i32).abs();
            assert!(d <= 1, "grey {} channel {}: {} vs {}", x, k, exact[k], approx[k]);
            if d == 1 {
                differ += 1;
            }
        }
    }
    assert!(differ < 65536 * 3 / 100);
}

#[test]
fn grey_images_become_rgba() {
    let grey = [0u16, 1, u16::MAX];
    let rgba = map_grey_to_color_iter_fallback(&grey);
    let mut want = entry(0).to_vec();
    want.push(255);
    want.extend_from_slice(&entry(0));
    want.push(255);
    want.extend_from_slice(&[255, 255, 255, 255]);
    assert_eq!(rgba, want);
    assert_eq!(map_grey_to_color_iter(&grey), want);
}

#[test]
fn colormap_bytes_end_in_white() {
    let rgb = get_colormap_rgb();
    assert_eq!(rgb.len(), 3 * COLORMAP_LEN + 3);
    assert_eq!(&rgb[0..3], &entry(0));
    assert_eq!(&rgb[3 * 255..3 * 256], &entry(255));
    assert_eq!(&rgb[3 * 256..], &[255, 255, 255]);
}
