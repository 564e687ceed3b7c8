use thesia::img_mgr::{
    categories_agree, categorize_id_ch, crop_image, ids_for_blend, pair_images, parts_to_draw,
    select_latest, slightly_larger_than_or_equal_to, MAX_IMG_CACHE_WIDTH,
};

#[test]
fn request_ids_compare_with_wrap_around() {
    assert!(slightly_larger_than_or_equal_to(5, 5));
    assert!(slightly_larger_than_or_equal_to(6, 5));
    assert!(!slightly_larger_than_or_equal_to(5, 6));
    assert!(slightly_larger_than_or_equal_to(0, usize::MAX));
    assert!(slightly_larger_than_or_equal_to(3, usize::MAX - 2));
    assert!(!slightly_larger_than_or_equal_to(usize::MAX, 0));
    let half = usize::MAX / 2;
    assert!(slightly_larger_than_or_equal_to(half - 1, 0));
    assert!(!slightly_larger_than_or_equal_to(0, half));
    assert!(!slightly_larger_than_or_equal_to(usize::MAX - half + 1, 0));
}

#[test]
fn the_latest_reply_is_kept() {
    let replies = vec![(7usize, "a"), (8, "b"), (6, "c")];
    assert_eq!(select_latest(5, replies), (8, Some("b")));
    let replies = vec![(3usize, "old")];
    assert_eq!(select_latest(5, replies), (5, None));
    let none: Vec<(usize, &str)> = Vec::new();
    assert_eq!(select_latest(9, none), (9, None));
    let replies = vec![(usize::MAX, "x"), (0usize, "y"), (1usize, "z")];
    assert_eq!(select_latest(usize::MAX - 1, replies), (1, Some("z")));
    let replies = vec![(4usize, "p"), (4usize, "q")];
    assert_eq!(select_latest(4, replies), (4, Some("q")));
}

#[test]
fn channels_are_sorted_by_cache() {
    let tuples = vec![(0usize, 0usize), (0, 1), (1, 0), (2, 0)];
    let widths = vec![100u32, 100, MAX_IMG_CACHE_WIDTH + 1, 50];
    let spec_cached = vec![true, false, false, true];
    let wav_cached = vec![true, false, false, true];
    assert!(categories_agree(&tuples, &widths, &spec_cached, &wav_cached, true, true));
    let (by_spec, by_wav, wav_only) =
        categorize_id_ch(&tuples, &widths, &spec_cached, &wav_cached, true, true);
    assert_eq!(by_spec.use_caches, vec![(0, 0), (2, 0)]);
    assert_eq!(by_spec.need_parts, vec![(0, 1), (1, 0)]);
    assert_eq!(by_spec.need_new_caches, vec![(0, 1)]);
    assert_eq!(by_wav.use_caches, vec![(0, 0), (2, 0)]);
    assert_eq!(by_wav.need_parts, vec![(0, 1), (1, 0)]);
    assert_eq!(by_wav.need_new_caches, vec![(0, 1)]);
    assert!(wav_only.is_empty());
}

#[test]
fn spectrogram_only_caches_need_waveform_parts() {
    let tuples = vec![(0usize, 0usize), (1, 0)];
    let widths = vec![10u32, 10];
    let spec_cached = vec![true, true];
    let wav_cached = vec![false, true];
    let (by_spec, by_wav, wav_only) =
        categorize_id_ch(&tuples, &widths, &spec_cached, &wav_cached, true, true);
    assert_eq!(by_spec.use_caches, vec![(0, 0), (1, 0)]);
    assert!(by_spec.need_parts.is_empty());
    assert_eq!(by_wav.use_caches, vec![(1, 0)]);
    assert!(by_wav.need_parts.is_empty());
    assert_eq!(by_wav.need_new_caches, vec![(0, 0)]);
    assert_eq!(wav_only, vec![(0, 0)]);
}

#[test]
fn kinds_not_drawn_need_nothing() {
    let tuples = vec![(0usize, 0usize), (1, 0)];
    let widths = vec![10u32, 10];
    let cached = vec![false, true];
    let (by_spec, by_wav, wav_only) = categorize_id_ch(&tuples, &widths, &cached, &cached, false, true);
    assert!(by_spec.use_caches.is_empty() && by_spec.need_parts.is_empty() && by_spec.need_new_caches.is_empty());
    assert_eq!(by_wav.need_parts, vec![(0, 0)]);
    assert!(wav_only.is_empty());
}

#[test]
fn disagreeing_categories_are_detected() {
    let tuples = vec![(0usize, 0usize), (1, 0), (2, 0)];
    let widths = vec![10u32, 10, 10];
    let spec_cached = vec![true, false, false];
    let wav_cached = vec![false, false, true];
    assert!(!categories_agree(&tuples, &widths, &spec_cached, &wav_cached, true, true));
}

fn image(height: usize, width: usize) -> Vec<u8> {
    let mut v = Vec::new();
    for r in 0..height {
        for c in 0..width {
            v.extend_from_slice(&[r as u8, c as u8, 7, 255]);
        }
    }
    v
}

#[test]
fn crop_inside_copies_the_window() {
    let img = image(2, 5);
    let (out, lw) = crop_image(&img, 2, 1, 3);
    assert_eq!(lw, (0, 3));
    assert_eq!(out.len(), 2 * 3 * 4);
    assert_eq!(&out[0..4], &[0, 1, 7, 255]);
    assert_eq!(&out[8..12], &[0, 3, 7, 255]);
    assert_eq!(&out[12..16], &[1, 1, 7, 255]);
}

#[test]
fn crop_pads_outside_the_image() {
    let img = image(1, 3);
    let (out, lw) = crop_image(&img, 1, -2, 4);
    assert_eq!(lw, (2, 2));
    assert_eq!(out, vec![0, 0, 0, 0, 0, 0, 0, 0, 0, 0, 7, 255, 0, 1, 7, 255]);
    let (out, lw) = crop_image(&img, 1, 2, 3);
    assert_eq!(lw, (0, 1));
    assert_eq!(out, vec![0, 2, 7, 255, 0, 0, 0, 0, 0, 0, 0, 0]);
}

#[test]
fn crop_missing_the_image_is_transparent() {
    let img = image(2, 3);
    let (out, lw) = crop_image(&img, 2, 5, 2);
    assert_eq!(lw, (0, 0));
    assert_eq!(out, vec![0u8; 16]);
    let (out, lw) = crop_image(&img, 2, -4, 2);
    assert_eq!(lw, (0, 0));
    assert_eq!(out, vec![0u8; 16]);
}

#[test]
fn crop_of_the_whole_image_gives_it_back() {
    let img = image(3, 4);
    let (out, lw) = crop_image(&img, 3, 0, 4);
    assert_eq!(lw, (0, 4));
    assert_eq!(out, img);
}

#[test]
fn new_caches_are_blended_once_each() {
    let spec = vec![(0usize, 0usize), (1, 0)];
    let wav = [(1usize, 0usize), (2, 0), (2, 0), (0, 1)];
    assert_eq!(ids_for_blend(spec, &wav), vec![(0, 0), (1, 0), (2, 0), (0, 1)]);
    assert!(ids_for_blend(Vec::new(), &[]).is_empty());
}

#[test]
fn parts_come_from_the_spectrogram_list_first() {
    let spec = [(0usize, 0usize), (1, 0)];
    let wav = [(2usize, 0usize)];
    let (ids, fast) = parts_to_draw(&spec, &wav, &[10, MAX_IMG_CACHE_WIDTH + 1], &[5]);
    assert_eq!(ids, vec![(0, 0), (1, 0)]);
    assert_eq!(fast, vec![true, false]);
    let (ids, fast) = parts_to_draw(&[], &wav, &[], &[5]);
    assert_eq!(ids, vec![(2, 0)]);
    assert_eq!(fast, vec![true]);
}

#[test]
fn images_pair_by_channel() {
    let spec = [(0usize, 0usize), (1, 0), (2, 0)];
    let wav = [(0usize, 0usize), (2, 0)];
    assert_eq!(pair_images(&spec, &wav), vec![Some(0), None, Some(1)]);
}

#[test]
fn every_channel_is_served_or_drawn() {
    let tuples: Vec<(usize, usize)> = (0..12).map(|i| (i / 3, i % 3)).collect();
    let widths: Vec<u32> = (0..12).map(|i| if i % 4 == 0 { MAX_IMG_CACHE_WIDTH + 1 } else { 100 }).collect();
    let cached: Vec<bool> = (0..12).map(|i| i % 5 < 2).collect();
    let (by_spec, _, _) = categorize_id_ch(&tuples, &widths, &cached, &cached, true, false);
    let mut all = by_spec.use_caches.clone();
    all.extend(by_spec.need_parts.iter().copied());
    all.sort();
    assert_eq!(all, tuples);
    assert!(by_spec.need_new_caches.iter().all(|t| by_spec.need_parts.contains(t)));
}
