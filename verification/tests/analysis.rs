use thesia::analysis::{AnalyzerKeys, SrWinNfft};

fn p(sr: u32, win_length: usize, n_fft: usize) -> SrWinNfft {
    SrWinNfft { sr, win_length, n_fft }
}

fn sorted<T: Ord + Clone>(v: &[T]) -> Vec<T> {
    let mut v = v.to_vec();
    v.sort();
    v
}

#[test]
fn analyzer_prepares_what_is_missing_once() {
    let mut keys = AnalyzerKeys::new();
    let new = keys.prepare(&[p(48000, 1920, 2048), p(44100, 1764, 2048), p(48000, 1920, 2048)], true);
    assert_eq!(sorted(&new.windows), vec![(1764, 2048), (1920, 2048)]);
    assert_eq!(new.fft_sizes, vec![2048]);
    assert_eq!(sorted(&new.mel_fbs), vec![(44100, 2048), (48000, 2048)]);
    let new = keys.prepare(&[p(48000, 1920, 2048), p(22050, 882, 1024)], true);
    assert_eq!(new.windows, vec![(882, 1024)]);
    assert_eq!(new.fft_sizes, vec![1024]);
    assert_eq!(new.mel_fbs, vec![(22050, 1024)]);
}

#[test]
fn analyzer_drops_what_is_unused() {
    let mut keys = AnalyzerKeys::new();
    keys.prepare(&[p(48000, 1920, 2048), p(22050, 882, 1024)], true);
    let dropped = keys.retain(&[p(22050, 882, 1024)], true);
    assert_eq!(dropped.windows, vec![(1920, 2048)]);
    assert_eq!(dropped.fft_sizes, vec![2048]);
    assert_eq!(dropped.mel_fbs, vec![(48000, 2048)]);
    let dropped = keys.retain(&[p(22050, 882, 1024)], false);
    assert!(dropped.windows.is_empty());
    assert!(dropped.fft_sizes.is_empty());
    assert_eq!(dropped.mel_fbs, vec![(22050, 1024)]);
    let new = keys.prepare(&[p(22050, 882, 1024)], true);
    assert!(new.windows.is_empty());
    assert_eq!(new.mel_fbs, vec![(22050, 1024)]);
}

#[test]
fn analyzer_off_the_mel_scale_holds_no_filterbank() {
    let mut keys = AnalyzerKeys::new();
    keys.prepare(&[p(48000, 1920, 2048)], true);
    let new = keys.prepare(&[p(16000, 640, 1024)], false);
    assert_eq!(new.windows, vec![(640, 1024)]);
    assert!(new.mel_fbs.is_empty());
    let new = keys.prepare(&[p(48000, 1920, 2048)], true);
    assert!(new.windows.is_empty());
    assert_eq!(new.mel_fbs, vec![(48000, 2048)]);
}
