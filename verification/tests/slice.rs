use thesia::pow2::{calc_proper_n_fft, next_power_of_two};
use thesia::slice::{calc_effective_slice, margin_slice};

#[test]
fn slices_are_clipped_to_the_array() {
    assert_eq!(calc_effective_slice(2, 3, 10), Some((2, 3)));
    assert_eq!(calc_effective_slice(8, 5, 10), Some((8, 2)));
    assert_eq!(calc_effective_slice(-2, 5, 10), Some((0, 3)));
    assert_eq!(calc_effective_slice(-2, 20, 10), Some((0, 10)));
    assert_eq!(calc_effective_slice(-5, 5, 10), None);
    assert_eq!(calc_effective_slice(10, 5, 10), None);
}

#[test]
fn margins_widen_and_clip() {
    assert_eq!(margin_slice(10, 20, 100, 2), (8, 14));
    assert_eq!(margin_slice(1, 5, 100, 3), (0, 10));
    assert_eq!(margin_slice(90, 99, 100, 5), (85, 15));
    assert_eq!(margin_slice(5, 3, 100, 0), (5, 0));
    // a start past the end gives a length that wraps around
    assert_eq!(margin_slice(120, 130, 100, 0), (120, usize::MAX - 19));
}

#[test]
fn next_power_of_two_matches_std() {
    for n in [0usize, 1, 2, 3, 5, 8, 1000, 1024, 1025, 1 << 40] {
        assert_eq!(next_power_of_two(n), n.next_power_of_two());
    }
}

#[test]
fn fft_length_is_the_power_of_two_that_holds_the_window() {
    assert_eq!(calc_proper_n_fft(0), 1);
    assert_eq!(calc_proper_n_fft(1), 1);
    assert_eq!(calc_proper_n_fft(1000), 1024);
    assert_eq!(calc_proper_n_fft(1024), 1024);
    assert_eq!(calc_proper_n_fft(1025), 2048);
    assert_eq!(calc_proper_n_fft(1920), 2048);
}

#[test]
fn slices_of_any_length_are_clipped() {
    assert_eq!(calc_effective_slice(-3, 5, 10), Some((0, 2)));
    assert_eq!(calc_effective_slice(2, 100, 10), Some((2, 8)));
    assert_eq!(calc_effective_slice(12, 1, 10), None);
    assert_eq!(calc_effective_slice(5, usize::MAX, 10), Some((5, 5)));
    assert_eq!(calc_effective_slice(isize::MIN, usize::MAX, 10), Some((0, 10)));
    assert_eq!(calc_effective_slice(isize::MIN, 1 << 63, 10), None);
    assert_eq!(calc_effective_slice(3, 4, usize::MAX), Some((3, 4)));
}
