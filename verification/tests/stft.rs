use thesia::stft::{calc_framing_params, stft_frame_plan, StftFramePlan};

#[test]
fn stft_frame_plan_of_an_impulse() {
    // four samples, windows of four, two apart: one frame in each run
    let plan = stft_frame_plan(4, 4, 2, 4).unwrap();
    assert_eq!(
        plan,
        StftFramePlan {
            n_pad_left: 0,
            n_pad_right: 0,
            short: false,
            front_frames: 1,
            mid_start: 0,
            mid_frames: 1,
            back_start: 1,
            back_skip: 1,
            back_frames: 1,
            n_frames: 3,
        }
    );
}

#[test]
fn stft_frame_plan_of_a_short_signal() {
    let plan = stft_frame_plan(2, 8, 6, 8).unwrap();
    assert!(plan.short);
    assert_eq!(plan.n_frames, 1);
}

#[test]
fn stft_frame_plan_pads_windows_to_the_fft() {
    let plan = stft_frame_plan(1000, 100, 25, 128).unwrap();
    assert_eq!((plan.n_pad_left, plan.n_pad_right), (14, 14));
    assert_eq!(plan.n_frames, plan.front_frames + plan.mid_frames + plan.back_frames);
    assert_eq!(plan.n_frames, 1000 / 25 + 1);
    let plan = stft_frame_plan(1000, 99, 25, 128).unwrap();
    assert_eq!((plan.n_pad_left, plan.n_pad_right), (14, 15));
}

#[test]
fn stft_frame_plan_refuses_hops_past_the_signal() {
    assert_eq!(stft_frame_plan(4, 4, 10, 4), None);
}

#[test]
fn framing_params_follow_the_overlaps() {
    assert_eq!(calc_framing_params(480, 4, 1), (480, 1920, 2048));
    assert_eq!(calc_framing_params(256, 4, 2), (256, 1024, 2048));
    assert_eq!(calc_framing_params(0, 4, 1), (0, 0, 1));
}

#[test]
fn frames_are_the_windows_over_the_mirrored_signal() {
    for &(len, win, hop, n_fft) in &[(1000usize, 100usize, 25usize, 128usize), (997, 64, 30, 64), (50, 7, 3, 8), (5, 8, 2, 8)] {
        let plan = stft_frame_plan(len, win, hop, n_fft).unwrap();
        let padded = len + 2 * (win / 2);
        let want = if padded >= win { (padded - win) / hop + 1 } else { 0 };
        assert_eq!(plan.n_frames, want);
    }
}
