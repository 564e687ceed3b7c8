use thesia::envelope::{PeakHold, NEG_INFINITY};

/// An `i64` that orders as the `f32` it stands for.
fn key_of(x: f32) -> i64 {
    let bits = x.to_bits() as i32;
    let k = if bits >= 0 { bits } else { bits ^ 0x7fff_ffff };
    k as i64
}

fn value_of(k: i64) -> f32 {
    let k = k as i32;
    let bits = if k >= 0 { k } else { k ^ 0x7fff_ffff };
    f32::from_bits(bits as u32)
}

#[test]
fn peak_hold_works() {
    let audio = [
        0., 0.1, 0.2, 1., 0.9, 0.4, 0., -0.5, -0.9, -1., -0.4, 1., 0.7,
    ];
    let target = [0., 0.1, 0.2, 1., 1., 1., 0.9, 0.4, 0., -0.5, -0.4, 1., 1.];
    let sr = 24000;
    let hold_ms = 3. / (sr as f64) * 1000.;
    let hold_length = (sr as f64 * hold_ms / 1000.).round() as usize;
    let mut peakhold = PeakHold::new(hold_length);
    let peakhold_envlop: Vec<f32> = audio
        .into_iter()
        .map(|x: f32| value_of(peakhold.step(key_of(x))))
        .collect();
    assert_eq!(peakhold_envlop, target);
}

#[test]
fn key_of_keeps_the_order_of_floats() {
    let xs = [-1.0f32, -0.5, -0.0, 0.0, 0.1, 0.9, 1.0];
    for w in xs.windows(2) {
        assert!(key_of(w[0]) <= key_of(w[1]));
        assert_eq!(value_of(key_of(w[0])), w[0]);
    }
}

#[test]
fn peak_hold_gives_the_maximum_of_the_latest_values() {
    let xs: Vec<i64> = vec![5, -3, 8, 2, 2, 7, -10, -20, -30, 4, 1, 0];
    let hold = 5;
    let mut p = PeakHold::new(hold);
    for (i, &x) in xs.iter().enumerate() {
        let got = p.step(x);
        let lo = if i + 1 >= hold { i + 1 - hold } else { 0 };
        let want = *xs[lo..=i].iter().max().unwrap();
        assert_eq!(got, want, "step {}", i);
    }
    assert_eq!(p.hold_length(), hold);
    assert_eq!(p.read(), 4);
}

#[test]
fn peak_hold_starts_at_minus_infinity_and_resets() {
    let mut p = PeakHold::new(3);
    assert_eq!(p.read(), NEG_INFINITY);
    assert_eq!(p.step(-7), -7);
    assert_eq!(p.step(-9), -7);
    p.reset(2);
    assert_eq!(p.read(), 2);
    assert_eq!(p.step(1), 2);
    assert_eq!(p.step(0), 2);
    assert_eq!(p.step(-1), 1);
    p.reset_default();
    assert_eq!(p.read(), NEG_INFINITY);
    p.resize(6);
    assert_eq!(p.hold_length(), 6);
    assert_eq!(p.step(3), 3);
}

#[test]
fn peak_hold_of_no_samples_holds_nothing() {
    let mut p = PeakHold::new(0);
    assert_eq!(p.hold_length(), 0);
    assert_eq!(p.step(5), NEG_INFINITY);
}

#[test]
fn push_then_pop_is_a_step() {
    let mut a = PeakHold::new(3);
    let mut b = PeakHold::new(3);
    for &x in &[4i64, -2, 9, 1, 0, -5] {
        let want = a.step(x);
        b.push(x);
        b.pop();
        assert_eq!(b.read(), want);
    }
}

#[test]
fn peak_hold_of_one_sample_follows_the_input() {
    let mut p = PeakHold::new(1);
    assert_eq!(p.hold_length(), 1);
    assert_eq!(p.read(), NEG_INFINITY);
    for &x in &[3i64, -4, 10, 10, -1, 7] {
        assert_eq!(p.step(x), x);
        assert_eq!(p.read(), x);
    }
    p.reset(5);
    assert_eq!(p.read(), 5);
    assert_eq!(p.step(-2), -2);
    p.push(8);
    p.pop();
    assert_eq!(p.read(), 8);
}

#[test]
fn peak_hold_of_a_power_of_two_length_gives_the_window_maximum() {
    for hold in [2usize, 4, 8] {
        let xs: Vec<i64> = vec![9, -3, 8, 2, 2, 7, -10, -20, -30, 4, 1, 0, 5, -1, -2, -3, -4];
        let mut p = PeakHold::new(hold);
        for (i, &x) in xs.iter().enumerate() {
            let lo = if i + 1 >= hold { i + 1 - hold } else { 0 };
            let want = *xs[lo..=i].iter().max().unwrap();
            assert_eq!(p.step(x), want, "hold {} step {}", hold, i);
        }
    }
}

#[test]
fn each_step_uses_one_of_the_remaining_positions() {
    let mut p = PeakHold::new(3);
    let left = p.steps_remaining();
    assert_eq!(left, isize::MAX as usize - 3);
    p.step(1);
    p.step(2);
    assert_eq!(p.steps_remaining(), left - 2);
    p.reset(0);
    assert_eq!(p.steps_remaining(), left);
}
