use thesia::axis::{convert_hz_to_label, omit_labels_from_linear_axis};

#[test]
fn hz_labels_read_in_khz_above_one_thousand() {
    assert_eq!(convert_hz_to_label(0), "0");
    assert_eq!(convert_hz_to_label(500), "500");
    assert_eq!(convert_hz_to_label(999), "999");
    assert_eq!(convert_hz_to_label(1000), "1k");
    assert_eq!(convert_hz_to_label(1500), "1.5k");
    assert_eq!(convert_hz_to_label(12000), "12k");
    assert_eq!(convert_hz_to_label(10500), "10.5k");
    assert_eq!(convert_hz_to_label(11025), "11.025k");
    assert_eq!(convert_hz_to_label(1050), "1.05k");
    assert_eq!(convert_hz_to_label(16000), "16k");
    assert_eq!(convert_hz_to_label(48000), "48k");
}

#[test]
fn every_few_labels_are_kept() {
    let axis: Vec<(f32, String)> = (0..7).map(|i| (i as f32, format!("{}", i))).collect();
    let out = omit_labels_from_linear_axis(axis, 7, 3);
    let labels: Vec<&str> = out.iter().map(|(_, s)| s.as_str()).collect();
    assert_eq!(labels, vec!["0", "", "", "3", "", "", "6"]);
    let ys: Vec<f32> = out.iter().map(|(y, _)| *y).collect();
    assert_eq!(ys, vec![0., 1., 2., 3., 4., 5., 6.]);
}

#[test]
fn labels_close_to_the_last_are_dropped() {
    let axis: Vec<(u32, String)> = (0..5).map(|i| (i, format!("{}", i))).collect();
    let out = omit_labels_from_linear_axis(axis, 5, 2);
    let labels: Vec<&str> = out.iter().map(|(_, s)| s.as_str()).collect();
    assert_eq!(labels, vec!["0", "", "", "", "4"]);
    let axis: Vec<(u32, String)> = (0..3).map(|i| (i, format!("{}", i))).collect();
    let out = omit_labels_from_linear_axis(axis, 3, 5);
    let labels: Vec<&str> = out.iter().map(|(_, s)| s.as_str()).collect();
    assert_eq!(labels, vec!["0", "1", "2"]);
}
