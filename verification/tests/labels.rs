use thesia::labels::{freq_label_parts, time_label_parts};

fn freq(label: &str) -> Option<(String, bool)> {
    freq_label_parts(label)
}

#[test]
fn frequency_labels_give_their_number_and_unit() {
    assert_eq!(freq("500"), Some(("500".to_string(), false)));
    assert_eq!(freq("1.5k"), Some(("1.5".to_string(), true)));
    assert_eq!(freq("2K"), Some(("2".to_string(), true)));
    assert_eq!(freq("2k5"), Some(("2.5".to_string(), true)));
    assert_eq!(freq("2.5k5"), Some(("2.5k5".to_string(), false)));
    assert_eq!(freq("-500"), Some(("-500".to_string(), false)));
    assert_eq!(freq(""), Some(("".to_string(), false)));
}

#[test]
fn frequency_labels_that_stand_for_nothing_are_refused() {
    for label in ["k", "k5", "-k", "K1", "-K", ".5", "1kK", "2K3k"] {
        assert_eq!(freq(label), None, "{}", label);
    }
}

#[test]
fn time_labels_split_at_their_colons() {
    assert_eq!(time_label_parts("12.5"), Some(("12.5".to_string(), 0, 0)));
    assert_eq!(time_label_parts("3:12.5"), Some(("12.5".to_string(), 3, 0)));
    assert_eq!(time_label_parts("1:02:03.250"), Some(("03.250".to_string(), 2, 1)));
    assert_eq!(time_label_parts("+1:+2:3"), Some(("3".to_string(), 2, 1)));
    assert_eq!(time_label_parts("1:2:3:4"), None);
    assert_eq!(time_label_parts("a:3"), None);
    assert_eq!(time_label_parts(":3"), None);
    assert_eq!(time_label_parts("4294967296:0"), None);
    assert_eq!(time_label_parts("4294967295:0"), Some(("0".to_string(), u32::MAX, 0)));
}
