use thesia::id_ch::{format_id_ch, parse_id_ch_str};

#[test]
fn id_ch_keys_parse() {
    assert_eq!(parse_id_ch_str("1_2"), Ok((1, 2)));
    assert_eq!(parse_id_ch_str("10_0"), Ok((10, 0)));
    assert_eq!(parse_id_ch_str("1_2_3"), Ok((1, 2)));
    assert_eq!(parse_id_ch_str("+1_2"), Ok((1, 2)));
}

#[test]
fn malformed_id_ch_keys_are_refused() {
    for s in ["1", "a_1", "", "_1", "1_", "1_b", "-1_2", "99999999999999999999999_1"] {
        let r = parse_id_ch_str(s);
        assert!(r.is_err(), "{}", s);
        assert_eq!(r.unwrap_err().message(), "The array element should be \"{unsigned_int}_{unsigned_int}\".");
    }
}

#[test]
fn id_ch_keys_round_trip() {
    for (id, ch) in [(0usize, 0usize), (3, 1), (123456, 7), (usize::MAX, usize::MAX)] {
        let s = format_id_ch(id, ch);
        assert_eq!(s, format!("{}_{}", id, ch));
        assert_eq!(parse_id_ch_str(&s), Ok((id, ch)));
    }
}
