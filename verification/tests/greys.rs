use thesia::greys::GreyUpdates;

#[test]
fn waiting_tracks_are_drawn_once() {
    let mut g = GreyUpdates::new();
    g.mark(&[0, 1, 2]);
    g.mark(&[1]);
    let (ids, all) = g.take_ids_to_update(false, false, 0, vec![0, 1, 2, 3]);
    assert!(!all);
    assert_eq!(ids, vec![0, 1, 2]);
    let (ids, all) = g.take_ids_to_update(false, false, 0, vec![0, 1, 2, 3]);
    assert!(!all);
    assert!(ids.is_empty());
}

#[test]
fn all_tracks_are_drawn_when_the_rate_or_range_changes() {
    let mut g = GreyUpdates::new();
    g.mark(&[5]);
    let (ids, all) = g.take_ids_to_update(false, false, 48000, vec![2, 5]);
    assert!(all);
    assert_eq!(ids, vec![2, 5]);
    assert_eq!(g.max_sr(), 48000);
    let (ids, all) = g.take_ids_to_update(false, true, 48000, vec![2, 5]);
    assert!(all);
    assert_eq!(ids, vec![2, 5]);
    let (ids, all) = g.take_ids_to_update(true, false, 48000, vec![2]);
    assert!(all);
    assert_eq!(ids, vec![2]);
}
