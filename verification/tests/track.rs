use thesia::track::{ReloadOutcome, TrackList, TrackMeta};

fn meta(sr: u32, n_ch: usize, len: usize) -> TrackMeta {
    TrackMeta { sr, n_ch, len }
}

fn sample_list() -> TrackList {
    // tracks of 2 s at 8 k, 16 k, 22.05 k, 24 k, 44.1 k and 48 k, and a stereo one of 3 s
    let mut list = TrackList::new();
    let added = list.add_tracks(
        vec![0, 1, 2],
        vec![Some(meta(8000, 1, 16000)), Some(meta(16000, 1, 32000)), Some(meta(22050, 1, 44100))],
    );
    assert_eq!(added, vec![0, 1, 2]);
    let added = list.add_tracks(
        vec![3, 4, 5, 6],
        vec![
            Some(meta(24000, 1, 48000)),
            Some(meta(44100, 1, 88200)),
            Some(meta(48000, 1, 96000)),
            Some(meta(48000, 2, 144000)),
        ],
    );
    assert_eq!(added, vec![3, 4, 5, 6]);
    list
}

#[test]
fn track_list_takes_tracks_in() {
    let list = sample_list();
    assert_eq!(list.all_ids(), vec![0, 1, 2, 3, 4, 5, 6]);
    assert_eq!(list.max_sr(), 48000);
    assert_eq!(list.max_sec(), (144000, 48000));
    assert!(list.has(6));
    assert!(!list.has(7));
    assert_eq!(list.get(2), Some(meta(22050, 1, 44100)));
}

#[test]
fn track_list_skips_files_that_failed() {
    let mut list = TrackList::new();
    let added = list.add_tracks(vec![0, 3], vec![None, Some(meta(44100, 2, 441))]);
    assert_eq!(added, vec![3]);
    assert_eq!(list.all_ids(), vec![3]);
    assert!(!list.has(0));
    assert!(!list.has(1));
}

#[test]
fn removing_tracks_gives_their_channels_and_finds_the_new_longest() {
    let mut list = sample_list();
    let removed = list.remove_tracks(&[0]);
    assert_eq!(removed, vec![(0, 0)]);
    assert_eq!(list.all_ids(), vec![1, 2, 3, 4, 5, 6]);
    let removed = list.remove_tracks(&[6, 6]);
    assert_eq!(removed, vec![(6, 0), (6, 1)]);
    assert_eq!(list.all_ids(), vec![1, 2, 3, 4, 5]);
    // all left last 2 s; the first of them counts as the longest
    assert_eq!(list.max_sec(), (32000, 16000));
    assert_eq!(list.max_sr(), 48000);
}

#[test]
fn reloading_reports_changed_and_readable_tracks() {
    let mut list = sample_list();
    let (changed, no_err) = list.reload_tracks(
        &[1, 2, 3],
        &[ReloadOutcome::Changed(meta(16000, 1, 160000)), ReloadOutcome::Unchanged, ReloadOutcome::Failed],
    );
    assert_eq!(changed, vec![1]);
    assert_eq!(no_err, vec![1, 2]);
    assert_eq!(list.get(1), Some(meta(16000, 1, 160000)));
    assert_eq!(list.max_sec(), (160000, 16000));
}

#[test]
fn channel_pairs_come_track_by_track() {
    let list = sample_list();
    assert_eq!(list.id_ch_tuples_from(&[6, 1]), vec![(6, 0), (6, 1), (1, 0)]);
    let all = list.id_ch_tuples();
    assert_eq!(all.len(), 8);
    assert_eq!(&all[5..], &[(5, 0), (6, 0), (6, 1)]);
}

#[test]
fn the_id_set_holds_the_ids_with_a_track() {
    let mut list = sample_list();
    list.remove_tracks(&[2, 5]);
    let ids = list.all_id_set();
    let mut sorted: Vec<usize> = ids.into_iter().collect();
    sorted.sort();
    assert_eq!(sorted, vec![0, 1, 3, 4, 6]);
    assert!(TrackList::new().all_id_set().is_empty());
}
