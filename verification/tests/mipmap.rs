use thesia::mipmap::{choose_mipmap, mipmaps_to_prune, FileStatus, MipmapChoice, MipmapFit};

fn fit(width: usize, height: usize, status: FileStatus) -> MipmapFit {
    MipmapFit { width, height, status }
}

#[test]
fn the_original_is_read_when_it_fits() {
    let grid = vec![vec![fit(100, 50, FileStatus::NoFile), fit(50, 50, FileStatus::Exists)]];
    assert_eq!(
        choose_mipmap(&grid, 128),
        Some(MipmapChoice { i_h: 0, i_w: 0, to_create: None })
    );
}

#[test]
fn a_stored_mipmap_is_read_and_a_missing_one_is_asked_for() {
    let grid = vec![
        vec![fit(400, 100, FileStatus::NoFile), fit(200, 100, FileStatus::NoFile), fit(100, 100, FileStatus::Exists)],
        vec![fit(400, 50, FileStatus::NoFile), fit(100, 50, FileStatus::Exists)],
    ];
    assert_eq!(
        choose_mipmap(&grid, 256),
        Some(MipmapChoice { i_h: 0, i_w: 2, to_create: Some((0, 1)) })
    );
}

#[test]
fn rows_stop_at_cuts_too_high() {
    let grid = vec![
        vec![fit(400, 300, FileStatus::NoFile), fit(100, 100, FileStatus::Exists)],
        vec![fit(100, 100, FileStatus::Creating), fit(50, 100, FileStatus::Exists)],
    ];
    assert_eq!(
        choose_mipmap(&grid, 256),
        Some(MipmapChoice { i_h: 1, i_w: 1, to_create: Some((1, 0)) })
    );
}

#[test]
fn nothing_fits() {
    let grid = vec![vec![fit(400, 100, FileStatus::NoFile)], vec![fit(300, 50, FileStatus::NoFile)]];
    assert_eq!(choose_mipmap(&grid, 256), None);
}

#[test]
fn stored_mipmaps_but_the_read_and_the_last_are_pruned() {
    let (e, n, c) = (FileStatus::Exists, FileStatus::NoFile, FileStatus::Creating);
    let statuses = vec![vec![e, e, n], vec![e, c, e]];
    assert_eq!(mipmaps_to_prune(&statuses, 0, 1), vec![(0, 0), (1, 0)]);
    assert_eq!(mipmaps_to_prune(&statuses, 1, 2), vec![(0, 0), (0, 1), (1, 0)]);
}
