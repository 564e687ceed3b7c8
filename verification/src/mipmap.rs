//! Choosing, among the downscaled copies (mipmaps) of a spectrogram, the one to cut the visible
//! part from, and which stored copies to let go.
//!
//! The copies form a grid: row `i_h` holds the copies of one height, from the widest to the
//! narrowest, and cell `(0, 0)` is the original image, always at hand.

use vstd::prelude::*;

verus! {

/// Where the file of a mipmap stands.
#[derive(Clone, Copy, PartialEq, Eq, Structural, Debug)]
pub enum FileStatus {
    NoFile,
    Creating,
    Exists,
}

/// What the choice reads of one mipmap: the size of the part of it that the request would cut
/// out, and whether its file exists.
#[derive(Clone, Copy, PartialEq, Eq, Debug)]
pub struct MipmapFit {
    /// width of the cut, in pixels
    pub width: usize,
    /// height of the cut, in pixels
    pub height: usize,
    pub status: FileStatus,
}

/// The mipmap to read, and the first one that would have fitted but has no file yet.
#[derive(Clone, Copy, PartialEq, Eq, Debug)]
pub struct MipmapChoice {
    pub i_h: usize,
    pub i_w: usize,
    pub to_create: Option<(usize, usize)>,
}

/// A grid of vectors as a grid of sequences.
pub open spec fn grid_view<T>(grid: Seq<Vec<T>>) -> Seq<Seq<T>> {
    grid.map_values(|row: Vec<T>| row@)
}

/// Cell `(h, w)` is in the grid.
pub open spec fn in_grid(grid: Seq<Seq<MipmapFit>>, h: int, w: int) -> bool {
    0 <= h < grid.len() && 0 <= w < grid[h].len()
}

/// The cut from cell `(h, w)` is at most `max_size` wide and high, and no cell before it in its
/// row gives a cut higher than `max_size` (the row is not searched past such a cell).
pub open spec fn fits(grid: Seq<Seq<MipmapFit>>, max_size: usize, h: int, w: int) -> bool {
    &&& in_grid(grid, h, w)
    &&& forall|k: int| 0 <= k <= w ==> #[trigger] grid[h][k].height <= max_size
    &&& grid[h][w].width <= max_size
}

/// Cell `(h, w)` fits and can be read now: it is the original or its file exists.
pub open spec fn usable(grid: Seq<Seq<MipmapFit>>, max_size: usize, h: int, w: int) -> bool {
    &&& fits(grid, max_size, h, w)
    &&& (h == 0 && w == 0 || grid[h][w].status == FileStatus::Exists)
}

/// Cell `(h1, w1)` comes before `(h2, w2)`, row by row.
pub open spec fn before(h1: int, w1: int, h2: int, w2: int) -> bool {
    h1 < h2 || (h1 == h2 && w1 < w2)
}

/// The choice of the mipmap to read: the first usable cell, and the first fitting cell if it
/// comes before that one.
pub open spec fn is_choice(grid: Seq<Seq<MipmapFit>>, max_size: usize, c: MipmapChoice) -> bool {
    &&& usable(grid, max_size, c.i_h as int, c.i_w as int)
    &&& forall|h: int, w: int| before(h, w, c.i_h as int, c.i_w as int) ==> !#[trigger] usable(grid, max_size, h, w)
    &&& match c.to_create {
        Some((h, w)) => {
            &&& before(h as int, w as int, c.i_h as int, c.i_w as int)
            &&& fits(grid, max_size, h as int, w as int)
            &&& forall|h2: int, w2: int| before(h2, w2, h as int, w as int) ==> !#[trigger] fits(grid, max_size, h2, w2)
        },
        None => forall|h2: int, w2: int| before(h2, w2, c.i_h as int, c.i_w as int) ==> !#[trigger] fits(grid, max_size, h2, w2),
    }
}

/// Picks the mipmap to cut the visible part from: going row by row, and in a row only as far as
/// the cuts are not higher than `max_size`, the first whose cut is at most `max_size` wide and
/// that is the original or has its file; with it, the first cell passed on the way that fitted
/// but had no file. `None` when no mipmap can be read.
pub fn choose_mipmap(grid: &Vec<Vec<MipmapFit>>, max_size: usize) -> (res: Option<MipmapChoice>)
    ensures
        match res {
            Some(c) => is_choice(grid_view(grid@), max_size, c),
            None => forall|h: int, w: int| !#[trigger] usable(grid_view(grid@), max_size, h, w),
        },
{
    let ghost g = grid_view(grid@);
    let mut need_to_create: Option<(usize, usize)> = None;
    let n_h = grid.len();
    let mut i_h: usize = 0;
    while i_h < n_h
        invariant
            n_h == grid@.len(),
            g == grid_view(grid@),
            i_h <= n_h,
            forall|h: int, w: int| h < i_h ==> !#[trigger] usable(g, max_size, h, w),
            match need_to_create {
                Some((h, w)) => {
                    &&& h < i_h
                    &&& fits(g, max_size, h as int, w as int)
                    &&& forall|h2: int, w2: int| before(h2, w2, h as int, w as int) ==> !#[trigger] fits(g, max_size, h2, w2)
                },
                None => forall|h2: int, w2: int| h2 < i_h ==> !#[trigger] fits(g, max_size, h2, w2),
            },
        decreases n_h - i_h,
    {
        let row = &grid[i_h];
        assert(g[i_h as int] == row@);
        let n_w = row.len();
        let mut i_w: usize = 0;
        let mut tall = false;
        while i_w < n_w && !tall
            invariant
                n_w == row@.len(),
                g == grid_view(grid@),
                row@ == g[i_h as int],
                i_h < g.len(),
                i_w <= n_w,
                forall|k: int| 0 <= k < i_w ==> #[trigger] g[i_h as int][k].height <= max_size,
                tall ==> i_w < n_w && g[i_h as int][i_w as int].height > max_size,
                forall|h: int, w: int| before(h, w, i_h as int, i_w as int) ==> !#[trigger] usable(g, max_size, h, w),
                match need_to_create {
                    Some((h, w)) => {
                        &&& before(h as int, w as int, i_h as int, i_w as int)
                        &&& fits(g, max_size, h as int, w as int)
                        &&& forall|h2: int, w2: int| before(h2, w2, h as int, w as int) ==> !#[trigger] fits(g, max_size, h2, w2)
                    },
                    None => forall|h2: int, w2: int| before(h2, w2, i_h as int, i_w as int) ==> !#[trigger] fits(g, max_size, h2, w2),
                },
            decreases n_w - i_w, if tall { 0int } else { 1int },
        {
            let m = row[i_w];
            if m.height > max_size {
                tall = true;
            } else {
                if m.width <= max_size {
                    proof {
                        assert(fits(g, max_size, i_h as int, i_w as int));
                    }
                    if (i_h == 0 && i_w == 0) || m.status == FileStatus::Exists {
                        let c = MipmapChoice { i_h, i_w, to_create: need_to_create };
                        return Some(c);
                    } else if need_to_create.is_none() {
                        need_to_create = Some((i_h, i_w));
                    }
                }
                proof {
                    assert forall|h: int, w: int| before(h, w, i_h as int, i_w + 1) implies !#[trigger] usable(g, max_size, h, w) by {
                        if h == i_h && w == i_w {
                        }
                    }
                }
                i_w = i_w + 1;
            }
        }
        proof {
            assert forall|h: int, w: int| h < i_h + 1 implies !#[trigger] usable(g, max_size, h, w) by {
                if h == i_h && w >= i_w && in_grid(g, h, w) {
                    assert(tall);
                    assert(g[h][i_w as int].height > max_size);
                }
            }
            assert forall|h: int, w: int| h < i_h + 1 && need_to_create is None implies !#[trigger] fits(g, max_size, h, w) by {
                if h == i_h && w >= i_w && in_grid(g, h, w) {
                    assert(g[h][i_w as int].height > max_size);
                }
            }
        }
        i_h = i_h + 1;
    }
    None
}

/// The stored mipmaps to remove once `(i_h, i_w)` was read: every one with a file, but that one
/// and the last of the last row.
pub open spec fn prunable(grid: Seq<Seq<FileStatus>>, i_h: int, i_w: int, h: int, w: int) -> bool {
    &&& 0 <= h < grid.len()
    &&& 0 <= w < grid[h].len()
    &&& grid[h][w] == FileStatus::Exists
    &&& !(h == i_h && w == i_w)
    &&& !(h == grid.len() - 1 && w == grid[h].len() - 1)
}

/// Lists, row by row, the mipmaps whose files are removed after `(i_h, i_w)` was read.
pub fn mipmaps_to_prune(statuses: &Vec<Vec<FileStatus>>, i_h: usize, i_w: usize) -> (res: Vec<(usize, usize)>)
    ensures
        forall|k: int| 0 <= k < res@.len() ==> prunable(
            grid_view(statuses@), i_h as int, i_w as int,
            #[trigger] res@[k].0 as int, res@[k].1 as int),
        forall|h: int, w: int| prunable(grid_view(statuses@), i_h as int, i_w as int, h, w)
            ==> exists|k: int| 0 <= k < res@.len() && #[trigger] res@[k] == (h as usize, w as usize),
        forall|k1: int, k2: int| 0 <= k1 < k2 < res@.len() ==> before(
            #[trigger] res@[k1].0 as int, res@[k1].1 as int, #[trigger] res@[k2].0 as int, res@[k2].1 as int),
{
    let ghost g = grid_view(statuses@);
    let mut out: Vec<(usize, usize)> = Vec::new();
    let n_h = statuses.len();
    let mut h: usize = 0;
    while h < n_h
        invariant
            n_h == statuses@.len(),
            g == grid_view(statuses@),
            h <= n_h,
            forall|k: int| 0 <= k < out@.len() ==> prunable(g, i_h as int, i_w as int, #[trigger] out@[k].0 as int, out@[k].1 as int),
            forall|k: int| 0 <= k < out@.len() ==> (#[trigger] out@[k]).0 < h,
            forall|h2: int, w2: int| h2 < h && prunable(g, i_h as int, i_w as int, h2, w2)
                ==> exists|k: int| 0 <= k < out@.len() && #[trigger] out@[k] == (h2 as usize, w2 as usize),
            forall|k1: int, k2: int| 0 <= k1 < k2 < out@.len() ==> before(
                #[trigger] out@[k1].0 as int, out@[k1].1 as int, #[trigger] out@[k2].0 as int, out@[k2].1 as int),
        decreases n_h - h,
    {
        let row = &statuses[h];
        assert(g[h as int] == row@);
        let n_w = row.len();
        let mut w: usize = 0;
        while w < n_w
            invariant
                n_h == statuses@.len(),
                n_h == g.len(),
                h < n_h,
                n_w == row@.len(),
                row@ == g[h as int],
                w <= n_w,
                forall|k: int| 0 <= k < out@.len() ==> prunable(g, i_h as int, i_w as int, #[trigger] out@[k].0 as int, out@[k].1 as int),
                forall|k: int| 0 <= k < out@.len() ==> before((#[trigger] out@[k]).0 as int, out@[k].1 as int, h as int, w as int),
                forall|h2: int, w2: int| before(h2, w2, h as int, w as int) && prunable(g, i_h as int, i_w as int, h2, w2)
                    ==> exists|k: int| 0 <= k < out@.len() && #[trigger] out@[k] == (h2 as usize, w2 as usize),
                forall|k1: int, k2: int| 0 <= k1 < k2 < out@.len() ==> before(
                    #[trigger] out@[k1].0 as int, out@[k1].1 as int, #[trigger] out@[k2].0 as int, out@[k2].1 as int),
            decreases n_w - w,
        {
            let keep = (h == i_h && w == i_w) || (h == n_h - 1 && w == n_w - 1);
            if !keep && row[w] == FileStatus::Exists {
                let ghost old_out = out@;
                out.push((h, w));
                proof {
                    assert(out@[old_out.len() as int] == (h, w));
                    assert forall|h2: int, w2: int| before(h2, w2, h as int, w + 1) && prunable(g, i_h as int, i_w as int, h2, w2)
                        implies exists|k: int| 0 <= k < out@.len() && #[trigger] out@[k] == (h2 as usize, w2 as usize) by {
                        if h2 == h && w2 == w {
                            assert(out@[old_out.len() as int] == (h2 as usize, w2 as usize));
                        } else {
                            assert(before(h2, w2, h as int, w as int));
                            let k = choose|k: int| 0 <= k < old_out.len() && #[trigger] old_out[k] == (h2 as usize, w2 as usize);
                            assert(out@[k] == old_out[k]);
                        }
                    }
                }
            } else {
                proof {
                    assert forall|h2: int, w2: int| before(h2, w2, h as int, w + 1) && prunable(g, i_h as int, i_w as int, h2, w2)
                        implies exists|k: int| 0 <= k < out@.len() && #[trigger] out@[k] == (h2 as usize, w2 as usize) by {
                        if h2 == h && w2 == w {
                            assert(false);
                        }
                        assert(before(h2, w2, h as int, w as int));
                    }
                }
            }
            w = w + 1;
        }
        proof {
            assert forall|h2: int, w2: int| h2 < h + 1 && prunable(g, i_h as int, i_w as int, h2, w2)
                implies exists|k: int| 0 <= k < out@.len() && #[trigger] out@[k] == (h2 as usize, w2 as usize) by {
                assert(before(h2, w2, h as int, w as int));
            }
        }
        h = h + 1;
    }
    out
}

} // verus!
