//! Which tracks need their greyscale spectrogram images drawn anew.
//!
//! Tracks that were added or reloaded wait for their images; when the dB range of all images
//! or the highest sample rate among the tracks changes, every track needs new images.

use vstd::prelude::*;

verus! {

/// The tracks waiting for their images, and the highest sample rate the images were drawn for.
pub struct GreyUpdates {
    max_sr: u32,
    no_grey_ids: Vec<usize>,
}

/// The distinct items of `s`, in order of first occurrence.
pub open spec fn distinct(s: Seq<usize>) -> Seq<usize>
    decreases s.len(),
{
    if s.len() == 0 {
        s
    } else {
        let prev = distinct(s.drop_last());
        if prev.contains(s.last()) {
            prev
        } else {
            prev.push(s.last())
        }
    }
}

impl GreyUpdates {
    /// The highest sample rate the images were drawn for.
    pub closed spec fn drawn_max_sr(self) -> u32 {
        self.max_sr
    }

    /// The tracks waiting for their images, in the order they came.
    pub closed spec fn waiting(self) -> Seq<usize> {
        self.no_grey_ids@
    }

    /// No image drawn yet, no track waiting.
    pub fn new() -> (res: Self)
        ensures
            res.drawn_max_sr() == 0,
            res.waiting() == Seq::<usize>::empty(),
    {
        GreyUpdates { max_sr: 0, no_grey_ids: Vec::new() }
    }

    /// The highest sample rate the images were drawn for.
    pub fn max_sr(&self) -> (r: u32)
        ensures
            r == self.drawn_max_sr(),
    {
        self.max_sr
    }

    /// The tracks of `ids` (added or reloaded) wait for their images.
    pub fn mark(&mut self, ids: &[usize])
        ensures
            final(self).waiting() == old(self).waiting() + ids@,
            final(self).drawn_max_sr() == old(self).drawn_max_sr(),
    {
        let n = ids.len();
        let mut i: usize = 0;
        let ghost start = self.no_grey_ids@;
        while i < n
            invariant
                n == ids@.len(),
                i <= n,
                self.no_grey_ids@ == start + ids@.take(i as int),
                self.max_sr == old(self).max_sr,
                start == old(self).no_grey_ids@,
            decreases n - i,
        {
            self.no_grey_ids.push(ids[i]);
            i = i + 1;
            proof {
                assert(self.no_grey_ids@ =~= start + ids@.take(i as int));
            }
        }
        proof {
            assert(ids@.take(n as int) =~= ids@);
        }
    }

    /// The tracks whose images are drawn now, and whether all are: all tracks (`all_ids`) when
    /// asked (`force_update_all`), when the dB range of the images changed or when the highest
    /// sample rate among the tracks is not the one drawn for; else the waiting tracks, each once.
    /// No track waits afterwards, and the images count as drawn for `max_sr`.
    pub fn take_ids_to_update(&mut self, force_update_all: bool, db_range_changed: bool, max_sr: u32, all_ids: Vec<usize>) -> (res: (Vec<usize>, bool))
        ensures
            res.1 == (force_update_all || db_range_changed || old(self).drawn_max_sr() != max_sr),
            res.1 ==> res.0@ == all_ids@,
            !res.1 ==> res.0@ == distinct(old(self).waiting()),
            final(self).waiting() == Seq::<usize>::empty(),
            final(self).drawn_max_sr() == max_sr,
    {
        let need_update_all = force_update_all || db_range_changed || self.max_sr != max_sr;
        self.max_sr = max_sr;
        if need_update_all {
            self.no_grey_ids = Vec::new();
            return (all_ids, true);
        }
        let n = self.no_grey_ids.len();
        let mut out: Vec<usize> = Vec::new();
        let mut i: usize = 0;
        while i < n
            invariant
                n == self.no_grey_ids@.len(),
                i <= n,
                out@ == distinct(self.no_grey_ids@.take(i as int)),
            decreases n - i,
        {
            let id = self.no_grey_ids[i];
            proof {
                assert(self.no_grey_ids@.take(i + 1).drop_last() =~= self.no_grey_ids@.take(i as int));
            }
            let mut seen = false;
            let m = out.len();
            let mut j: usize = 0;
            while j < m
                invariant
                    m == out@.len(),
                    j <= m,
                    seen <==> exists|k: int| 0 <= k < j && out@[k] == id,
                decreases m - j,
            {
                if out[j] == id {
                    seen = true;
                }
                j = j + 1;
            }
            if !seen {
                out.push(id);
            }
            i = i + 1;
        }
        proof {
            assert(self.no_grey_ids@.take(n as int) =~= self.no_grey_ids@);
        }
        self.no_grey_ids = Vec::new();
        (out, false)
    }
}

} // verus!
