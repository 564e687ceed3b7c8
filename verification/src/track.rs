//! The list of open tracks: which ids hold a track, and which track is the longest.
//!
//! The audio itself stays with the caller; the list holds what its bookkeeping reads of each
//! track: sample rate, channel count and length in samples.

use vstd::prelude::*;
use std::collections::HashSet;

verus! {

/// What the list knows of one track.
#[derive(Clone, Copy, PartialEq, Eq, Debug)]
pub struct TrackMeta {
    /// sample rate (Hz)
    pub sr: u32,
    /// number of channels
    pub n_ch: usize,
    /// length in samples
    pub len: usize,
}

/// Whether a track of `a_len` samples at `a_sr` Hz lasts longer than one of `b_len` at `b_sr`.
pub open spec fn longer(a_len: nat, a_sr: nat, b_len: nat, b_sr: nat) -> bool {
    a_len * b_sr > b_len * a_sr
}

/// What reloading a track from its file gave.
#[derive(Clone, Copy, PartialEq, Eq, Debug)]
pub enum ReloadOutcome {
    /// the file now holds other audio
    Changed(TrackMeta),
    /// the file holds the same audio as before
    Unchanged,
    /// the file could not be read
    Failed,
}

/// The list as a mathematical value.
pub struct TrackListView {
    pub tracks: Seq<Option<TrackMeta>>,
    pub id_max_sec: nat,
    /// the longest length, as `max_len` samples at `max_sr` Hz
    pub max_len: nat,
    pub max_sr: nat,
}

/// `tracks` with `meta` at `id`, grown with empty slots as needed.
pub open spec fn place(tracks: Seq<Option<TrackMeta>>, id: nat, meta: TrackMeta) -> Seq<Option<TrackMeta>> {
    if id < tracks.len() {
        tracks.update(id as int, Some(meta))
    } else {
        tracks + Seq::new((id - tracks.len()) as nat, |i: int| None::<TrackMeta>) + seq![Some(meta)]
    }
}

/// One loaded track taken in.
pub open spec fn add_one(v: TrackListView, id: nat, meta: TrackMeta) -> TrackListView {
    if longer(meta.len as nat, meta.sr as nat, v.max_len, v.max_sr) {
        TrackListView { tracks: place(v.tracks, id, meta), id_max_sec: id, max_len: meta.len as nat, max_sr: meta.sr as nat }
    } else {
        TrackListView { tracks: place(v.tracks, id, meta), ..v }
    }
}

/// The list after taking in the tracks that loaded, in order.
pub open spec fn add_all(v: TrackListView, ids: Seq<usize>, loaded: Seq<Option<TrackMeta>>) -> TrackListView
    decreases ids.len(),
{
    if ids.len() == 0 || loaded.len() != ids.len() {
        v
    } else {
        let prev = add_all(v, ids.drop_last(), loaded.drop_last());
        match loaded.last() {
            Some(meta) => add_one(prev, ids.last() as nat, meta),
            None => prev,
        }
    }
}

/// The ids whose tracks loaded, in order.
pub open spec fn loaded_ids(ids: Seq<usize>, loaded: Seq<Option<TrackMeta>>) -> Seq<usize>
    decreases ids.len(),
{
    if ids.len() == 0 || loaded.len() != ids.len() {
        Seq::empty()
    } else {
        let prev = loaded_ids(ids.drop_last(), loaded.drop_last());
        match loaded.last() {
            Some(meta) => prev.push(ids.last()),
            None => prev,
        }
    }
}

pub struct TrackList {
    tracks: Vec<Option<TrackMeta>>,
    id_max_sec: usize,
    max_len: usize,
    max_sr: u32,
}

impl TrackList {
    pub closed spec fn view(self) -> TrackListView {
        TrackListView {
            tracks: self.tracks@,
            id_max_sec: self.id_max_sec as nat,
            max_len: self.max_len as nat,
            max_sr: self.max_sr as nat,
        }
    }

    /// Every track has a sample rate, none lasts longer than the recorded longest length,
    /// and a nonzero longest length belongs to a track of the list.
    pub open spec fn wf(self) -> bool {
        let v = self.view();
        &&& v.max_sr > 0
        &&& forall|i: int| 0 <= i < v.tracks.len() && #[trigger] v.tracks[i] is Some ==> {
            let t = v.tracks[i]->Some_0;
            &&& t.sr > 0
            &&& !longer(t.len as nat, t.sr as nat, v.max_len, v.max_sr)
        }
        &&& v.max_len > 0 ==> v.id_max_sec < v.tracks.len() && v.tracks[v.id_max_sec as int] is Some
    }

    /// An empty list.
    pub fn new() -> (res: Self)
        ensures
            res.wf(),
            res.view().tracks == Seq::<Option<TrackMeta>>::empty(),
            res.view().max_len == 0,
            res.view().id_max_sec == 0,
    {
        TrackList { tracks: Vec::new(), id_max_sec: 0, max_len: 0, max_sr: 1 }
    }
}

fn longer_exec(a_len: usize, a_sr: u32, b_len: usize, b_sr: u32) -> (r: bool)
    ensures
        r == longer(a_len as nat, a_sr as nat, b_len as nat, b_sr as nat),
{
    proof {
        assert((a_len as nat) * (b_sr as nat) <= 0xffff_ffff_ffff_ffff * 0xffff_ffff) by (nonlinear_arith)
            requires a_len <= 0xffff_ffff_ffff_ffff, b_sr <= 0xffff_ffff;
        assert((b_len as nat) * (a_sr as nat) <= 0xffff_ffff_ffff_ffff * 0xffff_ffff) by (nonlinear_arith)
            requires b_len <= 0xffff_ffff_ffff_ffff, a_sr <= 0xffff_ffff;
    }
    (a_len as u128) * (b_sr as u128) > (b_len as u128) * (a_sr as u128)
}


proof fn lemma_longer_trans(tl: nat, ts: nat, ol: nat, os: nat, ml: nat, ms: nat)
    requires
        ts > 0,
        os > 0,
        ms > 0,
        !longer(tl, ts, ol, os),
        longer(ml, ms, ol, os),
    ensures
        !longer(tl, ts, ml, ms),
{
    assert(tl * os * ms <= ol * ts * ms) by (nonlinear_arith)
        requires tl * os <= ol * ts;
    assert(ol * ms * ts <= ml * os * ts) by (nonlinear_arith)
        requires ol * ms < ml * os;
    assert(ol * ts * ms == ol * ms * ts) by (nonlinear_arith);
    assert(tl * os * ms == os * (tl * ms)) by (nonlinear_arith);
    assert(ml * os * ts == os * (ml * ts)) by (nonlinear_arith);
    assert(tl * ms <= ml * ts) by (nonlinear_arith)
        requires os * (tl * ms) <= os * (ml * ts), os > 0;
}

impl TrackList {
    /// Puts `meta` at `id`, growing the list with empty slots as needed.
    fn place_track(&mut self, id: usize, meta: TrackMeta)
        requires
            id < usize::MAX,
        ensures
            final(self).tracks@ == place(old(self).tracks@, id as nat, meta),
            final(self).id_max_sec == old(self).id_max_sec,
            final(self).max_len == old(self).max_len,
            final(self).max_sr == old(self).max_sr,
    {
        let ghost old_tracks = self.tracks@;
        if id >= self.tracks.len() {
            while self.tracks.len() < id + 1
                invariant
                    id < usize::MAX,
                    old_tracks.len() <= self.tracks@.len() <= id + 1,
                    self.tracks@ == old_tracks + Seq::new((self.tracks@.len() - old_tracks.len()) as nat, |i: int| None::<TrackMeta>),
                    self.id_max_sec == old(self).id_max_sec,
                    self.max_len == old(self).max_len,
                    self.max_sr == old(self).max_sr,
                decreases id + 1 - self.tracks@.len(),
            {
                self.tracks.push(None);
                proof {
                    assert(self.tracks@ =~= old_tracks + Seq::new((self.tracks@.len() - old_tracks.len()) as nat, |i: int| None::<TrackMeta>));
                }
            }
            self.tracks.set(id, Some(meta));
            proof {
                assert(self.tracks@ =~= place(old_tracks, id as nat, meta));
            }
        } else {
            self.tracks.set(id, Some(meta));
        }
    }

    /// Takes in the tracks that loaded: `loaded[i]` is what opening the file for `id_list[i]`
    /// gave, `None` where it failed. Returns the ids taken in, in order.
    pub fn add_tracks(&mut self, id_list: Vec<usize>, loaded: Vec<Option<TrackMeta>>) -> (added_ids: Vec<usize>)
        requires
            old(self).wf(),
            id_list.len() == loaded.len(),
            forall|i: int| 0 <= i < loaded.len() && #[trigger] loaded[i] is Some ==> loaded[i]->Some_0.sr > 0
                && id_list[i] < usize::MAX,
        ensures
            final(self).wf(),
            final(self).view() == add_all(old(self).view(), id_list@, loaded@),
            added_ids@ == loaded_ids(id_list@, loaded@),
    {
        let ghost v0 = self.view();
        let mut added_ids: Vec<usize> = Vec::new();
        let n = id_list.len();
        let mut i: usize = 0;
        while i < n
            invariant
                n == id_list.len(),
                n == loaded.len(),
                i <= n,
                forall|i: int| 0 <= i < loaded.len() && #[trigger] loaded[i] is Some ==> loaded[i]->Some_0.sr > 0
                    && id_list[i] < usize::MAX,
                self.wf(),
                self.view() == add_all(v0, id_list@.take(i as int), loaded@.take(i as int)),
                added_ids@ == loaded_ids(id_list@.take(i as int), loaded@.take(i as int)),
            decreases n - i,
        {
            let id = id_list[i];
            let ghost prev = self.view();
            proof {
                assert(id_list@.take(i + 1).drop_last() =~= id_list@.take(i as int));
                assert(loaded@.take(i + 1).drop_last() =~= loaded@.take(i as int));
                assert(id_list@.take(i + 1).last() == id);
                assert(loaded@.take(i + 1).last() == loaded[i as int]);
            }
            if let Some(meta) = loaded[i] {
                assert(loaded[i as int] is Some);
                let sec_is_longer = longer_exec(meta.len, meta.sr, self.max_len, self.max_sr);
                if sec_is_longer {
                    self.max_len = meta.len;
                    self.max_sr = meta.sr;
                    self.id_max_sec = id;
                }
                self.place_track(id, meta);
                added_ids.push(id);
                proof {
                    let v = self.view();
                    assert(v == add_one(prev, id as nat, meta));
                    assert forall|j: int| 0 <= j < v.tracks.len() && #[trigger] v.tracks[j] is Some implies {
                        let t = v.tracks[j]->Some_0;
                        &&& t.sr > 0
                        &&& !longer(t.len as nat, t.sr as nat, v.max_len, v.max_sr)
                    } by {
                        if j == id as int {
                            assert(v.tracks[j] == Some(meta));
                        } else {
                            assert(j < prev.tracks.len());
                            assert(v.tracks[j] == prev.tracks[j]);
                            let t = v.tracks[j]->Some_0;
                            if sec_is_longer {
                                lemma_longer_trans(t.len as nat, t.sr as nat, prev.max_len, prev.max_sr,
                                    meta.len as nat, meta.sr as nat);
                            }
                        }
                    }
                    if v.max_len > 0 && !sec_is_longer {
                        assert(v.tracks[v.id_max_sec as int] is Some);
                    }
                }
            }
            i = i + 1;
        }
        proof {
            assert(id_list@.take(n as int) =~= id_list@);
            assert(loaded@.take(n as int) =~= loaded@);
        }
        added_ids
    }
}


/// The `(id, ch)` pairs of a track's channels.
pub open spec fn channel_tuples(id: usize, n_ch: usize) -> Seq<(usize, usize)> {
    Seq::new(n_ch as nat, |ch: int| (id, ch as usize))
}

/// Removing the tracks of `ids` in order: the slots left, the `(id, ch)` pairs removed, and
/// whether the longest track was among them.
pub open spec fn remove_all(tracks: Seq<Option<TrackMeta>>, id_max_sec: nat, ids: Seq<usize>) -> (Seq<Option<TrackMeta>>, Seq<(usize, usize)>, bool)
    decreases ids.len(),
{
    if ids.len() == 0 {
        (tracks, Seq::empty(), false)
    } else {
        let prev = remove_all(tracks, id_max_sec, ids.drop_last());
        let id = ids.last();
        if id < prev.0.len() && prev.0[id as int] is Some {
            let t = prev.0[id as int]->Some_0;
            (prev.0.update(id as int, None), prev.1 + channel_tuples(id, t.n_ch), prev.2 || id == id_max_sec)
        } else {
            prev
        }
    }
}

/// The first of the longest tracks, as `(id, len, sr)`; `(0, 0, 1)` when no track lasts.
pub open spec fn longest(tracks: Seq<Option<TrackMeta>>) -> (nat, nat, nat)
    decreases tracks.len(),
{
    if tracks.len() == 0 {
        (0, 0, 1)
    } else {
        let prev = longest(tracks.drop_last());
        match tracks.last() {
            Some(t) => if longer(t.len as nat, t.sr as nat, prev.1, prev.2) {
                ((tracks.len() - 1) as nat, t.len as nat, t.sr as nat)
            } else {
                prev
            },
            None => prev,
        }
    }
}

/// The list after removing the tracks of `ids`.
pub open spec fn remove_result(v: TrackListView, ids: Seq<usize>) -> TrackListView {
    let r = remove_all(v.tracks, v.id_max_sec, ids);
    if r.2 {
        let l = longest(r.0);
        TrackListView { tracks: r.0, id_max_sec: l.0, max_len: l.1, max_sr: l.2 }
    } else {
        TrackListView { tracks: r.0, ..v }
    }
}

impl TrackList {
    /// Removes the tracks of `id_list` (an id without a track is skipped) and returns the
    /// `(id, ch)` pairs of the removed channels.
    pub fn remove_tracks(&mut self, id_list: &[usize]) -> (removed_id_ch_tuples: Vec<(usize, usize)>)
        requires
            old(self).wf(),
            forall|i: int| 0 <= i < id_list.len() ==> #[trigger] id_list[i] < old(self).view().tracks.len(),
        ensures
            final(self).wf(),
            final(self).view() == remove_result(old(self).view(), id_list@),
            removed_id_ch_tuples@ == remove_all(old(self).view().tracks, old(self).view().id_max_sec, id_list@).1,
    {
        let ghost v0 = self.view();
        let mut need_update_max_sec = false;
        let mut removed_id_ch_tuples: Vec<(usize, usize)> = Vec::new();
        let n = id_list.len();
        let mut i: usize = 0;
        while i < n
            invariant
                n == id_list.len(),
                i <= n,
                forall|i: int| 0 <= i < id_list.len() ==> #[trigger] id_list[i] < v0.tracks.len(),
                self.tracks@.len() == v0.tracks.len(),
                self.id_max_sec == v0.id_max_sec,
                self.max_len == v0.max_len,
                self.max_sr == v0.max_sr,
                (self.tracks@, removed_id_ch_tuples@, need_update_max_sec)
                    == remove_all(v0.tracks, v0.id_max_sec, id_list@.take(i as int)),
            decreases n - i,
        {
            let id = id_list[i];
            proof {
                assert(id_list@.take(i + 1).drop_last() =~= id_list@.take(i as int));
                assert(id_list@.take(i + 1).last() == id);
            }
            if let Some(removed) = self.tracks[id] {
                let ghost before = removed_id_ch_tuples@;
                let mut ch: usize = 0;
                while ch < removed.n_ch
                    invariant
                        ch <= removed.n_ch,
                        removed_id_ch_tuples@ == before + channel_tuples(id, ch),
                    decreases removed.n_ch - ch,
                {
                    removed_id_ch_tuples.push((id, ch));
                    ch = ch + 1;
                    proof {
                        assert(removed_id_ch_tuples@ =~= before + channel_tuples(id, ch));
                    }
                }
                if id == self.id_max_sec {
                    need_update_max_sec = true;
                }
                self.tracks.set(id, None);
            }
            i = i + 1;
        }
        proof {
            assert(id_list@.take(n as int) =~= id_list@);
        }
        let ghost r = remove_all(v0.tracks, v0.id_max_sec, id_list@);
        proof {
            lemma_remove_all_only_removes(v0.tracks, v0.id_max_sec, id_list@);
        }
        if need_update_max_sec {
            let len = self.tracks.len();
            let mut id_max: usize = 0;
            let mut max_len: usize = 0;
            let mut max_sr: u32 = 1;
            let mut j: usize = 0;
            while j < len
                invariant
                    len == self.tracks@.len(),
                    j <= len,
                    forall|k: int| 0 <= k < self.tracks@.len() && #[trigger] self.tracks@[k] is Some
                        ==> self.tracks@[k]->Some_0.sr > 0,
                    (id_max as nat, max_len as nat, max_sr as nat) == longest(self.tracks@.take(j as int)),
                    max_sr > 0,
                    forall|k: int| 0 <= k < j && #[trigger] self.tracks@[k] is Some ==> {
                        let t = self.tracks@[k]->Some_0;
                        !longer(t.len as nat, t.sr as nat, max_len as nat, max_sr as nat)
                    },
                    max_len > 0 ==> id_max < j && self.tracks@[id_max as int] is Some,
                decreases len - j,
            {
                proof {
                    assert(self.tracks@.take(j + 1).drop_last() =~= self.tracks@.take(j as int));
                    assert(self.tracks@.take(j + 1).last() == self.tracks@[j as int]);
                }
                if let Some(track) = self.tracks[j] {
                    let ghost old_len = max_len;
                    let ghost old_sr = max_sr;
                    if longer_exec(track.len, track.sr, max_len, max_sr) {
                        proof {
                            assert forall|k: int| 0 <= k < j && #[trigger] self.tracks@[k] is Some implies {
                                let t = self.tracks@[k]->Some_0;
                                !longer(t.len as nat, t.sr as nat, track.len as nat, track.sr as nat)
                            } by {
                                let t = self.tracks@[k]->Some_0;
                                lemma_longer_trans(t.len as nat, t.sr as nat, old_len as nat, old_sr as nat,
                                    track.len as nat, track.sr as nat);
                            }
                        }
                        id_max = j;
                        max_len = track.len;
                        max_sr = track.sr;
                    }
                }
                j = j + 1;
            }
            proof {
                assert(self.tracks@.take(len as int) =~= self.tracks@);
            }
            self.id_max_sec = id_max;
            self.max_len = max_len;
            self.max_sr = max_sr;
        } else {
            proof {
                if v0.max_len > 0 {
                    lemma_remove_all_keeps(v0.tracks, v0.id_max_sec, id_list@, v0.id_max_sec as int);
                }
            }
        }
        removed_id_ch_tuples
    }
}

proof fn lemma_remove_all_only_removes(tracks: Seq<Option<TrackMeta>>, id_max_sec: nat, ids: Seq<usize>)
    ensures
        remove_all(tracks, id_max_sec, ids).0.len() == tracks.len(),
        forall|k: int| 0 <= k < tracks.len() && #[trigger] remove_all(tracks, id_max_sec, ids).0[k] is Some
            ==> remove_all(tracks, id_max_sec, ids).0[k] == tracks[k],
    decreases ids.len(),
{
    if ids.len() > 0 {
        lemma_remove_all_only_removes(tracks, id_max_sec, ids.drop_last());
    }
}

proof fn lemma_remove_all_keeps(tracks: Seq<Option<TrackMeta>>, id_max_sec: nat, ids: Seq<usize>, k: int)
    requires
        0 <= k < tracks.len(),
        tracks[k] is Some,
        k == id_max_sec,
        !remove_all(tracks, id_max_sec, ids).2,
    ensures
        remove_all(tracks, id_max_sec, ids).0[k] == tracks[k],
    decreases ids.len(),
{
    if ids.len() > 0 {
        let prev = remove_all(tracks, id_max_sec, ids.drop_last());
        assert(!prev.2);
        lemma_remove_all_keeps(tracks, id_max_sec, ids.drop_last(), k);
        lemma_remove_all_only_removes(tracks, id_max_sec, ids.drop_last());
    }
}


/// Removing tracks empties exactly the slots named: after removing the tracks of `ids`, no id
/// of `ids` holds a track, every other slot is as it was, and the list is as long as before.
pub proof fn law_remove_tracks(v: TrackListView, ids: Seq<usize>)
    ensures
        remove_result(v, ids).tracks.len() == v.tracks.len(),
        forall|i: int| 0 <= i < ids.len() && ids[i] < v.tracks.len() ==> #[trigger] remove_result(v, ids).tracks[ids[i] as int] is None,
        forall|k: int| 0 <= k < v.tracks.len() && !ids.contains(k as usize) ==> #[trigger] remove_result(v, ids).tracks[k] == v.tracks[k],
    decreases ids.len(),
{
    lemma_remove_all_only_removes(v.tracks, v.id_max_sec, ids);
    if ids.len() > 0 {
        let rest = ids.drop_last();
        law_remove_tracks(v, rest);
        let prev = remove_all(v.tracks, v.id_max_sec, rest);
        assert(prev.0 == remove_result(v, rest).tracks);
        assert forall|i: int| 0 <= i < ids.len() && ids[i] < v.tracks.len() implies #[trigger] remove_result(v, ids).tracks[ids[i] as int] is None by {
            if i < ids.len() - 1 {
                assert(rest[i] == ids[i]);
                assert(prev.0[ids[i] as int] is None);
            }
        }
        assert forall|k: int| 0 <= k < v.tracks.len() && !ids.contains(k as usize) implies #[trigger] remove_result(v, ids).tracks[k] == v.tracks[k] by {
            assert(ids[ids.len() - 1] != k as usize);
            if rest.contains(k as usize) {
                let j = choose|j: int| 0 <= j < rest.len() && rest[j] == k as usize;
                assert(ids[j] == k as usize);
            }
        }
    }
}

/// Taking tracks in fills exactly the slots named: after taking in the tracks that loaded,
/// each id whose track loaded holds a track, and every slot not named in `ids` is as it was.
pub proof fn law_add_tracks(v: TrackListView, ids: Seq<usize>, loaded: Seq<Option<TrackMeta>>)
    requires
        ids.len() == loaded.len(),
    ensures
        add_all(v, ids, loaded).tracks.len() >= v.tracks.len(),
        forall|i: int| 0 <= i < ids.len() && #[trigger] loaded[i] is Some ==> ids[i] < add_all(v, ids, loaded).tracks.len()
            && add_all(v, ids, loaded).tracks[ids[i] as int] is Some,
        forall|k: int| 0 <= k < v.tracks.len() && !ids.contains(k as usize) ==> #[trigger] add_all(v, ids, loaded).tracks[k] == v.tracks[k],
    decreases ids.len(),
{
    if ids.len() > 0 {
        let rest = ids.drop_last();
        let lrest = loaded.drop_last();
        law_add_tracks(v, rest, lrest);
        let prev = add_all(v, rest, lrest);
        let id = ids.last();
        assert forall|i: int| 0 <= i < ids.len() && #[trigger] loaded[i] is Some implies ids[i] < add_all(v, ids, loaded).tracks.len()
            && add_all(v, ids, loaded).tracks[ids[i] as int] is Some by {
            if i < ids.len() - 1 {
                assert(rest[i] == ids[i]);
                assert(lrest[i] == loaded[i]);
            }
        }
        assert forall|k: int| 0 <= k < v.tracks.len() && !ids.contains(k as usize) implies #[trigger] add_all(v, ids, loaded).tracks[k] == v.tracks[k] by {
            assert(ids[ids.len() - 1] != k as usize);
            if rest.contains(k as usize) {
                let j = choose|j: int| 0 <= j < rest.len() && rest[j] == k as usize;
                assert(ids[j] == k as usize);
            }
        }
    }
}

/// The list after reloading the tracks of `ids` with the given outcomes, in order.
pub open spec fn reload_all(v: TrackListView, ids: Seq<usize>, outcomes: Seq<ReloadOutcome>) -> TrackListView
    decreases ids.len(),
{
    if ids.len() == 0 || outcomes.len() != ids.len() {
        v
    } else {
        let prev = reload_all(v, ids.drop_last(), outcomes.drop_last());
        match outcomes.last() {
            ReloadOutcome::Changed(meta) => add_one(prev, ids.last() as nat, meta),
            _ => prev,
        }
    }
}

/// The ids whose track changed on reloading, and with `with_unchanged` also those that reloaded
/// unchanged, in order.
pub open spec fn ids_where(ids: Seq<usize>, outcomes: Seq<ReloadOutcome>, with_unchanged: bool) -> Seq<usize>
    decreases ids.len(),
{
    if ids.len() == 0 || outcomes.len() != ids.len() {
        Seq::empty()
    } else {
        let prev = ids_where(ids.drop_last(), outcomes.drop_last(), with_unchanged);
        match outcomes.last() {
            ReloadOutcome::Changed(_) => prev.push(ids.last()),
            ReloadOutcome::Unchanged => if with_unchanged { prev.push(ids.last()) } else { prev },
            ReloadOutcome::Failed => prev,
        }
    }
}

/// The ids that hold a track, ascending.
pub open spec fn present_ids(tracks: Seq<Option<TrackMeta>>) -> Seq<usize>
    decreases tracks.len(),
{
    if tracks.len() == 0 {
        Seq::empty()
    } else {
        let prev = present_ids(tracks.drop_last());
        if tracks.last() is Some { prev.push((tracks.len() - 1) as usize) } else { prev }
    }
}

/// The `(id, ch)` pairs of the channels of the tracks of `ids`, track by track (an id
/// without a track adds none).
pub open spec fn channels_of(tracks: Seq<Option<TrackMeta>>, ids: Seq<usize>) -> Seq<(usize, usize)>
    decreases ids.len(),
{
    if ids.len() == 0 {
        Seq::empty()
    } else {
        let id = ids.last();
        let n_ch = if id < tracks.len() && tracks[id as int] is Some { tracks[id as int]->Some_0.n_ch } else { 0 };
        channels_of(tracks, ids.drop_last()) + channel_tuples(id, n_ch)
    }
}

proof fn lemma_present_ids_hold_tracks(tracks: Seq<Option<TrackMeta>>)
    requires
        tracks.len() <= usize::MAX,
    ensures
        forall|i: int| 0 <= i < present_ids(tracks).len() ==> #[trigger] present_ids(tracks)[i] < tracks.len()
            && tracks[present_ids(tracks)[i] as int] is Some,
    decreases tracks.len(),
{
    if tracks.len() > 0 {
        let prev = tracks.drop_last();
        lemma_present_ids_hold_tracks(prev);
        assert forall|i: int| 0 <= i < present_ids(tracks).len() implies #[trigger] present_ids(tracks)[i] < tracks.len()
            && tracks[present_ids(tracks)[i] as int] is Some by {
            if i < present_ids(prev).len() {
                assert(present_ids(tracks)[i] == present_ids(prev)[i]);
                assert(tracks[present_ids(prev)[i] as int] == prev[present_ids(prev)[i] as int]);
            } else {
                assert(present_ids(tracks)[i] == (tracks.len() - 1) as usize);
                assert(tracks.last() is Some);
            }
        }
    }
}

/// The highest sample rate of the tracks; zero without tracks.
pub open spec fn max_sample_rate(tracks: Seq<Option<TrackMeta>>) -> u32
    decreases tracks.len(),
{
    if tracks.len() == 0 {
        0
    } else {
        let prev = max_sample_rate(tracks.drop_last());
        match tracks.last() {
            Some(t) => if t.sr > prev { t.sr } else { prev },
            None => prev,
        }
    }
}

impl TrackList {
    /// Takes in the outcomes of reloading the tracks of `id_list` from their files:
    /// `outcomes[i]` belongs to `id_list[i]`. Returns the ids whose audio changed, and the ids
    /// that reloaded without an error.
    pub fn reload_tracks(&mut self, id_list: &[usize], outcomes: &[ReloadOutcome]) -> (res: (Vec<usize>, Vec<usize>))
        requires
            old(self).wf(),
            id_list.len() == outcomes.len(),
            forall|i: int| 0 <= i < id_list.len() ==> #[trigger] id_list[i] < old(self).view().tracks.len()
                && old(self).view().tracks[id_list[i] as int] is Some,
            forall|i: int| 0 <= i < outcomes.len() && #[trigger] outcomes[i] is Changed
                ==> outcomes[i]->Changed_0.sr > 0,
        ensures
            final(self).wf(),
            final(self).view() == reload_all(old(self).view(), id_list@, outcomes@),
            res.0@ == ids_where(id_list@, outcomes@, false),
            res.1@ == ids_where(id_list@, outcomes@, true),
    {
        let ghost v0 = self.view();
        let mut reloaded_ids: Vec<usize> = Vec::new();
        let mut no_err_ids: Vec<usize> = Vec::new();
        let n = id_list.len();
        let mut i: usize = 0;
        while i < n
            invariant
                n == id_list.len(),
                n == outcomes.len(),
                i <= n,
                forall|i: int| 0 <= i < id_list.len() ==> #[trigger] id_list[i] < v0.tracks.len()
                    && v0.tracks[id_list[i] as int] is Some,
                forall|i: int| 0 <= i < outcomes.len() && #[trigger] outcomes[i] is Changed
                    ==> outcomes[i]->Changed_0.sr > 0,
                self.tracks@.len() == v0.tracks.len(),
                forall|k: int| 0 <= k < v0.tracks.len() ==> (#[trigger] self.tracks@[k] is Some) == (v0.tracks[k] is Some),
                self.wf(),
                self.view() == reload_all(v0, id_list@.take(i as int), outcomes@.take(i as int)),
                reloaded_ids@ == ids_where(id_list@.take(i as int), outcomes@.take(i as int), false),
                no_err_ids@ == ids_where(id_list@.take(i as int), outcomes@.take(i as int), true),
            decreases n - i,
        {
            let id = id_list[i];
            let ghost prev = self.view();
            proof {
                assert(id_list@.take(i + 1).drop_last() =~= id_list@.take(i as int));
                assert(outcomes@.take(i + 1).drop_last() =~= outcomes@.take(i as int));
                assert(id_list@.take(i + 1).last() == id);
                assert(outcomes@.take(i + 1).last() == outcomes[i as int]);
            }
            match outcomes[i] {
                ReloadOutcome::Changed(meta) => {
                    assert(outcomes[i as int] is Changed);
                    let sec_is_longer = longer_exec(meta.len, meta.sr, self.max_len, self.max_sr);
                    if sec_is_longer {
                        self.max_len = meta.len;
                        self.max_sr = meta.sr;
                        self.id_max_sec = id;
                    }
                    self.tracks.set(id, Some(meta));
                    reloaded_ids.push(id);
                    no_err_ids.push(id);
                    proof {
                        let v = self.view();
                        assert(v == add_one(prev, id as nat, meta));
                        assert forall|j: int| 0 <= j < v.tracks.len() && #[trigger] v.tracks[j] is Some implies {
                            let t = v.tracks[j]->Some_0;
                            &&& t.sr > 0
                            &&& !longer(t.len as nat, t.sr as nat, v.max_len, v.max_sr)
                        } by {
                            if j != id as int {
                                assert(v.tracks[j] == prev.tracks[j]);
                                let t = v.tracks[j]->Some_0;
                                if sec_is_longer {
                                    lemma_longer_trans(t.len as nat, t.sr as nat, prev.max_len, prev.max_sr,
                                        meta.len as nat, meta.sr as nat);
                                }
                            }
                        }
                        if v.max_len > 0 && !sec_is_longer {
                            assert(v.tracks[v.id_max_sec as int] is Some);
                        }
                    }
                }
                ReloadOutcome::Unchanged => {
                    no_err_ids.push(id);
                }
                ReloadOutcome::Failed => {}
            }
            i = i + 1;
        }
        proof {
            assert(id_list@.take(n as int) =~= id_list@);
            assert(outcomes@.take(n as int) =~= outcomes@);
        }
        (reloaded_ids, no_err_ids)
    }

    /// The ids that hold a track, ascending.
    pub fn all_ids(&self) -> (ids: Vec<usize>)
        ensures
            ids@ == present_ids(self.view().tracks),
    {
        let mut ids: Vec<usize> = Vec::new();
        let n = self.tracks.len();
        let mut i: usize = 0;
        while i < n
            invariant
                n == self.tracks@.len(),
                i <= n,
                ids@ == present_ids(self.tracks@.take(i as int)),
            decreases n - i,
        {
            proof {
                assert(self.tracks@.take(i + 1).drop_last() =~= self.tracks@.take(i as int));
            }
            if self.tracks[i].is_some() {
                ids.push(i);
            }
            i = i + 1;
        }
        proof {
            assert(self.tracks@.take(n as int) =~= self.tracks@);
        }
        ids
    }

    /// The ids that hold a track, as a set.
    pub fn all_id_set(&self) -> (ids: HashSet<usize>)
        ensures
            ids@ == Set::new(|id: usize| id < self.view().tracks.len() && self.view().tracks[id as int] is Some),
    {
        broadcast use vstd::std_specs::hash::group_hash_axioms;
        let mut ids: HashSet<usize> = HashSet::new();
        let n = self.tracks.len();
        let mut i: usize = 0;
        while i < n
            invariant
                n == self.tracks@.len(),
                i <= n,
                ids@ == Set::new(|id: usize| id < i && self.tracks@[id as int] is Some),
            decreases n - i,
        {
            if self.tracks[i].is_some() {
                ids.insert(i);
            }
            proof {
                assert(ids@ =~= Set::new(|id: usize| id < i + 1 && self.tracks@[id as int] is Some));
            }
            i = i + 1;
        }
        proof {
            assert(ids@ =~= Set::new(|id: usize| id < self.view().tracks.len() && self.view().tracks[id as int] is Some));
        }
        ids
    }

    /// The `(id, ch)` pairs of the channels of the tracks of `ids`, track by track.
    pub fn id_ch_tuples_from(&self, ids: &[usize]) -> (tuples: Vec<(usize, usize)>)
        requires
            forall|i: int| 0 <= i < ids@.len() ==> #[trigger] ids@[i] < self.view().tracks.len()
                && self.view().tracks[ids@[i] as int] is Some,
        ensures
            tuples@ == channels_of(self.view().tracks, ids@),
    {
        let mut out: Vec<(usize, usize)> = Vec::new();
        let n = ids.len();
        let mut i: usize = 0;
        while i < n
            invariant
                n == ids@.len(),
                i <= n,
                forall|i: int| 0 <= i < ids@.len() ==> #[trigger] ids@[i] < self.view().tracks.len()
                    && self.view().tracks[ids@[i] as int] is Some,
                out@ == channels_of(self.view().tracks, ids@.take(i as int)),
            decreases n - i,
        {
            let id = ids[i];
            proof {
                assert(ids@.take(i + 1).drop_last() =~= ids@.take(i as int));
                assert(ids@.take(i + 1).last() == id);
            }
            let n_ch = match self.tracks[id] {
                Some(t) => t.n_ch,
                None => 0,
            };
            let ghost before = out@;
            let mut ch: usize = 0;
            while ch < n_ch
                invariant
                    ch <= n_ch,
                    out@ == before + channel_tuples(id, ch),
                decreases n_ch - ch,
            {
                out.push((id, ch));
                ch = ch + 1;
                proof {
                    assert(out@ =~= before + channel_tuples(id, ch));
                }
            }
            i = i + 1;
        }
        proof {
            assert(ids@.take(n as int) =~= ids@);
        }
        out
    }

    /// The `(id, ch)` pairs of the channels of all tracks, ascending.
    pub fn id_ch_tuples(&self) -> (tuples: Vec<(usize, usize)>)
        ensures
            tuples@ == channels_of(self.view().tracks, present_ids(self.view().tracks)),
    {
        let ids = self.all_ids();
        proof {
            assert(self.view().tracks.len() == self.tracks.len());
            lemma_present_ids_hold_tracks(self.view().tracks);
        }
        self.id_ch_tuples_from(&ids)
    }

    /// The highest sample rate among the tracks; zero without tracks.
    pub fn max_sr(&self) -> (sr: u32)
        ensures
            sr == max_sample_rate(self.view().tracks),
    {
        let mut max: u32 = 0;
        let n = self.tracks.len();
        let mut i: usize = 0;
        while i < n
            invariant
                n == self.tracks@.len(),
                i <= n,
                max == max_sample_rate(self.tracks@.take(i as int)),
            decreases n - i,
        {
            proof {
                assert(self.tracks@.take(i + 1).drop_last() =~= self.tracks@.take(i as int));
            }
            if let Some(track) = self.tracks[i] {
                if track.sr > max {
                    max = track.sr;
                }
            }
            i = i + 1;
        }
        proof {
            assert(self.tracks@.take(n as int) =~= self.tracks@);
        }
        max
    }

    /// Whether `id` holds a track.
    pub fn has(&self, id: usize) -> (r: bool)
        ensures
            r == (id < self.view().tracks.len() && self.view().tracks[id as int] is Some),
    {
        id < self.tracks.len() && self.tracks[id].is_some()
    }

    /// The track at `id`, if any.
    pub fn get(&self, id: usize) -> (r: Option<TrackMeta>)
        requires
            id < self.view().tracks.len(),
        ensures
            r == self.view().tracks[id as int],
    {
        self.tracks[id]
    }

    /// The length of the longest track, as `(samples, sample rate)`: it lasts
    /// `samples / sample rate` seconds.
    pub fn max_sec(&self) -> (r: (usize, u32))
        ensures
            r.0 as nat == self.view().max_len,
            r.1 as nat == self.view().max_sr,
    {
        (self.max_len, self.max_sr)
    }
}

} // verus!
