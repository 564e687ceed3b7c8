//! Frame arithmetic of the resampling playback (positions as durations and back, how many
//! frames a resampled block holds, how many blocks to ask for ahead), and the queue of songs.

use vstd::prelude::*;

verus! {

/// Nanoseconds in a second.
pub const NANOS_PER_SEC: u64 = 1_000_000_000;

/// Whole seconds before frame `frame` of audio at `sample_rate` Hz starts.
pub open spec fn frame_secs(frame: int, sample_rate: int) -> int {
    frame / sample_rate
}

/// Nanoseconds past the whole seconds at which frame `frame` starts, rounded down.
pub open spec fn frame_nanos(frame: int, sample_rate: int) -> int {
    NANOS_PER_SEC * (frame % sample_rate) / sample_rate
}

/// The frame of audio at `sample_rate` Hz in which the time `secs` s + `nanos` ns falls.
pub open spec fn frame_at(secs: int, nanos: int, sample_rate: int) -> int {
    sample_rate * secs + sample_rate * nanos / (NANOS_PER_SEC as int)
}

/// The time at which frame `frame` of audio at `sample_rate` Hz starts, as whole seconds and
/// nanoseconds (rounded down).
pub fn frame_to_duration(frame: usize, sample_rate: u32) -> (res: (u64, u32))
    requires
        sample_rate > 0,
    ensures
        res.0 == frame_secs(frame as int, sample_rate as int),
        res.1 == frame_nanos(frame as int, sample_rate as int),
        res.1 < NANOS_PER_SEC,
{
    let sr = sample_rate as u64;
    let f = frame as u64;
    let sub_second_samples = f % sr;
    proof {
        assert(NANOS_PER_SEC * sub_second_samples < NANOS_PER_SEC * sr) by (nonlinear_arith)
            requires
                sub_second_samples < sr,
        ;
        assert(NANOS_PER_SEC * sub_second_samples <= u64::MAX) by (nonlinear_arith)
            requires
                sub_second_samples < sr,
                sr <= u32::MAX,
        ;
        assert(NANOS_PER_SEC * sub_second_samples / (sr as int) < NANOS_PER_SEC) by (nonlinear_arith)
            requires
                NANOS_PER_SEC * sub_second_samples < NANOS_PER_SEC * sr,
                sr > 0,
        ;
    }
    let nanos = NANOS_PER_SEC * sub_second_samples / sr;
    (f / sr, nanos as u32)
}

/// The frame of audio at `sample_rate` Hz that a position of `secs` seconds and `nanos`
/// nanoseconds falls in, but not past `total_frames`.
pub fn duration_to_frame(secs: u64, nanos: u32, sample_rate: u32, total_frames: usize) -> (res: usize)
    requires
        frame_at(secs as int, nanos as int, sample_rate as int) <= usize::MAX,
    ensures
        res == if frame_at(secs as int, nanos as int, sample_rate as int) < total_frames {
            frame_at(secs as int, nanos as int, sample_rate as int)
        } else {
            total_frames as int
        },
{
    let sr = sample_rate as u64;
    proof {
        assert(sr * nanos <= u64::MAX) by (nonlinear_arith)
            requires
                sr <= u32::MAX,
                nanos <= u32::MAX,
        ;
        assert(sr * (nanos as int) / (NANOS_PER_SEC as int) >= 0) by (nonlinear_arith)
            requires
                sr >= 0,
                nanos >= 0,
        ;
    }
    let new_frame = (sr * secs + sr * nanos as u64 / NANOS_PER_SEC) as usize;
    if new_frame < total_frames {
        new_frame
    } else {
        total_frames
    }
}

/// A frame's start time leads back to that frame or, rounded down, to the one before it, for
/// rates up to one sample per nanosecond.
pub proof fn law_frame_duration_round_trip(frame: nat, sample_rate: nat)
    requires
        0 < sample_rate <= NANOS_PER_SEC,
    ensures
        frame - 1 <= frame_at(frame_secs(frame as int, sample_rate as int), frame_nanos(frame as int, sample_rate as int), sample_rate as int) <= frame,
{
    let sr = sample_rate as int;
    let f = frame as int;
    let q = f / sr;
    let r = f % sr;
    let n = NANOS_PER_SEC as int;
    let nanos = n * r / sr;
    vstd::arithmetic::div_mod::lemma_fundamental_div_mod(f, sr);
    vstd::arithmetic::div_mod::lemma_mod_bound(f, sr);
    vstd::arithmetic::div_mod::lemma_fundamental_div_mod(n * r, sr);
    vstd::arithmetic::div_mod::lemma_mod_bound(n * r, sr);
    assert(0 <= n * r) by (nonlinear_arith)
        requires
            0 <= r,
            n > 0,
    ;
    let back = sr * nanos / n;
    vstd::arithmetic::div_mod::lemma_fundamental_div_mod(sr * nanos, n);
    vstd::arithmetic::div_mod::lemma_mod_bound(sr * nanos, n);
    assert(sr * nanos <= n * r) by (nonlinear_arith)
        requires
            n * r == sr * nanos + (n * r) % sr,
            0 <= (n * r) % sr,
    ;
    assert(sr * nanos > n * r - sr) by (nonlinear_arith)
        requires
            n * r == sr * nanos + (n * r) % sr,
            (n * r) % sr < sr,
    ;
    assert(back <= r) by (nonlinear_arith)
        requires
            sr * nanos <= n * r,
            sr * nanos == n * back + (sr * nanos) % n,
            0 <= (sr * nanos) % n,
            n > 0,
    ;
    assert(back >= r - 1) by (nonlinear_arith)
        requires
            sr * nanos > n * r - sr,
            sr <= n,
            sr * nanos == n * back + (sr * nanos) % n,
            (sr * nanos) % n < n,
            n > 0,
    ;
    assert(f == sr * q + r);
}

/// The frames a resampled block holds when the resampler wanted `frames_wanted` input frames
/// but only `frames_have` were left: the full block of `frames_per_resample`, or its share.
pub fn resampled_frame_count(frames_per_resample: usize, frames_have: usize, frames_wanted: usize) -> (res: usize)
    requires
        frames_per_resample * frames_have <= usize::MAX,
    ensures
        res == if frames_have < frames_wanted {
            frames_per_resample * frames_have / frames_wanted as int
        } else {
            frames_per_resample as int
        },
{
    if frames_have < frames_wanted {
        proof {
            assert(frames_per_resample * frames_have >= 0) by (nonlinear_arith);
        }
        frames_per_resample * frames_have / frames_wanted
    } else {
        frames_per_resample
    }
}

/// How many more blocks of `block_samples` samples to ask for, so that with `buffered`
/// samples at hand and `pending` blocks on the way, at least `count` samples come.
pub open spec fn blocks_to_request(count: int, buffered: int, pending: int, block_samples: int) -> int
    decreases count - pending when block_samples > 0 && pending >= 0 && buffered >= 0
{
    if count > buffered + pending * block_samples {
        proof {
            assert(pending * block_samples >= pending) by (nonlinear_arith)
                requires
                    block_samples > 0,
                    pending >= 0,
            ;
        }
        1 + blocks_to_request(count, buffered, pending + 1, block_samples)
    } else {
        0
    }
}

/// Counts the further blocks of `block_samples` samples that reading `count` samples asks for,
/// with `buffered` samples at hand and `pending` blocks on the way.
pub fn requests_needed(count: usize, buffered: usize, pending: usize, block_samples: usize) -> (res: usize)
    requires
        block_samples > 0,
        buffered + (pending + count + 1) * block_samples <= usize::MAX,
    ensures
        res == blocks_to_request(count as int, buffered as int, pending as int, block_samples as int),
{
    let mut k: usize = 0;
    let mut p: usize = pending;
    proof {
        assert(pending * block_samples <= (pending + count + 1) * block_samples) by (nonlinear_arith)
            requires
                block_samples > 0,
        ;
    }
    while count > buffered + p * block_samples
        invariant
            block_samples > 0,
            p == pending + k,
            buffered + (pending + count + 1) * block_samples <= usize::MAX,
            p <= pending + count + 1,
            buffered + p * block_samples <= usize::MAX,
            blocks_to_request(count as int, buffered as int, pending as int, block_samples as int)
                == k + blocks_to_request(count as int, buffered as int, p as int, block_samples as int),
        decreases pending + count + 1 - p,
    {
        proof {
            assert((p + 1) * block_samples == p * block_samples + block_samples) by (nonlinear_arith);
            assert(p * block_samples >= p) by (nonlinear_arith)
                requires
                    block_samples > 0,
                    p >= 0,
            ;
            assert((p + 1) * block_samples <= (pending + count + 1) * block_samples) by (nonlinear_arith)
                requires
                    p + 1 <= pending + count + 1,
                    block_samples > 0,
            ;
        }
        k = k + 1;
        p = p + 1;
    }
    k
}


/// The songs of a player: the one that plays, with its position, and the one queued to play
/// after it, with the position to start at; and whether playback runs.
pub struct SongQueue<S> {
    pub playback: Option<(S, (u64, u32))>,
    pub next: Option<(S, (u64, u32))>,
    pub playing: bool,
}

impl<S> SongQueue<S> {
    /// No song, paused.
    pub fn new() -> (res: Self)
        ensures
            res.playback is None,
            res.next is None,
            !res.playing,
    {
        SongQueue { playback: None, next: None, playing: false }
    }

    /// Stops playing any song and drops the queued one; playback is not paused, so a song
    /// queued later plays at once.
    pub fn stop(&mut self)
        ensures
            final(self).playback is None,
            final(self).next is None,
            final(self).playing == old(self).playing,
    {
        self.next = None;
        self.playback = None;
    }

    /// Stops the song that plays; the queued one plays next.
    pub fn skip(&mut self)
        ensures
            final(self).playback is None,
            final(self).next == old(self).next,
            final(self).playing == old(self).playing,
    {
        self.playback = None;
    }

    /// Queues `song` to play next, from `start` (the beginning when `None`), in place of any
    /// song queued before.
    pub fn queue_next(&mut self, song: S, start: Option<(u64, u32)>)
        ensures
            final(self).next == Some((song, match start { Some(t) => t, None => (0u64, 0u32) })),
            final(self).playback == old(self).playback,
            final(self).playing == old(self).playing,
    {
        let initial_pos = match start {
            Some(t) => t,
            None => (0u64, 0u32),
        };
        self.next = Some((song, initial_pos));
    }

    /// Removes the queued song, or the playing one when none is queued.
    pub fn force_remove_next_song(&mut self)
        ensures
            old(self).next is Some ==> final(self).next is None && final(self).playback == old(self).playback,
            old(self).next is None ==> final(self).next is None && final(self).playback is None,
            final(self).playing == old(self).playing,
    {
        if self.next.is_some() {
            self.next = None;
        } else {
            self.playback = None;
        }
    }

    /// Moves the playing song to `time`, or else the queued one; whether there was a song to
    /// move.
    pub fn seek(&mut self, time: (u64, u32)) -> (moved: bool)
        ensures
            moved == (old(self).playback is Some || old(self).next is Some),
            old(self).playback matches Some((s, _)) ==> final(self).playback == Some((s, time))
                && final(self).next == old(self).next,
            old(self).playback is None ==> final(self).playback is None && match old(self).next {
                Some((s, _)) => final(self).next == Some((s, time)),
                None => final(self).next is None,
            },
            final(self).playing == old(self).playing,
    {
        if let Some((_, pos)) = &mut self.playback {
            *pos = time;
            true
        } else if let Some((_, pos)) = &mut self.next {
            *pos = time;
            true
        } else {
            false
        }
    }

    /// Whether a song plays or is about to.
    pub fn has_current_song(&self) -> (r: bool)
        ensures
            r == (self.playback is Some || self.next is Some),
    {
        self.playback.is_some() || self.next.is_some()
    }

    /// Whether a song is queued.
    pub fn has_next_song(&self) -> (r: bool)
        ensures
            r == self.next is Some,
    {
        self.next.is_some()
    }

    /// Where the playing song is, if one plays.
    pub fn position(&self) -> (r: Option<(u64, u32)>)
        ensures
            r == match self.playback {
                Some((_, pos)) => Some(pos),
                None => None::<(u64, u32)>,
            },
    {
        match &self.playback {
            Some((_, pos)) => Some(*pos),
            None => None,
        }
    }

    /// When nothing plays, the queued song starts playing; whether one plays afterwards.
    pub fn start_next_if_idle(&mut self) -> (r: bool)
        ensures
            old(self).playback is Some ==> final(self).playback == old(self).playback && final(self).next
                == old(self).next,
            old(self).playback is None ==> final(self).playback == old(self).next && final(self).next is None,
            r == final(self).playback is Some,
            final(self).playing == old(self).playing,
    {
        if self.playback.is_none() {
            self.playback = self.next.take();
        }
        self.playback.is_some()
    }

    /// The playing song ran out: the queued one takes its place, if any; whether one did.
    pub fn advance_to_next(&mut self) -> (r: bool)
        ensures
            r == old(self).next is Some,
            r ==> final(self).playback == old(self).next && final(self).next is None,
            !r ==> final(self).playback == old(self).playback && final(self).next is None,
            final(self).playing == old(self).playing,
    {
        match self.next.take() {
            Some(n) => {
                self.playback = Some(n);
                true
            },
            None => false,
        }
    }
}

} // verus!
