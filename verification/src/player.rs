//! Decisions of the audio player that do not touch the device.
//!
//! The player's loop keeps the mixer, the sound and the clock; what it decides, on each command
//! and on each idle tick, is taken here from plain values.

use vstd::prelude::*;

verus! {

/// `g` is the least supported rate above `sr`, short of `u32::MAX`.
pub open spec fn is_closest_greater(list: Seq<u32>, sr: u32, g: u32) -> bool {
    &&& list.contains(g)
    &&& sr < g < u32::MAX
    &&& forall|i: int| 0 <= i < list.len() && sr < #[trigger] list[i] ==> g <= list[i]
}

/// `l` is the greatest nonzero supported rate below `sr`.
pub open spec fn is_closest_less(list: Seq<u32>, sr: u32, l: u32) -> bool {
    &&& list.contains(l)
    &&& 0 < l < sr
    &&& forall|i: int| 0 <= i < list.len() && #[trigger] list[i] < sr ==> list[i] <= l
}

/// The sample rate to open the device with, for audio at `sr` Hz, among the rates the device
/// supports: `sr` itself if supported, else the closest greater rate, else the closest lesser
/// one; `None` for `sr == 0` (the device's default) or when no rate fits.
pub fn get_optimal_sr(sr: u32, supported_sr_list: &[u32]) -> (res: Option<u32>)
    ensures
        res == optimal_sr(sr, supported_sr_list@),
        sr > 0 && !supported_sr_list@.contains(sr) ==> match res {
            Some(r) => is_closest_greater(supported_sr_list@, sr, r) || (is_closest_less(supported_sr_list@, sr, r)
                && forall|i: int| 0 <= i < supported_sr_list@.len() ==> #[trigger] supported_sr_list@[i] <= sr
                    || supported_sr_list@[i] == u32::MAX),
            None => forall|i: int| 0 <= i < supported_sr_list@.len() ==> #[trigger] supported_sr_list@[i] == 0
                || supported_sr_list@[i] == u32::MAX,
        },
{
    let res = closest_supported_sr(sr, supported_sr_list);
    proof {
        lemma_optimal_sr(sr, supported_sr_list@, res);
    }
    res
}

fn closest_supported_sr(sr: u32, supported_sr_list: &[u32]) -> (res: Option<u32>)
    ensures
        sr == 0 ==> res is None,
        sr > 0 && supported_sr_list@.contains(sr) ==> res == Some(sr),
        sr > 0 && !supported_sr_list@.contains(sr) ==> match res {
            Some(r) => is_closest_greater(supported_sr_list@, sr, r) || (is_closest_less(supported_sr_list@, sr, r)
                && forall|i: int| 0 <= i < supported_sr_list@.len() ==> #[trigger] supported_sr_list@[i] <= sr
                    || supported_sr_list@[i] == u32::MAX),
            None => forall|i: int| 0 <= i < supported_sr_list@.len() ==> #[trigger] supported_sr_list@[i] == 0
                || supported_sr_list@[i] == u32::MAX,
        },
{
    if sr == 0 {
        return None;
    }
    let n = supported_sr_list.len();
    let mut k: usize = 0;
    while k < n
        invariant
            n == supported_sr_list@.len(),
            k <= n,
            sr > 0,
            forall|i: int| 0 <= i < k ==> #[trigger] supported_sr_list@[i] != sr,
        decreases n - k,
    {
        if supported_sr_list[k] == sr {
            proof {
                assert(supported_sr_list@[k as int] == sr);
                assert(supported_sr_list@.contains(sr));
            }
            return Some(sr);
        }
        k = k + 1;
    }
    proof {
        assert(!supported_sr_list@.contains(sr));
    }
    let mut closest_greater: u32 = u32::MAX;
    let mut closest_less: u32 = 0;
    let mut i: usize = 0;
    while i < n
        invariant
            n == supported_sr_list@.len(),
            i <= n,
            sr > 0,
            forall|j: int| 0 <= j < n ==> #[trigger] supported_sr_list@[j] != sr,
            closest_greater == u32::MAX || (supported_sr_list@.contains(closest_greater) && sr < closest_greater),
            forall|j: int| 0 <= j < i && sr < #[trigger] supported_sr_list@[j] ==> closest_greater <= supported_sr_list@[j],
            closest_less == 0 || (supported_sr_list@.contains(closest_less) && closest_less < sr),
            forall|j: int| 0 <= j < i && #[trigger] supported_sr_list@[j] < sr ==> supported_sr_list@[j] <= closest_less,
        decreases n - i,
    {
        let curr_sr = supported_sr_list[i];
        if curr_sr >= sr {
            if curr_sr - sr < closest_greater - sr {
                closest_greater = curr_sr;
            }
        } else if sr - curr_sr < sr - closest_less {
            closest_less = curr_sr;
        }
        proof {
            assert(supported_sr_list@.contains(supported_sr_list@[i as int]));
        }
        i = i + 1;
    }
    if closest_greater < u32::MAX {
        Some(closest_greater)
    } else if closest_less > 0 {
        Some(closest_less)
    } else {
        None
    }
}

/// What the choice of an output configuration reads of one range of configurations that the
/// output device offers.
#[derive(Clone, Copy, PartialEq, Eq, Debug)]
pub struct OutputConfigRange {
    pub channels: u16,
    pub min_sample_rate: u32,
    pub max_sample_rate: u32,
    /// whether its samples are 32-bit floats
    pub is_f32: bool,
    /// the least buffer size, where the device states one
    pub min_buffer_size: Option<u32>,
}

/// The configuration range to open the device with, and its sample rate.
#[derive(Clone, Copy, PartialEq, Eq, Debug)]
pub struct OutputChoice {
    /// index of the range among those offered
    pub config: usize,
    pub sample_rate: u32,
}

/// The rates asked for, as a sequence.
pub open spec fn rates_view(preferred: Option<Vec<u32>>) -> Option<Seq<u32>> {
    match preferred {
        Some(v) => Some(v@),
        None => None,
    }
}

/// The rates asked for, or 48 kHz then 44.1 kHz when none are.
pub open spec fn wanted_rates(preferred: Option<Seq<u32>>) -> Seq<u32> {
    match preferred {
        Some(rates) if rates.len() > 0 => rates,
        _ => seq![48000u32, 44100u32],
    }
}

/// How well the channel count suits: stereo best, then four channels, then others, then
/// mono, then none.
pub open spec fn channel_rank(channels: u16) -> int {
    if channels == 0 {
        0
    } else if channels == 1 {
        1
    } else if channels == 2 {
        4
    } else if channels == 4 {
        3
    } else {
        2
    }
}

/// How well a configuration range suits a player that wants `preferred` Hz.
pub open spec fn config_rank(c: OutputConfigRange, preferred: u32) -> int {
    channel_rank(c.channels) + (if c.min_sample_rate <= preferred { 3int } else { 0int }) + (if c.max_sample_rate
        >= preferred { 3int } else { 0int }) + (if c.is_f32 { 4int } else { 0int })
}

/// Range `i` ranks highest, and first among the highest.
pub open spec fn is_first_best(configs: Seq<OutputConfigRange>, preferred: u32, i: int) -> bool {
    &&& 0 <= i < configs.len()
    &&& forall|j: int| 0 <= j < configs.len() ==> config_rank(#[trigger] configs[j], preferred) <= config_rank(configs[i], preferred)
    &&& forall|j: int| 0 <= j < i ==> config_rank(#[trigger] configs[j], preferred) < config_rank(configs[i], preferred)
}

/// Rate `k` of `rates` is the first that lies in `[min, max)`.
pub open spec fn is_first_in_range(rates: Seq<u32>, min: u32, max: u32, k: int) -> bool {
    &&& 0 <= k < rates.len()
    &&& min <= rates[k] < max
    &&& forall|j: int| 0 <= j < k ==> !(min <= #[trigger] rates[j] < max)
}

/// The rate to open a range `[min, max)` with: the first wanted rate in it, else its upper end
/// if that is not above the first wanted rate, else its lower end.
pub open spec fn rate_for_range(rates: Seq<u32>, min: u32, max: u32, r: u32) -> bool {
    if exists|k: int| 0 <= k < rates.len() && min <= #[trigger] rates[k] < max {
        exists|k: int| is_first_in_range(rates, min, max, k) && r == rates[k]
    } else if max <= rates[0] {
        r == max
    } else {
        r == min
    }
}

/// Picks the configuration range to open the output device with, and its sample rate: the
/// range that ranks highest for the first wanted rate (the first such), opened at the first
/// wanted rate that it covers, else at its end nearest to the first wanted rate. `None` when the
/// device offers no range.
pub fn choose_output_config(configs: &[OutputConfigRange], preferred_sampling_rates: Option<Vec<u32>>) -> (res: Option<OutputChoice>)
    ensures
        configs@.len() == 0 <==> res is None,
        res matches Some(c) ==> {
            let rates = wanted_rates(rates_view(preferred_sampling_rates));
            &&& is_first_best(configs@, rates[0], c.config as int)
            &&& rate_for_range(rates, configs@[c.config as int].min_sample_rate, configs@[c.config as int].max_sample_rate, c.sample_rate)
        },
{
    let ghost pref_view = rates_view(preferred_sampling_rates);
    let rates: Vec<u32> = match preferred_sampling_rates {
        Some(v) if v.len() > 0 => v,
        _ => vec![48000u32, 44100u32],
    };
    assert(rates@ == wanted_rates(pref_view));
    let n = configs.len();
    if n == 0 {
        return None;
    }
    let preferred = rates[0];
    let mut best: usize = 0;
    let mut best_rank: u32 = rank_of(&configs[0], preferred);
    let mut i: usize = 1;
    while i < n
        invariant
            n == configs@.len(),
            1 <= i <= n,
            best < i,
            best_rank == config_rank(configs@[best as int], preferred),
            forall|j: int| 0 <= j < i ==> config_rank(#[trigger] configs@[j], preferred) <= best_rank,
            forall|j: int| 0 <= j < best ==> config_rank(#[trigger] configs@[j], preferred) < best_rank,
        decreases n - i,
    {
        let r = rank_of(&configs[i], preferred);
        if r > best_rank {
            best = i;
            best_rank = r;
        }
        i = i + 1;
    }
    assert(is_first_best(configs@, preferred, best as int));
    let chosen = configs[best];
    let min = chosen.min_sample_rate;
    let max = chosen.max_sample_rate;
    let m = rates.len();
    let mut k: usize = 0;
    while k < m
        invariant
            n == configs@.len(),
            n > 0,
            is_first_best(configs@, preferred, best as int),
            preferred == rates@[0],
            rates@ == wanted_rates(pref_view),
            pref_view == rates_view(preferred_sampling_rates),
            min == configs@[best as int].min_sample_rate,
            max == configs@[best as int].max_sample_rate,
            m == rates@.len(),
            k <= m,
            forall|j: int| 0 <= j < k ==> !(min <= #[trigger] rates@[j] < max),
        decreases m - k,
    {
        if min <= rates[k] && rates[k] < max {
            assert(is_first_in_range(rates@, min, max, k as int));
            assert(min <= rates@[k as int] < max);
            assert(rate_for_range(rates@, min, max, rates@[k as int]));
            return Some(OutputChoice { config: best, sample_rate: rates[k] });
        }
        k = k + 1;
    }
    let sample_rate = if max <= preferred { max } else { min };
    Some(OutputChoice { config: best, sample_rate })
}

fn rank_of(c: &OutputConfigRange, preferred: u32) -> (r: u32)
    ensures
        r == config_rank(*c, preferred),
{
    let channel: u32 = if c.channels == 0 {
        0
    } else if c.channels == 1 {
        1
    } else if c.channels == 2 {
        4
    } else if c.channels == 4 {
        3
    } else {
        2
    };
    let low: u32 = if c.min_sample_rate <= preferred { 3 } else { 0 };
    let high: u32 = if c.max_sample_rate >= preferred { 3 } else { 0 };
    let format: u32 = if c.is_f32 { 4 } else { 0 };
    channel + low + high + format
}

/// The buffer size (in frames) to open the device with: twice the least size it states, but at
/// least 1024, or 2048 where it states none.
pub fn output_buffer_size(min_buffer_size: Option<u32>) -> (r: u32)
    requires
        min_buffer_size matches Some(m) ==> m <= u32::MAX / 2,
    ensures
        r == match min_buffer_size {
            Some(m) => 2 * (if m > 1024 { m } else { 1024 }),
            None => 2048,
        },
{
    match min_buffer_size {
        Some(m) => (if m > 1024 { m } else { 1024 }) * 2,
        None => 1024 * 2,
    }
}

/// The rate the mixer is opened at when no rate is asked for.
pub const DEFAULT_SR: u32 = 48000;

/// The optimal rate as a function: `sr` if supported, else the closest greater rate (short of
/// `u32::MAX`), else the closest lesser nonzero one; `None` for `sr == 0` or when none fits.
pub open spec fn optimal_sr(sr: u32, list: Seq<u32>) -> Option<u32> {
    if sr == 0 {
        None
    } else if list.contains(sr) {
        Some(sr)
    } else if exists|g: u32| is_closest_greater(list, sr, g) {
        Some(choose|g: u32| is_closest_greater(list, sr, g))
    } else if exists|l: u32| is_closest_less(list, sr, l) {
        Some(choose|l: u32| is_closest_less(list, sr, l))
    } else {
        None
    }
}

proof fn lemma_optimal_sr(sr: u32, list: Seq<u32>, res: Option<u32>)
    requires
        sr == 0 ==> res is None,
        sr > 0 && list.contains(sr) ==> res == Some(sr),
        sr > 0 && !list.contains(sr) ==> match res {
            Some(r) => is_closest_greater(list, sr, r) || (is_closest_less(list, sr, r)
                && forall|i: int| 0 <= i < list.len() ==> #[trigger] list[i] <= sr
                    || list[i] == u32::MAX),
            None => forall|i: int| 0 <= i < list.len() ==> #[trigger] list[i] == 0
                || list[i] == u32::MAX,
        },
    ensures
        res == optimal_sr(sr, list),
{
    if sr > 0 && !list.contains(sr) {
        if exists|g: u32| is_closest_greater(list, sr, g) {
            let g = choose|g: u32| is_closest_greater(list, sr, g);
            let ig = choose|i: int| 0 <= i < list.len() && list[i] == g;
            match res {
                Some(r) => {
                    if is_closest_greater(list, sr, r) {
                        let ir = choose|i: int| 0 <= i < list.len() && list[i] == r;
                        assert(list[ir] == r);
                        assert(list[ig] == g);
                    } else {
                        assert(list[ig] == g);
                    }
                },
                None => {
                    assert(list[ig] == g);
                },
            }
        } else if exists|l: u32| is_closest_less(list, sr, l) {
            let l = choose|l: u32| is_closest_less(list, sr, l);
            let il = choose|i: int| 0 <= i < list.len() && list[i] == l;
            match res {
                Some(r) => {
                    assert(!is_closest_greater(list, sr, r));
                    let ir = choose|i: int| 0 <= i < list.len() && list[i] == r;
                    assert(list[ir] == r);
                    assert(list[il] == l);
                },
                None => {
                    assert(list[il] == l);
                },
            }
        } else {
            match res {
                Some(r) => {
                    assert(!is_closest_greater(list, sr, r));
                    assert(!is_closest_less(list, sr, r));
                },
                None => {},
            }
        }
    }
}

/// What the player's loop is to do with the output device.
#[derive(Clone, Copy, PartialEq, Eq, Debug)]
pub enum DeviceAction {
    /// leave the mixer as it is
    Keep,
    /// ask the device which rates it supports, for a request of this many Hz
    QueryRates(u32),
    /// open the mixer anew at this rate; on the current default device when `change_device`
    OpenMixer { sr: u32, change_device: bool },
}

/// What the player's loop keeps besides the device: the rate the mixer was opened at and the
/// track that plays.
#[derive(Clone, Copy, PartialEq, Eq, Debug)]
pub struct PlayerControl {
    pub current_sr: u32,
    pub current_track_id: usize,
}

impl PlayerControl {
    /// The state of a loop that has just opened the mixer at the default rate.
    pub fn new() -> (res: Self)
        ensures
            res.current_sr == DEFAULT_SR,
            res.current_track_id == 0,
    {
        PlayerControl { current_sr: DEFAULT_SR, current_track_id: 0 }
    }

    /// The front end was refreshed: the mixer is opened anew at the default rate on the
    /// current default device.
    pub fn initialize(&mut self) -> (action: DeviceAction)
        ensures
            action == (DeviceAction::OpenMixer { sr: DEFAULT_SR, change_device: true }),
            final(self).current_sr == DEFAULT_SR,
            final(self).current_track_id == old(self).current_track_id,
    {
        self.current_sr = DEFAULT_SR;
        DeviceAction::OpenMixer { sr: DEFAULT_SR, change_device: true }
    }

    /// A rate of `sr` Hz was asked for: nothing changes when the mixer runs at it already; a
    /// request of 0 Hz asks for no rate in particular, so the mixer is opened anew at the
    /// default rate without asking the device; else the device is asked which rates it supports.
    pub fn request_sr(&mut self, sr: u32) -> (action: DeviceAction)
        ensures
            sr == old(self).current_sr ==> action == DeviceAction::Keep && *final(self) == *old(self),
            sr != old(self).current_sr && sr == 0 ==> {
                &&& action == (DeviceAction::OpenMixer { sr: DEFAULT_SR, change_device: false })
                &&& final(self).current_sr == DEFAULT_SR
                &&& final(self).current_track_id == old(self).current_track_id
            },
            sr != old(self).current_sr && sr != 0 ==> action == DeviceAction::QueryRates(sr)
                && *final(self) == *old(self),
    {
        if sr == self.current_sr {
            DeviceAction::Keep
        } else if sr == 0 {
            self.current_sr = DEFAULT_SR;
            DeviceAction::OpenMixer { sr: DEFAULT_SR, change_device: false }
        } else {
            DeviceAction::QueryRates(sr)
        }
    }

    /// The device supports `supported_sr_list` and `requested` Hz was asked for: the mixer is
    /// opened anew at the optimal rate (the default when none fits), unless it runs at that
    /// rate already.
    pub fn rates_known(&mut self, requested: u32, supported_sr_list: &[u32]) -> (action: DeviceAction)
        ensures
            optimal_sr(requested, supported_sr_list@) == Some(old(self).current_sr) ==> action == DeviceAction::Keep
                && *final(self) == *old(self),
            optimal_sr(requested, supported_sr_list@) != Some(old(self).current_sr) ==> {
                let sr = match optimal_sr(requested, supported_sr_list@) { Some(r) => r, None => DEFAULT_SR };
                &&& action == (DeviceAction::OpenMixer { sr, change_device: false })
                &&& final(self).current_sr == sr
                &&& final(self).current_track_id == old(self).current_track_id
            },
    {
        let opt = get_optimal_sr(requested, supported_sr_list);
        proof {
            lemma_optimal_sr(requested, supported_sr_list@, opt);
        }
        match opt {
            Some(sr) if sr == self.current_sr => DeviceAction::Keep,
            _ => {
                let sr = match opt {
                    Some(r) => r,
                    None => DEFAULT_SR,
                };
                self.current_sr = sr;
                DeviceAction::OpenMixer { sr, change_device: false }
            },
        }
    }

    /// The default output device changed to one that supports `supported_sr_list`: the mixer
    /// is opened on it at the optimal rate for the current one (the default when none fits),
    /// and the current track is to be played again.
    pub fn device_changed(&mut self, supported_sr_list: &[u32]) -> (action: DeviceAction)
        ensures
            ({
                let sr = match optimal_sr(old(self).current_sr, supported_sr_list@) { Some(r) => r, None => DEFAULT_SR };
                &&& action == (DeviceAction::OpenMixer { sr, change_device: true })
                &&& final(self).current_sr == sr
                &&& final(self).current_track_id == old(self).current_track_id
            }),
    {
        let opt = get_optimal_sr(self.current_sr, supported_sr_list);
        proof {
            lemma_optimal_sr(self.current_sr, supported_sr_list@, opt);
        }
        let sr = match opt {
            Some(r) => r,
            None => DEFAULT_SR,
        };
        self.current_sr = sr;
        DeviceAction::OpenMixer { sr, change_device: true }
    }

    /// The track to play for a request naming `track_id`, or the current one when it names none.
    pub fn track_to_play(&self, track_id: Option<usize>) -> (id: usize)
        ensures
            id == match track_id { Some(t) => t, None => self.current_track_id },
    {
        match track_id {
            Some(t) => t,
            None => self.current_track_id,
        }
    }

    /// Track `track_id` was found and now plays.
    pub fn track_started(&mut self, track_id: usize)
        ensures
            final(self).current_track_id == track_id,
            final(self).current_sr == old(self).current_sr,
    {
        self.current_track_id = track_id;
    }
}

/// What a seek does to the sound.
#[derive(Clone, Copy, PartialEq, Eq, Debug)]
pub enum SeekAction {
    /// the player is in error: nothing happens
    Ignore,
    /// the sound ended while playing: the current track is played again from the new position
    Replay,
    /// the sound moves to the new position
    MoveSound,
}

/// What a seek does, given whether the player's last report was a state (not an error), whether
/// it was playing, and whether the mixer has run out of sound.
pub fn seek_action(state_ok: bool, is_playing: bool, mixer_finished: bool) -> (a: SeekAction)
    ensures
        a == if !state_ok {
            SeekAction::Ignore
        } else if is_playing && mixer_finished {
            SeekAction::Replay
        } else {
            SeekAction::MoveSound
        },
{
    if !state_ok {
        SeekAction::Ignore
    } else if is_playing && mixer_finished {
        SeekAction::Replay
    } else {
        SeekAction::MoveSound
    }
}

/// Where the position reported on an idle tick comes from.
#[derive(Clone, Copy, PartialEq, Eq, Debug)]
pub enum PositionSource {
    /// the sound's own position
    Sound,
    /// the end of the longest track
    End,
    /// the last reported position moved on by the time since
    Extrapolated,
    /// the last reported position
    Previous,
}

/// The state reported on an idle tick.
#[derive(Clone, Copy, PartialEq, Eq, Debug)]
pub struct TickReport {
    pub is_playing: bool,
    pub position: PositionSource,
}

/// The state reported on an idle tick, from the last report: while the mixer has sound, the
/// sound's position; once it ran out, the end of the longest track if the moved-on position
/// reached it (`reached_end`), else the moved-on position while playing, else the last one.
pub fn tick_report(was_playing: bool, mixer_finished: bool, reached_end: bool) -> (r: TickReport)
    ensures
        r == if !mixer_finished {
            TickReport { is_playing: was_playing, position: PositionSource::Sound }
        } else if reached_end {
            TickReport { is_playing: false, position: PositionSource::End }
        } else if was_playing {
            TickReport { is_playing: true, position: PositionSource::Extrapolated }
        } else {
            TickReport { is_playing: false, position: PositionSource::Previous }
        },
{
    if !mixer_finished {
        TickReport { is_playing: was_playing, position: PositionSource::Sound }
    } else if reached_end {
        TickReport { is_playing: false, position: PositionSource::End }
    } else if was_playing {
        TickReport { is_playing: true, position: PositionSource::Extrapolated }
    } else {
        TickReport { is_playing: false, position: PositionSource::Previous }
    }
}

} // verus!
