//! Bookkeeping of the image manager: which drawing request is the latest, which channels can be
//! served from cached images, and how a cached image is cropped to the visible window.

use vstd::prelude::*;

use crate::slice::{calc_effective_slice, spec_effective_slice};

verus! {

/// Half of the id range: how far ahead of another a request id may wrap and still count as later.
pub open spec fn half_range() -> int {
    usize::MAX as int / 2
}

/// Whether `x` wraps around when half the id range is added to it.
pub open spec fn skip_wraps(x: usize) -> bool {
    x + half_range() > usize::MAX
}

/// `x` plus half the id range, wrapping around.
pub open spec fn big_skip(x: usize) -> int {
    if skip_wraps(x) {
        x + half_range() - (usize::MAX + 1)
    } else {
        x + half_range()
    }
}

/// Whether request id `a` counts as equal to or later than `b`, ids being taken modulo the id range.
pub open spec fn spec_slightly_larger(a: usize, b: usize) -> bool {
    ||| a == b
    ||| skip_wraps(a) == skip_wraps(b) && b < a
    ||| skip_wraps(a) && !skip_wraps(b) && big_skip(a) < b
    ||| !skip_wraps(a) && skip_wraps(b) && a < big_skip(b)
}

/// How many increments, modulo the id range, lead from id `from` to id `to`.
pub open spec fn steps_between(from: usize, to: usize) -> int {
    if from <= to {
        to - from
    } else {
        to - from + usize::MAX + 1
    }
}

/// Whether request id `a` is equal to or slightly later than `b`, ids counting up with wrap-around.
pub fn slightly_larger_than_or_equal_to(a: usize, b: usize) -> (r: bool)
    ensures
        r == spec_slightly_larger(a, b),
{
    let half: usize = usize::MAX / 2;
    let other_big_skip = b.wrapping_add(half);
    let other_wrapped = other_big_skip < b;
    let self_big_skip = a.wrapping_add(half);
    let self_wrapped = self_big_skip < a;
    a == b || (self_wrapped == other_wrapped) && b < a || self_wrapped && !other_wrapped
        && self_big_skip < b || !self_wrapped && other_wrapped && a < other_big_skip
}

/// An id reached from `b` by fewer than half the id range of increments counts as later than or
/// equal to `b`; an id from which `b` is reached by one up to half the id range of increments
/// does not.
pub proof fn law_request_order(a: usize, b: usize)
    ensures
        steps_between(b, a) < half_range() ==> spec_slightly_larger(a, b),
        1 <= steps_between(a, b) <= half_range() ==> !spec_slightly_larger(a, b),
{
    assert(usize::MAX == 0xffff_ffff || usize::MAX == 0xffff_ffff_ffff_ffff);
}

/// The id and the position of the payload kept after a run of replies with ids `ids` came in,
/// the latest id so far being `recent`: each reply whose id is equal to or later than the latest
/// so far replaces it.
pub open spec fn latest_reply(recent: usize, ids: Seq<usize>) -> (usize, Option<int>)
    decreases ids.len(),
{
    if ids.len() == 0 {
        (recent, None)
    } else {
        let prev = latest_reply(recent, ids.drop_last());
        if spec_slightly_larger(ids.last(), prev.0) {
            (ids.last(), Some(ids.len() - 1))
        } else {
            prev
        }
    }
}

/// The ids of a run of replies.
pub open spec fn reply_ids<T>(replies: Seq<(usize, T)>) -> Seq<usize> {
    Seq::new(replies.len(), |i: int| replies[i].0)
}

/// Of the replies that came in, in order, the payload of the latest request, with the latest
/// request id seen; `recent_req_id` is the latest id seen before.
pub fn select_latest<T>(recent_req_id: usize, replies: Vec<(usize, T)>) -> (res: (usize, Option<T>))
    ensures
        res.0 == latest_reply(recent_req_id, reply_ids(replies@)).0,
        match latest_reply(recent_req_id, reply_ids(replies@)).1 {
            Some(i) => 0 <= i < replies@.len() && res.1 == Some(replies@[i].1),
            None => res.1 is None,
        },
{
    let ghost ids = reply_ids(replies@);
    let mut max_req_id = recent_req_id;
    let mut chosen: Option<usize> = None;
    let n = replies.len();
    let mut i: usize = 0;
    while i < n
        invariant
            n == replies@.len(),
            ids == reply_ids(replies@),
            i <= n,
            latest_reply(recent_req_id, ids.take(i as int)).0 == max_req_id,
            match latest_reply(recent_req_id, ids.take(i as int)).1 {
                Some(k) => chosen == Some(k as usize) && 0 <= k < i,
                None => chosen is None,
            },
        decreases n - i,
    {
        proof {
            assert(ids.take(i + 1).drop_last() =~= ids.take(i as int));
        }
        let curr_req_id = replies[i].0;
        if slightly_larger_than_or_equal_to(curr_req_id, max_req_id) {
            max_req_id = curr_req_id;
            chosen = Some(i);
        }
        i = i + 1;
    }
    proof {
        assert(ids.take(n as int) =~= ids);
    }
    match chosen {
        Some(k) => {
            let mut replies = replies;
            let (_, payload) = replies.swap_remove(k);
            (max_req_id, Some(payload))
        },
        None => (max_req_id, None),
    }
}

/// Replies that come in the order of their requests keep the payload of the last one: when
/// each id comes fewer than half the id range of increments after the one before it (the
/// first after the latest id seen), the last reply wins.
pub proof fn law_latest_reply_in_order(recent: usize, ids: Seq<usize>)
    requires
        ids.len() > 0,
        steps_between(recent, ids[0]) < half_range(),
        forall|i: int| 0 < i < ids.len() ==> steps_between(ids[i - 1], #[trigger] ids[i]) < half_range(),
    ensures
        latest_reply(recent, ids) == (ids.last(), Some(ids.len() - 1)),
    decreases ids.len(),
{
    if ids.len() == 1 {
        law_request_order(ids[0], recent);
        assert(ids.drop_last().len() == 0);
        assert(ids.last() == ids[0]);
        assert(latest_reply(recent, ids.drop_last()) == (recent, None::<int>));
        assert(spec_slightly_larger(ids.last(), recent));
    } else {
        let rest = ids.drop_last();
        assert forall|i: int| 0 < i < rest.len() implies steps_between(rest[i - 1], #[trigger] rest[i]) < half_range() by {
            assert(ids[i] == rest[i]);
        }
        law_latest_reply_in_order(recent, rest);
        let n = ids.len() as int;
        assert(steps_between(ids[n - 2], ids[n - 1]) < half_range());
        law_request_order(ids[n - 1], ids[n - 2]);
        assert(rest.last() == ids[n - 2]);
        assert(ids.last() == ids[n - 1]);
        assert(latest_reply(recent, rest).0 == ids[n - 2]);
        assert(spec_slightly_larger(ids.last(), latest_reply(recent, rest).0));
    }
}

/// Images wider than this (in pixels) are never kept whole in the cache.
pub const MAX_IMG_CACHE_WIDTH: u32 = 16384;

/// The channels of a drawing request, sorted by what one kind of image (spectrogram or
/// waveform) needs for them.
pub struct CategorizedIdChVec {
    /// channels whose image is cached
    pub use_caches: Vec<(usize, usize)>,
    /// channels whose visible part must be drawn
    pub need_parts: Vec<(usize, usize)>,
    /// channels whose whole image is to be drawn and cached
    pub need_new_caches: Vec<(usize, usize)>,
}

impl View for CategorizedIdChVec {
    type V = (Seq<(usize, usize)>, Seq<(usize, usize)>, Seq<(usize, usize)>);

    open spec fn view(&self) -> Self::V {
        (self.use_caches@, self.need_parts@, self.need_new_caches@)
    }
}

/// The items of `items` whose flag in `keep` is set, in order.
pub open spec fn select<T>(items: Seq<T>, keep: Seq<bool>) -> Seq<T>
    decreases items.len(),
{
    if items.len() == 0 {
        Seq::empty()
    } else if keep[items.len() - 1] {
        select(items.drop_last(), keep).push(items.last())
    } else {
        select(items.drop_last(), keep)
    }
}

/// The negation of each flag.
pub open spec fn negate(flags: Seq<bool>) -> Seq<bool> {
    Seq::new(flags.len(), |i: int| !flags[i])
}

/// Flags of the channels that have no cached image and are narrow enough to be cached.
pub open spec fn cacheable(cached: Seq<bool>, total_widths: Seq<u32>) -> Seq<bool> {
    Seq::new(cached.len(), |i: int| !cached[i] && total_widths[i] <= MAX_IMG_CACHE_WIDTH)
}

/// One kind of image: the channels with a cached image, those without, and those without that
/// can be cached; nothing when that kind is not drawn.
pub open spec fn categorize_one(
    id_chs: Seq<(usize, usize)>,
    total_widths: Seq<u32>,
    cached: Seq<bool>,
    drawn: bool,
) -> (Seq<(usize, usize)>, Seq<(usize, usize)>, Seq<(usize, usize)>) {
    if drawn {
        (
            select(id_chs, cached),
            select(id_chs, negate(cached)),
            select(id_chs, cacheable(cached, total_widths)),
        )
    } else {
        (Seq::empty(), Seq::empty(), Seq::empty())
    }
}

/// Walking the channels with a cached spectrogram (`spec_use`) beside those with a cached
/// waveform (`wav_use`), the channels for which only the visible waveform part is drawn: each
/// spectrogram channel that is not the next waveform channel.
pub open spec fn wav_parts_only(spec_use: Seq<(usize, usize)>, wav_use: Seq<(usize, usize)>) -> Seq<(usize, usize)>
    decreases spec_use.len(),
{
    if spec_use.len() == 0 {
        Seq::empty()
    } else if wav_use.len() > 0 && spec_use[0] == wav_use[0] {
        wav_parts_only(spec_use.drop_first(), wav_use.drop_first())
    } else {
        seq![spec_use[0]] + wav_parts_only(spec_use.drop_first(), wav_use)
    }
}

/// `s` without the first occurrence of `x`, if any.
pub open spec fn remove_first<T>(s: Seq<T>, x: T) -> Seq<T>
    decreases s.len(),
{
    if s.len() == 0 {
        s
    } else if s[0] == x {
        s.drop_first()
    } else {
        seq![s[0]] + remove_first(s.drop_first(), x)
    }
}

/// `s` without the first occurrence of each item of `xs`, taken in order.
pub open spec fn remove_each<T>(s: Seq<T>, xs: Seq<T>) -> Seq<T>
    decreases xs.len(),
{
    if xs.len() == 0 {
        s
    } else {
        remove_first(remove_each(s, xs.drop_last()), xs.last())
    }
}

/// The spectrogram categories, the waveform categories and the channels for which only the
/// waveform part is drawn, for a request whose channels are `id_chs`.
pub open spec fn spec_categorize(
    id_chs: Seq<(usize, usize)>,
    total_widths: Seq<u32>,
    spec_cached: Seq<bool>,
    wav_cached: Seq<bool>,
    draw_spec: bool,
    draw_wav: bool,
) -> ((Seq<(usize, usize)>, Seq<(usize, usize)>, Seq<(usize, usize)>), (Seq<(usize, usize)>, Seq<(usize, usize)>, Seq<(usize, usize)>), Seq<(usize, usize)>) {
    let by_spec = categorize_one(id_chs, total_widths, spec_cached, draw_spec);
    let by_wav = categorize_one(id_chs, total_widths, wav_cached, draw_wav);
    let only = wav_parts_only(by_spec.0, by_wav.0);
    (by_spec, (by_wav.0, remove_each(by_wav.1, only), by_wav.2), only)
}

/// Whether the two lists of channels whose parts are drawn can be drawn together: one of them
/// is empty or both are as long.
pub open spec fn parts_agree(
    id_chs: Seq<(usize, usize)>,
    total_widths: Seq<u32>,
    spec_cached: Seq<bool>,
    wav_cached: Seq<bool>,
    draw_spec: bool,
    draw_wav: bool,
) -> bool {
    let c = spec_categorize(id_chs, total_widths, spec_cached, wav_cached, draw_spec, draw_wav);
    c.0.1.len() == 0 || c.1.1.len() == 0 || c.0.1.len() == c.1.1.len()
}

proof fn lemma_select_step<T>(items: Seq<T>, keep: Seq<bool>, i: int)
    requires
        0 <= i < items.len(),
        items.len() <= keep.len(),
    ensures
        select(items.take(i + 1), keep) == if keep[i] {
            select(items.take(i), keep).push(items[i])
        } else {
            select(items.take(i), keep)
        },
{
    assert(items.take(i + 1).drop_last() =~= items.take(i));
}

fn categorize_one_exec(
    id_ch_tuples: &[(usize, usize)],
    total_widths: &[u32],
    cached: &[bool],
) -> (res: CategorizedIdChVec)
    requires
        total_widths@.len() == id_ch_tuples@.len(),
        cached@.len() == id_ch_tuples@.len(),
    ensures
        res@ == categorize_one(id_ch_tuples@, total_widths@, cached@, true),
{
    let ghost neg = negate(cached@);
    let ghost new = cacheable(cached@, total_widths@);
    let mut result = CategorizedIdChVec { use_caches: Vec::new(), need_parts: Vec::new(), need_new_caches: Vec::new() };
    let n = id_ch_tuples.len();
    let mut i: usize = 0;
    while i < n
        invariant
            n == id_ch_tuples@.len(),
            total_widths@.len() == n,
            cached@.len() == n,
            neg == negate(cached@),
            new == cacheable(cached@, total_widths@),
            i <= n,
            result.use_caches@ == select(id_ch_tuples@.take(i as int), cached@),
            result.need_parts@ == select(id_ch_tuples@.take(i as int), neg),
            result.need_new_caches@ == select(id_ch_tuples@.take(i as int), new),
        decreases n - i,
    {
        proof {
            lemma_select_step(id_ch_tuples@, cached@, i as int);
            lemma_select_step(id_ch_tuples@, neg, i as int);
            lemma_select_step(id_ch_tuples@, new, i as int);
        }
        let tup = id_ch_tuples[i];
        let not_long_w = total_widths[i] <= MAX_IMG_CACHE_WIDTH;
        if cached[i] {
            result.use_caches.push(tup);
        } else if not_long_w {
            result.need_parts.push(tup);
            result.need_new_caches.push(tup);
        } else {
            result.need_parts.push(tup);
        }
        i = i + 1;
    }
    proof {
        assert(id_ch_tuples@.take(n as int) =~= id_ch_tuples@);
    }
    result
}

/// Sorting by one kind of image loses no channel and adds none: each channel of the request
/// is either served from its cached image or drawn in part, and those to be cached are among
/// those drawn in part.
pub proof fn law_categories_partition(id_chs: Seq<(usize, usize)>, total_widths: Seq<u32>, cached: Seq<bool>)
    requires
        total_widths.len() == id_chs.len(),
        cached.len() == id_chs.len(),
    ensures
        ({
            let c = categorize_one(id_chs, total_widths, cached, true);
            &&& c.0.to_multiset().add(c.1.to_multiset()) =~= id_chs.to_multiset()
            &&& c.2.to_multiset().subset_of(c.1.to_multiset())
        }),
{
    lemma_select_partition(id_chs, cached, total_widths, id_chs.len() as int);
    assert(id_chs.take(id_chs.len() as int) =~= id_chs);
}

proof fn lemma_select_partition(t: Seq<(usize, usize)>, cached: Seq<bool>, widths: Seq<u32>, n: int)
    requires
        widths.len() == t.len(),
        cached.len() == t.len(),
        0 <= n <= t.len(),
    ensures
        select(t.take(n), cached).to_multiset().add(select(t.take(n), negate(cached)).to_multiset()) =~= t.take(n).to_multiset(),
        select(t.take(n), cacheable(cached, widths)).to_multiset().subset_of(select(t.take(n), negate(cached)).to_multiset()),
    decreases n,
{
    broadcast use vstd::seq_lib::group_to_multiset_ensures;
    broadcast use vstd::multiset::group_multiset_axioms;
    if n == 0 {
        assert(t.take(0) =~= Seq::<(usize, usize)>::empty());
        assert(select(t.take(0), cached) =~= Seq::<(usize, usize)>::empty());
        assert(select(t.take(0), negate(cached)) =~= Seq::<(usize, usize)>::empty());
        assert(select(t.take(0), cacheable(cached, widths)) =~= Seq::<(usize, usize)>::empty());
    } else {
        lemma_select_partition(t, cached, widths, n - 1);
        lemma_select_step(t, cached, n - 1);
        lemma_select_step(t, negate(cached), n - 1);
        lemma_select_step(t, cacheable(cached, widths), n - 1);
        assert(t.take(n) =~= t.take(n - 1).push(t[n - 1]));
    }
}

fn same_id_ch(a: (usize, usize), b: (usize, usize)) -> (r: bool)
    ensures
        r == (a == b),
{
    a.0 == b.0 && a.1 == b.1
}

proof fn lemma_remove_first_at<T>(s: Seq<T>, x: T, k: int)
    requires
        0 <= k <= s.len(),
        forall|j: int| 0 <= j < k ==> s[j] != x,
        k < s.len() ==> s[k] == x,
    ensures
        remove_first(s, x) == if k < s.len() { s.remove(k) } else { s },
    decreases s.len(),
{
    if s.len() == 0 {
    } else if s[0] == x {
        assert(s.drop_first() =~= s.remove(0));
    } else {
        lemma_remove_first_at(s.drop_first(), x, k - 1);
        if k < s.len() {
            assert(seq![s[0]] + s.drop_first().remove(k - 1) =~= s.remove(k));
        } else {
            assert(seq![s[0]] + s.drop_first() =~= s);
        }
    }
}

fn remove_first_exec(v: &mut Vec<(usize, usize)>, x: (usize, usize))
    ensures
        final(v)@ == remove_first(old(v)@, x),
{
    let n = v.len();
    let mut k: usize = 0;
    while k < n
        invariant
            n == v@.len(),
            v@ == old(v)@,
            k <= n,
            forall|j: int| 0 <= j < k ==> v@[j] != x,
        decreases n - k,
    {
        if same_id_ch(v[k], x) {
            proof {
                lemma_remove_first_at(v@, x, k as int);
            }
            v.remove(k);
            return;
        }
        k = k + 1;
    }
    proof {
        lemma_remove_first_at(v@, x, n as int);
    }
}

fn categorize_unchecked(
    id_ch_tuples: &[(usize, usize)],
    total_widths: &[u32],
    spec_cached: &[bool],
    wav_cached: &[bool],
    draw_spec: bool,
    draw_wav: bool,
) -> (res: (CategorizedIdChVec, CategorizedIdChVec, Vec<(usize, usize)>))
    requires
        total_widths@.len() == id_ch_tuples@.len(),
        spec_cached@.len() == id_ch_tuples@.len(),
        wav_cached@.len() == id_ch_tuples@.len(),
    ensures
        (res.0@, res.1@, res.2@) == spec_categorize(
            id_ch_tuples@, total_widths@, spec_cached@, wav_cached@, draw_spec, draw_wav),
{
    let cat_by_spec = if draw_spec {
        categorize_one_exec(id_ch_tuples, total_widths, spec_cached)
    } else {
        CategorizedIdChVec { use_caches: Vec::new(), need_parts: Vec::new(), need_new_caches: Vec::new() }
    };
    let mut cat_by_wav = if draw_wav {
        categorize_one_exec(id_ch_tuples, total_widths, wav_cached)
    } else {
        CategorizedIdChVec { use_caches: Vec::new(), need_parts: Vec::new(), need_new_caches: Vec::new() }
    };
    let ghost s = cat_by_spec.use_caches@;
    let ghost w = cat_by_wav.use_caches@;
    let ghost need0 = cat_by_wav.need_parts@;
    let ghost new0 = cat_by_wav.need_new_caches@;
    assert(cat_by_spec@ == categorize_one(id_ch_tuples@, total_widths@, spec_cached@, draw_spec));
    assert(cat_by_wav@ == categorize_one(id_ch_tuples@, total_widths@, wav_cached@, draw_wav));
    let mut need_wav_parts_only: Vec<(usize, usize)> = Vec::new();
    let n = cat_by_spec.use_caches.len();
    let m = cat_by_wav.use_caches.len();
    let mut i: usize = 0;
    let mut j: usize = 0;
    proof {
        assert(s.skip(0) =~= s);
        assert(w.skip(0) =~= w);
        assert(Seq::<(usize, usize)>::empty() + wav_parts_only(s, w) =~= wav_parts_only(s, w));
        assert(remove_each(need0, Seq::<(usize, usize)>::empty()) == need0);
    }
    while i < n
        invariant
            n == s.len(),
            m == w.len(),
            s == cat_by_spec.use_caches@,
            w == cat_by_wav.use_caches@,
            i <= n,
            j <= m,
            need_wav_parts_only@ + wav_parts_only(s.skip(i as int), w.skip(j as int)) == wav_parts_only(s, w),
            cat_by_wav.need_parts@ == remove_each(need0, need_wav_parts_only@),
            cat_by_wav.need_new_caches@ == new0,
        decreases n - i,
    {
        proof {
            assert(s.skip(i as int).drop_first() =~= s.skip(i + 1));
            if j < m {
                assert(w.skip(j as int).drop_first() =~= w.skip(j + 1));
            }
        }
        if j < m && same_id_ch(cat_by_spec.use_caches[i], cat_by_wav.use_caches[j]) {
            i = i + 1;
            j = j + 1;
        } else {
            let x = cat_by_spec.use_caches[i];
            proof {
                let old_only = need_wav_parts_only@;
                assert(old_only.push(x).drop_last() =~= old_only);
                assert(old_only.push(x) + wav_parts_only(s.skip(i + 1), w.skip(j as int))
                    =~= old_only + (seq![x] + wav_parts_only(s.skip(i + 1), w.skip(j as int))));
            }
            need_wav_parts_only.push(x);
            remove_first_exec(&mut cat_by_wav.need_parts, x);
            i = i + 1;
        }
    }
    proof {
        assert(s.skip(i as int).len() == 0);
        assert(wav_parts_only(s.skip(i as int), w.skip(j as int)) =~= Seq::<(usize, usize)>::empty());
        assert(need_wav_parts_only@ + Seq::<(usize, usize)>::empty() =~= need_wav_parts_only@);
        assert(s == categorize_one(id_ch_tuples@, total_widths@, spec_cached@, draw_spec).0);
    }
    (cat_by_spec, cat_by_wav, need_wav_parts_only)
}

/// Sorts the channels of a drawing request by what the spectrogram and the waveform need: for
/// each kind that is drawn (`draw_spec`, `draw_wav`), the channels with a cached image, those
/// without, and those without that are narrow enough to be cached; and the channels with a
/// cached spectrogram for which only the waveform part is drawn, which leave the waveform's list
/// of parts. Entry `i` of `total_widths`, `spec_cached` and `wav_cached` belongs to channel `i`.
pub fn categorize_id_ch(
    id_ch_tuples: &[(usize, usize)],
    total_widths: &[u32],
    spec_cached: &[bool],
    wav_cached: &[bool],
    draw_spec: bool,
    draw_wav: bool,
) -> (res: (CategorizedIdChVec, CategorizedIdChVec, Vec<(usize, usize)>))
    requires
        total_widths@.len() == id_ch_tuples@.len(),
        spec_cached@.len() == id_ch_tuples@.len(),
        wav_cached@.len() == id_ch_tuples@.len(),
        parts_agree(id_ch_tuples@, total_widths@, spec_cached@, wav_cached@, draw_spec, draw_wav),
    ensures
        (res.0@, res.1@, res.2@) == spec_categorize(
            id_ch_tuples@, total_widths@, spec_cached@, wav_cached@, draw_spec, draw_wav),
{
    categorize_unchecked(id_ch_tuples, total_widths, spec_cached, wav_cached, draw_spec, draw_wav)
}

/// Whether the categories of a drawing request agree on the parts to draw, which
/// `categorize_id_ch` asks of its input.
pub fn categories_agree(
    id_ch_tuples: &[(usize, usize)],
    total_widths: &[u32],
    spec_cached: &[bool],
    wav_cached: &[bool],
    draw_spec: bool,
    draw_wav: bool,
) -> (r: bool)
    requires
        total_widths@.len() == id_ch_tuples@.len(),
        spec_cached@.len() == id_ch_tuples@.len(),
        wav_cached@.len() == id_ch_tuples@.len(),
    ensures
        r == parts_agree(id_ch_tuples@, total_widths@, spec_cached@, wav_cached@, draw_spec, draw_wav),
{
    let (by_spec, by_wav, _) = categorize_unchecked(
        id_ch_tuples, total_widths, spec_cached, wav_cached, draw_spec, draw_wav);
    let a = by_spec.need_parts.len();
    let b = by_wav.need_parts.len();
    a == 0 || b == 0 || a == b
}

/// `base` followed by the items of `more` that are not in it yet, in order.
pub open spec fn append_absent(base: Seq<(usize, usize)>, more: Seq<(usize, usize)>) -> Seq<(usize, usize)>
    decreases more.len(),
{
    if more.len() == 0 {
        base
    } else {
        let prev = append_absent(base, more.drop_last());
        if prev.contains(more.last()) {
            prev
        } else {
            prev.push(more.last())
        }
    }
}

/// The channels whose new caches are blended: those with a new spectrogram cache, then those
/// with only a new waveform cache.
pub fn ids_for_blend(need_new_spec_caches: Vec<(usize, usize)>, need_new_wav_caches: &[(usize, usize)]) -> (res: Vec<(usize, usize)>)
    ensures
        res@ == append_absent(need_new_spec_caches@, need_new_wav_caches@),
{
    let mut vec = need_new_spec_caches;
    let ghost base = vec@;
    let n = need_new_wav_caches.len();
    let mut i: usize = 0;
    while i < n
        invariant
            n == need_new_wav_caches@.len(),
            i <= n,
            vec@ == append_absent(base, need_new_wav_caches@.take(i as int)),
        decreases n - i,
    {
        let id_ch = need_new_wav_caches[i];
        proof {
            assert(need_new_wav_caches@.take(i + 1).drop_last() =~= need_new_wav_caches@.take(i as int));
            assert(need_new_wav_caches@.take(i + 1).last() == id_ch);
        }
        let m = vec.len();
        let mut j: usize = 0;
        let mut found = false;
        while j < m
            invariant
                m == vec@.len(),
                j <= m,
                found <==> exists|k: int| 0 <= k < j && vec@[k] == id_ch,
            decreases m - j,
        {
            if same_id_ch(vec[j], id_ch) {
                found = true;
            }
            j = j + 1;
        }
        if !found {
            vec.push(id_ch);
        }
        i = i + 1;
    }
    proof {
        assert(need_new_wav_caches@.take(n as int) =~= need_new_wav_caches@);
    }
    vec
}

/// The channels whose visible parts are drawn, with whether each is narrow enough to be
/// resized fast: the spectrogram's list where it has one, else the waveform's.
pub fn parts_to_draw(
    need_parts_spec: &[(usize, usize)],
    need_parts_wav: &[(usize, usize)],
    spec_widths: &[u32],
    wav_widths: &[u32],
) -> (res: (Vec<(usize, usize)>, Vec<bool>))
    requires
        spec_widths@.len() == need_parts_spec@.len(),
        wav_widths@.len() == need_parts_wav@.len(),
    ensures
        res.0@ == if need_parts_spec@.len() > 0 { need_parts_spec@ } else { need_parts_wav@ },
        res.1@.len() == res.0@.len(),
        forall|i: int| 0 <= i < res.1@.len() ==> #[trigger] res.1@[i] == (if need_parts_spec@.len() > 0 {
            spec_widths@[i]
        } else {
            wav_widths@[i]
        } <= MAX_IMG_CACHE_WIDTH),
{
    let (parts, widths) = if need_parts_spec.len() > 0 {
        (need_parts_spec, spec_widths)
    } else {
        (need_parts_wav, wav_widths)
    };
    let mut ids: Vec<(usize, usize)> = Vec::new();
    let mut fast: Vec<bool> = Vec::new();
    let n = parts.len();
    let mut i: usize = 0;
    while i < n
        invariant
            n == parts@.len(),
            widths@.len() == n,
            i <= n,
            ids@ == parts@.take(i as int),
            fast@.len() == i,
            forall|k: int| 0 <= k < i ==> #[trigger] fast@[k] == (widths@[k] <= MAX_IMG_CACHE_WIDTH),
        decreases n - i,
    {
        ids.push(parts[i]);
        fast.push(widths[i] <= MAX_IMG_CACHE_WIDTH);
        i = i + 1;
        proof {
            assert(ids@ =~= parts@.take(i as int));
        }
    }
    proof {
        assert(parts@.take(n as int) =~= parts@);
    }
    (ids, fast)
}

/// For each spectrogram image, in order, the position of the waveform image of the same
/// channel to blend it with; `None` where there is none (the image is then left out).
pub fn pair_images(spec_keys: &[(usize, usize)], wav_keys: &[(usize, usize)]) -> (res: Vec<Option<usize>>)
    ensures
        res@.len() == spec_keys@.len(),
        forall|i: int| 0 <= i < res@.len() ==> match #[trigger] res@[i] {
            Some(j) => 0 <= j < wav_keys@.len() && wav_keys@[j as int] == spec_keys@[i] && (j != i ==> (i >= wav_keys@.len()
                || wav_keys@[i] != spec_keys@[i]) && forall|l: int| 0 <= l < j ==> wav_keys@[l] != spec_keys@[i]),
            None => forall|l: int| 0 <= l < wav_keys@.len() ==> wav_keys@[l] != spec_keys@[i],
        },
{
    let mut out: Vec<Option<usize>> = Vec::new();
    let n = spec_keys.len();
    let m = wav_keys.len();
    let mut i: usize = 0;
    while i < n
        invariant
            n == spec_keys@.len(),
            m == wav_keys@.len(),
            i <= n,
            out@.len() == i,
            forall|k: int| 0 <= k < i ==> match #[trigger] out@[k] {
                Some(j) => 0 <= j < wav_keys@.len() && wav_keys@[j as int] == spec_keys@[k] && (j != k ==> (k >= wav_keys@.len()
                    || wav_keys@[k] != spec_keys@[k]) && forall|l: int| 0 <= l < j ==> wav_keys@[l] != spec_keys@[k]),
                None => forall|l: int| 0 <= l < wav_keys@.len() ==> wav_keys@[l] != spec_keys@[k],
            },
        decreases n - i,
    {
        let k = spec_keys[i];
        let found = if i < m && same_id_ch(wav_keys[i], k) {
            Some(i)
        } else {
            let mut j: usize = 0;
            let mut hit: Option<usize> = None;
            while j < m && hit.is_none()
                invariant
                    m == wav_keys@.len(),
                    j <= m,
                    forall|l: int| 0 <= l < j ==> wav_keys@[l] != k,
                    hit is None || (hit == Some(j) && j < m && wav_keys@[j as int] == k),
                decreases m - j, if hit is None { 1int } else { 0int },
            {
                if same_id_ch(wav_keys[j], k) {
                    hit = Some(j);
                } else {
                    j = j + 1;
                }
            }
            hit
        };
        let ghost before = out@;
        out.push(found);
        proof {
            assert forall|q: int| 0 <= q < i + 1 implies match #[trigger] out@[q] {
                Some(j) => 0 <= j < wav_keys@.len() && wav_keys@[j as int] == spec_keys@[q] && (j != q ==> (q >= wav_keys@.len()
                    || wav_keys@[q] != spec_keys@[q]) && forall|l: int| 0 <= l < j ==> wav_keys@[l] != spec_keys@[q]),
                None => forall|l: int| 0 <= l < wav_keys@.len() ==> wav_keys@[l] != spec_keys@[q],
            } by {
                if q < i {
                    assert(out@[q] == before[q]);
                }
            }
        }
        i = i + 1;
    }
    out
}

/// The width in pixels of an RGBA image of `height` rows held in `image`.
pub open spec fn image_columns(image: Seq<u8>, height: int) -> int {
    image.len() as int / 4 / height
}

/// Byte `i` of the window `width` pixels wide, starting at column `start`, cut from an RGBA
/// image with rows `total_width` pixels long: the byte of the pixel `start` columns to the
/// right, in the same row, where that column lies in the image, else zero (transparent black).
pub open spec fn cropped_byte(image: Seq<u8>, total_width: int, start: int, width: int, i: int) -> u8 {
    let px = i / 4;
    let row = px / width;
    let col = start + px % width;
    if 0 <= col < total_width {
        image[(row * total_width + col) * 4 + i % 4]
    } else {
        0
    }
}

/// Where the image lies in a cropped window, as `(left, width)` in pixels: `(0, 0)` when the
/// window misses the image, `(0, width)` when the image fills it, else the columns it covers.
pub open spec fn crop_left_width(start: int, width: int, total_width: int) -> (int, int) {
    match spec_effective_slice(start, width, total_width) {
        None => (0, 0),
        Some((_, eff_width)) => {
            let pad_left = if start < 0 { -start } else { 0 };
            if eff_width == width {
                (0, width)
            } else {
                (pad_left, eff_width)
            }
        },
    }
}

proof fn lemma_image_shape(len: int, height: int)
    requires
        height > 0,
        len >= 0,
        len % (4 * height) == 0,
    ensures
        len == height * (len / 4 / height) * 4,
{
    let q = len / (4 * height);
    assert(len == (4 * height) * q) by (nonlinear_arith)
        requires
            height > 0,
            len >= 0,
            len % (4 * height) == 0,
            q == len / (4 * height),
    ;
    assert(len == (height * q) * 4 + 0) by (nonlinear_arith)
        requires
            len == (4 * height) * q,
    ;
    vstd::arithmetic::div_mod::lemma_fundamental_div_mod_converse_div(len, 4, height * q, 0);
    assert(len / 4 == q * height + 0) by (nonlinear_arith)
        requires
            len / 4 == height * q,
    ;
    vstd::arithmetic::div_mod::lemma_fundamental_div_mod_converse_div(len / 4, height, q, 0);
    assert(len == height * q * 4) by (nonlinear_arith)
        requires
            len == (4 * height) * q,
    ;
}

proof fn lemma_pixel_in_image(row: int, col: int, k: int, height: int, total_width: int)
    requires
        0 <= row < height,
        0 <= col < total_width,
        0 <= k < 4,
    ensures
        0 <= (row * total_width + col) * 4 + k < height * total_width * 4,
        0 <= row * total_width,
{
    assert(row * total_width + col < height * total_width) by (nonlinear_arith)
        requires
            0 <= row < height,
            0 <= col < total_width,
    ;
    assert(0 <= row * total_width) by (nonlinear_arith)
        requires
            0 <= row,
            0 <= total_width,
    ;
}

proof fn lemma_byte_position(i: int, row: int, c: int, k: int, width: int)
    requires
        width > 0,
        0 <= c < width,
        0 <= k < 4,
        0 <= row,
        i == (row * width + c) * 4 + k,
    ensures
        i / 4 == row * width + c,
        i % 4 == k,
        (i / 4) / width == row,
        (i / 4) % width == c,
{
    vstd::arithmetic::div_mod::lemma_fundamental_div_mod_converse_div(i, 4, row * width + c, k);
    vstd::arithmetic::div_mod::lemma_fundamental_div_mod_converse_mod(i, 4, row * width + c, k);
    assert(row * width + c == row * width + c);
    vstd::arithmetic::div_mod::lemma_fundamental_div_mod_converse_div(row * width + c, width, row, c);
    vstd::arithmetic::div_mod::lemma_fundamental_div_mod_converse_mod(row * width + c, width, row, c);
}

/// Cropping an image to its own width from its first column gives the image back, and the
/// image fills the window.
pub proof fn law_crop_whole(image: Seq<u8>, height: int)
    requires
        height > 0,
        image.len() as int % (4 * height) == 0,
        image_columns(image, height) > 0,
    ensures
        forall|i: int| 0 <= i < image.len() ==> #[trigger] cropped_byte(image, image_columns(image, height), 0, image_columns(image, height), i) == image[i],
        crop_left_width(0, image_columns(image, height), image_columns(image, height))
            == (0int, image_columns(image, height)),
{
    let tw = image_columns(image, height);
    assert forall|i: int| 0 <= i < image.len() implies #[trigger] cropped_byte(image, tw, 0, tw, i) == image[i] by {
        let px = i / 4;
        vstd::arithmetic::div_mod::lemma_fundamental_div_mod(i, 4);
        vstd::arithmetic::div_mod::lemma_fundamental_div_mod(px, tw);
        assert(0 <= px % tw < tw) by {
            vstd::arithmetic::div_mod::lemma_mod_bound(px, tw);
        }
        assert(((px / tw) * tw + px % tw) * 4 + i % 4 == i) by (nonlinear_arith)
            requires
                i == 4 * px + i % 4,
                px == tw * (px / tw) + px % tw,
        ;
    }
}

/// Where the image lies in a cropped window is exactly the columns of the window that fall on
/// the image: `left..left + width` within the window, and column `c` of the window shows image
/// column `start + c`, which lies in the image just when `c` is among them.
pub proof fn law_crop_left_width(start: int, width: int, total_width: int)
    requires
        width >= 0,
        total_width >= 0,
    ensures
        ({
            let (left, w) = crop_left_width(start, width, total_width);
            &&& 0 <= left
            &&& 0 <= w
            &&& left + w <= width
            &&& forall|c: int| 0 <= c < width ==> ((0 <= #[trigger] (start + c) < total_width) <==> (left <= c < left + w))
        }),
{
    crate::slice::law_effective_slice(start, width, total_width);
}

/// Cuts the window `width` pixels wide starting at column `start` out of an RGBA image of
/// `height` rows, padding with transparent black where the window lies outside the image.
/// Returns the window's bytes and where the image lies in it (see `crop_left_width`).
pub fn crop_image(image: &[u8], height: usize, start: isize, width: u32) -> (res: (Vec<u8>, (u32, u32)))
    requires
        height > 0,
        image@.len() as int % (4 * height as int) == 0,
        image@.len() <= isize::MAX,
        width <= isize::MAX,
        start > isize::MIN,
        height * width * 4 <= usize::MAX,
    ensures
        res.0@.len() == height * width * 4,
        forall|i: int| 0 <= i < res.0@.len() ==> #[trigger] res.0@[i] == cropped_byte(
            image@, image_columns(image@, height as int), start as int, width as int, i),
        (res.1.0 as int, res.1.1 as int) == crop_left_width(
            start as int, width as int, image_columns(image@, height as int)),
{
    let total_width = image.len() / 4 / height;
    proof {
        lemma_image_shape(image@.len() as int, height as int);
    }
    let w = width as usize;
    let pad_left: usize = if start < 0 { (-start) as usize } else { 0 };
    let (i_eff, w_eff, left_width) = match calc_effective_slice(start, w, total_width) {
        Some((i, we)) => {
            if we == w {
                (i, we, (0u32, width))
            } else {
                (i, we, (pad_left as u32, we as u32))
            }
        },
        None => (0, 0, (0u32, 0u32)),
    };
    let n = height * w * 4;
    let mut out: Vec<u8> = Vec::new();
    if w == 0 {
        proof {
            assert(height * width * 4 == 0) by (nonlinear_arith)
                requires
                    width == 0,
            ;
        }
        return (out, left_width);
    }
    let ghost tw = total_width as int;
    let ghost img = image@;
    let mut row: usize = 0;
    let mut c: usize = 0;
    let mut k: usize = 0;
    let mut row_base: usize = 0;
    let mut i: usize = 0;
    while i < n
        invariant
            n == height * w * 4,
            w == width,
            w > 0,
            img == image@,
            tw == total_width,
            img.len() == height * tw * 4,
            img.len() <= isize::MAX,
            row_base == row * tw,
            c < w,
            k < 4,
            i == (row * w + c) * 4 + k,
            i <= n,
            i < n ==> row < height,
            out@.len() == i,
            pad_left == (if start < 0 { -start } else { 0 }),
            match spec_effective_slice(start as int, w as int, tw) {
                Some((ie, we)) => i_eff == ie && w_eff == we,
                None => w_eff == 0,
            },
            forall|j: int| 0 <= j < i ==> #[trigger] out@[j] == cropped_byte(img, tw, start as int, w as int, j),
        decreases n - i,
    {
        proof {
            assert(row < height) by (nonlinear_arith)
                requires
                    i == (row * w + c) * 4 + k,
                    i < n,
                    n == height * w * 4,
                    w > 0,
            ;
            lemma_byte_position(i as int, row as int, c as int, k as int, w as int);
        }
        let byte = if pad_left <= c && c < pad_left + w_eff {
            let col = i_eff + (c - pad_left);
            proof {
                lemma_pixel_in_image(row as int, col as int, k as int, height as int, tw);
            }
            image[(row_base + col) * 4 + k]
        } else {
            0
        };
        out.push(byte);
        k = k + 1;
        if k == 4 {
            k = 0;
            c = c + 1;
            if c == w {
                c = 0;
                proof {
                    assert((row + 1) * w == row * w + w) by (nonlinear_arith);
                    assert((row + 1) * tw == row * tw + tw) by (nonlinear_arith);
                    assert((row + 1) * tw <= height * tw) by (nonlinear_arith)
                        requires
                            row + 1 <= height,
                            tw >= 0,
                    ;
                }
                row = row + 1;
                row_base = row_base + total_width;
            }
        }
        i = i + 1;
    }
    (out, left_width)
}

} // verus!
