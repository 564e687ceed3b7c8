//! Which windows, FFT plans and mel filterbanks the spectrogram analyzer keeps.
//!
//! The analyzer keeps one window per `(win_length, n_fft)`, one FFT plan per `n_fft` and one
//! mel filterbank per `(sr, n_fft)`; this module decides which of them are to be made and
//! which are dropped, by their keys. The values themselves stay with the caller.

use vstd::prelude::*;

verus! {

/// The framing of one track's spectrogram.
#[derive(Clone, Copy, PartialEq, Eq, Debug)]
pub struct SrWinNfft {
    pub sr: u32,
    pub win_length: usize,
    pub n_fft: usize,
}

/// The keys of what the analyzer holds.
pub struct AnalyzerKeys {
    windows: Vec<(usize, usize)>,
    fft_sizes: Vec<usize>,
    mel_fbs: Vec<(u32, usize)>,
}

/// The window keys that `params` use.
pub open spec fn window_keys(params: Seq<SrWinNfft>) -> Set<(usize, usize)> {
    Set::new(|k: (usize, usize)| exists|i: int| 0 <= i < params.len() && #[trigger] params[i] == (SrWinNfft { sr: params[i].sr, win_length: k.0, n_fft: k.1 }))
}

/// The FFT sizes that `params` use.
pub open spec fn fft_keys(params: Seq<SrWinNfft>) -> Set<usize> {
    Set::new(|k: usize| exists|i: int| 0 <= i < params.len() && #[trigger] params[i].n_fft == k)
}

/// The mel filterbank keys that `params` use.
pub open spec fn mel_keys(params: Seq<SrWinNfft>) -> Set<(u32, usize)> {
    Set::new(|k: (u32, usize)| exists|i: int| 0 <= i < params.len() && #[trigger] params[i] == (SrWinNfft { sr: k.0, win_length: params[i].win_length, n_fft: k.1 }))
}

/// The keys to make now: one per key of `wanted` that is not held, in order of first use.
pub struct NewKeys {
    pub windows: Vec<(usize, usize)>,
    pub fft_sizes: Vec<usize>,
    pub mel_fbs: Vec<(u32, usize)>,
}

fn find_pair(v: &Vec<(usize, usize)>, k: (usize, usize)) -> (r: bool)
    ensures
        r == v@.contains(k),
{
    let n = v.len();
    let mut i: usize = 0;
    while i < n
        invariant
            n == v@.len(),
            i <= n,
            forall|j: int| 0 <= j < i ==> v@[j] != k,
        decreases n - i,
    {
        if v[i].0 == k.0 && v[i].1 == k.1 {
            assert(v@[i as int] == k);
            return true;
        }
        i = i + 1;
    }
    false
}

fn find_mel(v: &Vec<(u32, usize)>, k: (u32, usize)) -> (r: bool)
    ensures
        r == v@.contains(k),
{
    let n = v.len();
    let mut i: usize = 0;
    while i < n
        invariant
            n == v@.len(),
            i <= n,
            forall|j: int| 0 <= j < i ==> v@[j] != k,
        decreases n - i,
    {
        if v[i].0 == k.0 && v[i].1 == k.1 {
            assert(v@[i as int] == k);
            return true;
        }
        i = i + 1;
    }
    false
}

fn find_size(v: &Vec<usize>, k: usize) -> (r: bool)
    ensures
        r == v@.contains(k),
{
    let n = v.len();
    let mut i: usize = 0;
    while i < n
        invariant
            n == v@.len(),
            i <= n,
            forall|j: int| 0 <= j < i ==> v@[j] != k,
        decreases n - i,
    {
        if v[i] == k {
            assert(v@[i as int] == k);
            return true;
        }
        i = i + 1;
    }
    false
}

proof fn lemma_push_to_set<T>(s: Seq<T>, x: T)
    ensures
        s.push(x).to_set() == s.to_set().insert(x),
        s.contains(x) <==> s.to_set().contains(x),
        s.no_duplicates() && !s.contains(x) ==> s.push(x).no_duplicates(),
{
    broadcast use vstd::seq_lib::group_seq_properties;
    assert(s.push(x).to_set() =~= s.to_set().insert(x));
}

fn uses_window(params: &[SrWinNfft], k: (usize, usize)) -> (r: bool)
    ensures
        r == window_keys(params@).contains(k),
{
    let n = params.len();
    let mut i: usize = 0;
    while i < n
        invariant
            n == params@.len(),
            i <= n,
            forall|j: int| 0 <= j < i ==> !(params@[j].win_length == k.0 && params@[j].n_fft == k.1),
        decreases n - i,
    {
        if params[i].win_length == k.0 && params[i].n_fft == k.1 {
            assert(params@[i as int] == (SrWinNfft { sr: params@[i as int].sr, win_length: k.0, n_fft: k.1 }));
            return true;
        }
        i = i + 1;
    }
    false
}

fn uses_fft(params: &[SrWinNfft], k: usize) -> (r: bool)
    ensures
        r == fft_keys(params@).contains(k),
{
    let n = params.len();
    let mut i: usize = 0;
    while i < n
        invariant
            n == params@.len(),
            i <= n,
            forall|j: int| 0 <= j < i ==> params@[j].n_fft != k,
        decreases n - i,
    {
        if params[i].n_fft == k {
            return true;
        }
        i = i + 1;
    }
    false
}

fn uses_mel(params: &[SrWinNfft], k: (u32, usize)) -> (r: bool)
    ensures
        r == mel_keys(params@).contains(k),
{
    let n = params.len();
    let mut i: usize = 0;
    while i < n
        invariant
            n == params@.len(),
            i <= n,
            forall|j: int| 0 <= j < i ==> !(params@[j].sr == k.0 && params@[j].n_fft == k.1),
        decreases n - i,
    {
        if params[i].sr == k.0 && params[i].n_fft == k.1 {
            assert(params@[i as int] == (SrWinNfft { sr: k.0, win_length: params@[i as int].win_length, n_fft: k.1 }));
            return true;
        }
        i = i + 1;
    }
    false
}

proof fn lemma_take_push_to_set<T>(s: Seq<T>, i: int)
    requires
        0 <= i < s.len(),
    ensures
        s.take(i + 1).to_set() == s.take(i).to_set().insert(s[i]),
{
    assert(s.take(i + 1) =~= s.take(i).push(s[i]));
    lemma_push_to_set(s.take(i), s[i]);
}

impl AnalyzerKeys {
    /// The window keys held.
    pub closed spec fn held_windows(self) -> Set<(usize, usize)> {
        self.windows@.to_set()
    }

    /// The FFT sizes held.
    pub closed spec fn held_fft_sizes(self) -> Set<usize> {
        self.fft_sizes@.to_set()
    }

    /// The mel filterbank keys held.
    pub closed spec fn held_mel_fbs(self) -> Set<(u32, usize)> {
        self.mel_fbs@.to_set()
    }

    /// Nothing held.
    pub fn new() -> (res: Self)
        ensures
            res.held_windows() == Set::<(usize, usize)>::empty(),
            res.held_fft_sizes() == Set::<usize>::empty(),
            res.held_mel_fbs() == Set::<(u32, usize)>::empty(),
    {
        let res = AnalyzerKeys { windows: Vec::new(), fft_sizes: Vec::new(), mel_fbs: Vec::new() };
        proof {
            assert(res.windows@.to_set() =~= Set::<(usize, usize)>::empty());
            assert(res.fft_sizes@.to_set() =~= Set::<usize>::empty());
            assert(res.mel_fbs@.to_set() =~= Set::<(u32, usize)>::empty());
        }
        res
    }

    /// Makes ready what the framings `params` need: the windows and FFT plans not held yet,
    /// and, on the mel scale, the filterbanks not held yet (off the mel scale all filterbanks
    /// are dropped). Returns the keys of what is to be made, each once.
    pub fn prepare(&mut self, params: &[SrWinNfft], mel: bool) -> (new: NewKeys)
        ensures
            final(self).held_windows() == old(self).held_windows().union(window_keys(params@)),
            final(self).held_fft_sizes() == old(self).held_fft_sizes().union(fft_keys(params@)),
            mel ==> final(self).held_mel_fbs() == old(self).held_mel_fbs().union(mel_keys(params@)),
            !mel ==> final(self).held_mel_fbs() == Set::<(u32, usize)>::empty(),
            new.windows@.no_duplicates(),
            new.windows@.to_set() == window_keys(params@).difference(old(self).held_windows()),
            new.fft_sizes@.no_duplicates(),
            new.fft_sizes@.to_set() == fft_keys(params@).difference(old(self).held_fft_sizes()),
            new.mel_fbs@.no_duplicates(),
            mel ==> new.mel_fbs@.to_set() == mel_keys(params@).difference(old(self).held_mel_fbs()),
            !mel ==> new.mel_fbs@.len() == 0,
    {
        let ghost w0 = self.windows@.to_set();
        let ghost f0 = self.fft_sizes@.to_set();
        let ghost m0 = self.mel_fbs@.to_set();
        let mut new = NewKeys { windows: Vec::new(), fft_sizes: Vec::new(), mel_fbs: Vec::new() };
        if !mel {
            self.mel_fbs = Vec::new();
        }
        let n = params.len();
        let mut i: usize = 0;
        while i < n
            invariant
                n == params@.len(),
                i <= n,
                self.windows@.to_set() == w0.union(window_keys(params@.take(i as int))),
                self.fft_sizes@.to_set() == f0.union(fft_keys(params@.take(i as int))),
                mel ==> self.mel_fbs@.to_set() == m0.union(mel_keys(params@.take(i as int))),
                !mel ==> self.mel_fbs@.len() == 0,
                new.windows@.no_duplicates(),
                new.windows@.to_set() == window_keys(params@.take(i as int)).difference(w0),
                new.fft_sizes@.no_duplicates(),
                new.fft_sizes@.to_set() == fft_keys(params@.take(i as int)).difference(f0),
                new.mel_fbs@.no_duplicates(),
                mel ==> new.mel_fbs@.to_set() == mel_keys(params@.take(i as int)).difference(m0),
                !mel ==> new.mel_fbs@.len() == 0,
            decreases n - i,
        {
            let p = params[i];
            let ghost pre = params@.take(i as int);
            let ghost post = params@.take(i + 1);
            proof {
                assert(post =~= pre.push(p));
                assert(window_keys(post) =~= window_keys(pre).insert((p.win_length, p.n_fft))) by {
                    assert forall|k: (usize, usize)| window_keys(post).contains(k) implies window_keys(pre).insert(
                        (p.win_length, p.n_fft)).contains(k) by {
                        let j = choose|j: int| 0 <= j < post.len() && #[trigger] post[j] == (SrWinNfft { sr: post[j].sr, win_length: k.0, n_fft: k.1 });
                        if j < pre.len() {
                            assert(pre[j] == post[j]);
                        }
                    }
                    assert forall|k: (usize, usize)| window_keys(pre).insert((p.win_length, p.n_fft)).contains(k) implies window_keys(post).contains(k) by {
                        if k == (p.win_length, p.n_fft) {
                            assert(post[i as int] == (SrWinNfft { sr: post[i as int].sr, win_length: k.0, n_fft: k.1 }));
                        } else {
                            let j = choose|j: int| 0 <= j < pre.len() && #[trigger] pre[j] == (SrWinNfft { sr: pre[j].sr, win_length: k.0, n_fft: k.1 });
                            assert(post[j] == pre[j]);
                        }
                    }
                }
                assert(fft_keys(post) =~= fft_keys(pre).insert(p.n_fft)) by {
                    assert forall|k: usize| fft_keys(post).contains(k) implies fft_keys(pre).insert(p.n_fft).contains(k) by {
                        let j = choose|j: int| 0 <= j < post.len() && #[trigger] post[j].n_fft == k;
                        if j < pre.len() {
                            assert(pre[j] == post[j]);
                        }
                    }
                    assert forall|k: usize| fft_keys(pre).insert(p.n_fft).contains(k) implies fft_keys(post).contains(k) by {
                        if k == p.n_fft {
                            assert(post[i as int].n_fft == k);
                        } else {
                            let j = choose|j: int| 0 <= j < pre.len() && #[trigger] pre[j].n_fft == k;
                            assert(post[j] == pre[j]);
                        }
                    }
                }
                assert(mel_keys(post) =~= mel_keys(pre).insert((p.sr, p.n_fft))) by {
                    assert forall|k: (u32, usize)| mel_keys(post).contains(k) implies mel_keys(pre).insert((p.sr, p.n_fft)).contains(k) by {
                        let j = choose|j: int| 0 <= j < post.len() && #[trigger] post[j] == (SrWinNfft { sr: k.0, win_length: post[j].win_length, n_fft: k.1 });
                        if j < pre.len() {
                            assert(pre[j] == post[j]);
                        }
                    }
                    assert forall|k: (u32, usize)| mel_keys(pre).insert((p.sr, p.n_fft)).contains(k) implies mel_keys(post).contains(k) by {
                        if k == (p.sr, p.n_fft) {
                            assert(post[i as int] == (SrWinNfft { sr: k.0, win_length: post[i as int].win_length, n_fft: k.1 }));
                        } else {
                            let j = choose|j: int| 0 <= j < pre.len() && #[trigger] pre[j] == (SrWinNfft { sr: k.0, win_length: pre[j].win_length, n_fft: k.1 });
                            assert(post[j] == pre[j]);
                        }
                    }
                }
            }
            let wk = (p.win_length, p.n_fft);
            let ghost held_w = self.windows@;
            let ghost new_w = new.windows@;
            if !find_pair(&self.windows, wk) {
                proof {
                    assert(!(w0.union(window_keys(pre)).contains(wk)));
                    assert(!window_keys(pre).contains(wk));
                    assert(!window_keys(pre).difference(w0).contains(wk));
                    assert(!new_w.to_set().contains(wk));
                    lemma_push_to_set(held_w, wk);
                    lemma_push_to_set(new_w, wk);
                }
                self.windows.push(wk);
                new.windows.push(wk);
            } else {
                proof {
                    lemma_push_to_set(held_w, wk);
                    assert(held_w.to_set().contains(wk));
                }
            }
            proof {
                assert(self.windows@.to_set() =~= w0.union(window_keys(post)));
                assert(new.windows@.to_set() =~= window_keys(post).difference(w0));
            }
            let ghost held_f = self.fft_sizes@;
            let ghost new_f = new.fft_sizes@;
            if !find_size(&self.fft_sizes, p.n_fft) {
                proof {
                    assert(!(f0.union(fft_keys(pre)).contains(p.n_fft)));
                    assert(!fft_keys(pre).contains(p.n_fft));
                    assert(!fft_keys(pre).difference(f0).contains(p.n_fft));
                    assert(!new_f.to_set().contains(p.n_fft));
                    lemma_push_to_set(held_f, p.n_fft);
                    lemma_push_to_set(new_f, p.n_fft);
                }
                self.fft_sizes.push(p.n_fft);
                new.fft_sizes.push(p.n_fft);
            } else {
                proof {
                    lemma_push_to_set(held_f, p.n_fft);
                    assert(held_f.to_set().contains(p.n_fft));
                }
            }
            proof {
                assert(self.fft_sizes@.to_set() =~= f0.union(fft_keys(post)));
                assert(new.fft_sizes@.to_set() =~= fft_keys(post).difference(f0));
            }
            if mel {
                let mk = (p.sr, p.n_fft);
                let ghost held_m = self.mel_fbs@;
                let ghost new_m = new.mel_fbs@;
                if !find_mel(&self.mel_fbs, mk) {
                    proof {
                        assert(!(m0.union(mel_keys(pre)).contains(mk)));
                        assert(!mel_keys(pre).contains(mk));
                        assert(!mel_keys(pre).difference(m0).contains(mk));
                        assert(!new_m.to_set().contains(mk));
                        lemma_push_to_set(held_m, mk);
                        lemma_push_to_set(new_m, mk);
                    }
                    self.mel_fbs.push(mk);
                    new.mel_fbs.push(mk);
                } else {
                    proof {
                        lemma_push_to_set(held_m, mk);
                        assert(held_m.to_set().contains(mk));
                    }
                }
                proof {
                    assert(self.mel_fbs@.to_set() =~= m0.union(mel_keys(post)));
                    assert(new.mel_fbs@.to_set() =~= mel_keys(post).difference(m0));
                }
            }
            i = i + 1;
        }
        proof {
            assert(params@.take(n as int) =~= params@);
            if !mel {
                assert(self.mel_fbs@.to_set() =~= Set::<(u32, usize)>::empty());
            }
        }
        new
    }

    /// Keeps only what the framings `params` use: the windows and FFT plans they use and, on
    /// the mel scale, the filterbanks they use (off the mel scale none). Returns the keys of
    /// what is dropped.
    pub fn retain(&mut self, params: &[SrWinNfft], mel: bool) -> (dropped: NewKeys)
        ensures
            final(self).held_windows() == old(self).held_windows().intersect(window_keys(params@)),
            final(self).held_fft_sizes() == old(self).held_fft_sizes().intersect(fft_keys(params@)),
            mel ==> final(self).held_mel_fbs() == old(self).held_mel_fbs().intersect(mel_keys(params@)),
            !mel ==> final(self).held_mel_fbs() == Set::<(u32, usize)>::empty(),
            dropped.windows@.to_set() == old(self).held_windows().difference(window_keys(params@)),
            dropped.fft_sizes@.to_set() == old(self).held_fft_sizes().difference(fft_keys(params@)),
            dropped.mel_fbs@.to_set() == if mel {
                old(self).held_mel_fbs().difference(mel_keys(params@))
            } else {
                old(self).held_mel_fbs()
            },
    {
        let mut dropped = NewKeys { windows: Vec::new(), fft_sizes: Vec::new(), mel_fbs: Vec::new() };
        let mut kept_w: Vec<(usize, usize)> = Vec::new();
        let n = self.windows.len();
        let mut i: usize = 0;
        let ghost ws = self.windows@;
        let ghost wk = window_keys(params@);
        proof {
            assert(ws.take(0).to_set() =~= Set::<(usize, usize)>::empty());
            lemma_push_to_set(Seq::<(usize, usize)>::empty(), (0usize, 0usize));
            assert(kept_w@.to_set() =~= Set::<(usize, usize)>::empty());
            assert(dropped.windows@.to_set() =~= Set::<(usize, usize)>::empty());
        }
        while i < n
            invariant
                n == ws.len(),
                ws == self.windows@,
                wk == window_keys(params@),
                i <= n,
                kept_w@.to_set() == ws.take(i as int).to_set().intersect(wk),
                dropped.windows@.to_set() == ws.take(i as int).to_set().difference(wk),
                dropped.fft_sizes@.len() == 0,
                dropped.mel_fbs@.len() == 0,
            decreases n - i,
        {
            let k = self.windows[i];
            let ghost kept0 = kept_w@;
            let ghost drop0 = dropped.windows@;
            proof {
                lemma_take_push_to_set(ws, i as int);
                lemma_push_to_set(kept0, k);
                lemma_push_to_set(drop0, k);
            }
            if uses_window(params, k) {
                kept_w.push(k);
            } else {
                dropped.windows.push(k);
            }
            proof {
                assert(kept_w@.to_set() =~= ws.take(i + 1).to_set().intersect(wk));
                assert(dropped.windows@.to_set() =~= ws.take(i + 1).to_set().difference(wk));
            }
            i = i + 1;
        }
        proof {
            assert(ws.take(n as int) =~= ws);
        }
        self.windows = kept_w;

        let mut kept_f: Vec<usize> = Vec::new();
        let n = self.fft_sizes.len();
        let mut i: usize = 0;
        let ghost fs = self.fft_sizes@;
        let ghost fk = fft_keys(params@);
        proof {
            assert(fs.take(0).to_set() =~= Set::<usize>::empty());
            assert(kept_f@.to_set() =~= Set::<usize>::empty());
            assert(dropped.fft_sizes@.to_set() =~= Set::<usize>::empty());
        }
        while i < n
            invariant
                n == fs.len(),
                fs == self.fft_sizes@,
                fk == fft_keys(params@),
                i <= n,
                kept_f@.to_set() == fs.take(i as int).to_set().intersect(fk),
                dropped.fft_sizes@.to_set() == fs.take(i as int).to_set().difference(fk),
                dropped.windows@.to_set() == ws.to_set().difference(wk),
                dropped.mel_fbs@.len() == 0,
            decreases n - i,
        {
            let k = self.fft_sizes[i];
            let ghost kept0 = kept_f@;
            let ghost drop0 = dropped.fft_sizes@;
            proof {
                lemma_take_push_to_set(fs, i as int);
                lemma_push_to_set(kept0, k);
                lemma_push_to_set(drop0, k);
            }
            if uses_fft(params, k) {
                kept_f.push(k);
            } else {
                dropped.fft_sizes.push(k);
            }
            proof {
                assert(kept_f@.to_set() =~= fs.take(i + 1).to_set().intersect(fk));
                assert(dropped.fft_sizes@.to_set() =~= fs.take(i + 1).to_set().difference(fk));
            }
            i = i + 1;
        }
        proof {
            assert(fs.take(n as int) =~= fs);
        }
        self.fft_sizes = kept_f;

        let mut kept_m: Vec<(u32, usize)> = Vec::new();
        let n = self.mel_fbs.len();
        let mut i: usize = 0;
        let ghost ms = self.mel_fbs@;
        let ghost mk = if mel { mel_keys(params@) } else { Set::<(u32, usize)>::empty() };
        proof {
            assert(ms.take(0).to_set() =~= Set::<(u32, usize)>::empty());
            assert(kept_m@.to_set() =~= Set::<(u32, usize)>::empty());
            assert(dropped.mel_fbs@.to_set() =~= Set::<(u32, usize)>::empty());
        }
        while i < n
            invariant
                n == ms.len(),
                ms == self.mel_fbs@,
                mk == if mel { mel_keys(params@) } else { Set::<(u32, usize)>::empty() },
                i <= n,
                kept_m@.to_set() == ms.take(i as int).to_set().intersect(mk),
                dropped.mel_fbs@.to_set() == ms.take(i as int).to_set().difference(mk),
                dropped.windows@.to_set() == ws.to_set().difference(wk),
                dropped.fft_sizes@.to_set() == fs.to_set().difference(fk),
            decreases n - i,
        {
            let k = self.mel_fbs[i];
            let ghost kept0 = kept_m@;
            let ghost drop0 = dropped.mel_fbs@;
            proof {
                lemma_take_push_to_set(ms, i as int);
                lemma_push_to_set(kept0, k);
                lemma_push_to_set(drop0, k);
            }
            if mel && uses_mel(params, k) {
                kept_m.push(k);
            } else {
                dropped.mel_fbs.push(k);
            }
            proof {
                assert(kept_m@.to_set() =~= ms.take(i + 1).to_set().intersect(mk));
                assert(dropped.mel_fbs@.to_set() =~= ms.take(i + 1).to_set().difference(mk));
            }
            i = i + 1;
        }
        proof {
            assert(ms.take(n as int) =~= ms);
            if !mel {
                assert(kept_m@.to_set() =~= Set::<(u32, usize)>::empty());
                assert(ms.to_set().difference(mk) =~= ms.to_set());
            }
        }
        self.mel_fbs = kept_m;
        dropped
    }
}

} // verus!
