//! The YIN pitch extractor: an estimate per channel for every new frame, and
//! the pitch chosen among the estimates of the most recent frames.
//!
//! The normalised difference values reach the library as ordering keys: the
//! IEEE-754 bit pattern of each `f32` value, read as a `u32`. For values that
//! are not negative, and for NaN against the threshold below, comparing keys
//! gives the same answer as comparing the values; normalised differences of
//! squared differences are never negative.

use vstd::prelude::*;
use dasp_ring_buffer::Fixed;
use crate::estimate::{PitchEstimate, precedes, unset_estimate};
use crate::ring::{ring_frames, ring_from, ring_get, ring_len, ring_push};

verus! {

/// Something that takes frames one at a time and tracks a pitch period per channel.
pub trait PitchExtractor<F> {
    /// The number of channels of each frame.
    fn n_channels() -> usize;

    /// Adds the new frame and returns the pitch for the buffer with the frame incorporated.
    fn next(&mut self, new_frame: F) -> &[usize];

    /// Returns the last calculated pitch.
    fn current(&self) -> &[usize];
}

/// Ordering key of the threshold 0.1 (as `f32`) below which a normalised
/// difference value marks a period.
pub const PITCH_THRESHOLD_KEY: u32 = 0x3dcc_cccd;

/// A normalised difference value (by its key) lies below the threshold.
pub open spec fn below_threshold(key: u32) -> bool {
    key < PITCH_THRESHOLD_KEY
}

/// The keys of a frame of normalised differences: one row per lag, one key
/// per channel in each row.
pub open spec fn lag_rows(rows: Seq<Vec<u32>>) -> Seq<Seq<u32>> {
    rows.map_values(|r: Vec<u32>| r@)
}

/// `lag` is the smallest lag whose value for channel `ch` lies below the threshold.
pub open spec fn is_first_below(norm: Seq<Seq<u32>>, ch: int, lag: int) -> bool {
    &&& 0 <= lag < norm.len()
    &&& below_threshold(norm[lag][ch])
    &&& forall|j: int| 0 <= j < lag ==> !below_threshold(#[trigger] norm[j][ch])
}

/// The estimate for channel `ch`: the smallest lag below the threshold, with
/// its value as confidence; the unset estimate when no lag is below it.
pub open spec fn channel_estimate(norm: Seq<Seq<u32>>, ch: int) -> PitchEstimate {
    if exists|lag: int| is_first_below(norm, ch, lag) {
        let lag = choose|lag: int| is_first_below(norm, ch, lag);
        PitchEstimate { pitch: lag as usize, confidence: norm[lag][ch] }
    } else {
        unset_estimate()
    }
}

/// The estimates of every channel for one frame of normalised differences.
pub open spec fn frame_estimates(norm: Seq<Seq<u32>>, n_channels: nat) -> Seq<PitchEstimate> {
    Seq::new(n_channels, |ch: int| channel_estimate(norm, ch))
}

/// The best estimate of channel `ch` among the first `n` frames of `history`:
/// a later estimate replaces the one kept so far only when it beats it, so
/// among equally good estimates the oldest stays.
pub open spec fn best_prefix(history: Seq<Seq<PitchEstimate>>, ch: int, n: int) -> PitchEstimate
    decreases n,
{
    if n <= 0 {
        unset_estimate()
    } else {
        let kept = best_prefix(history, ch, n - 1);
        let e = history[n - 1][ch];
        if precedes(e, kept) {
            e
        } else {
            kept
        }
    }
}

/// The best estimate of channel `ch` over the whole history.
pub open spec fn best_estimate(history: Seq<Seq<PitchEstimate>>, ch: int) -> PitchEstimate {
    best_prefix(history, ch, history.len() as int)
}

/// The pitch period chosen for each of `n_channels` channels.
pub open spec fn best_pitches(history: Seq<Seq<PitchEstimate>>, n_channels: nat) -> Seq<usize> {
    Seq::new(n_channels, |ch: int| best_estimate(history, ch).pitch)
}

/// Every frame of the history holds one estimate per channel.
pub open spec fn frames_have_channels(history: Seq<Seq<PitchEstimate>>, n_channels: nat) -> bool {
    forall|i: int| 0 <= i < history.len() ==> (#[trigger] history[i]).len() == n_channels
}

/// Finds the estimate of one channel: the first lag whose normalised
/// difference lies below the threshold.
pub fn estimate_channel(acf_norm: &[Vec<u32>], channel: usize) -> (e: PitchEstimate)
    requires
        forall|i: int| 0 <= i < acf_norm@.len() ==> channel < (#[trigger] acf_norm@[i])@.len(),
    ensures
        e == channel_estimate(lag_rows(acf_norm@), channel as int),
        forall|lag: int|
            0 <= lag < acf_norm@.len() && (#[trigger] acf_norm@[lag])@[channel as int] < PITCH_THRESHOLD_KEY
                && (forall|j: int| 0 <= j < lag ==> (#[trigger] acf_norm@[j])@[channel as int] >= PITCH_THRESHOLD_KEY)
                ==> e == (PitchEstimate { pitch: lag as usize, confidence: acf_norm@[lag]@[channel as int] }),
        (forall|j: int| 0 <= j < acf_norm@.len() ==> (#[trigger] acf_norm@[j])@[channel as int] >= PITCH_THRESHOLD_KEY)
            ==> (e == unset_estimate()),
{
    let ghost norm = lag_rows(acf_norm@);
    let ghost ch = channel as int;
    let mut lag: usize = 0;
    while lag < acf_norm.len()
        invariant
            norm == lag_rows(acf_norm@),
            ch == channel,
            lag <= acf_norm@.len(),
            forall|i: int| 0 <= i < acf_norm@.len() ==> channel < (#[trigger] acf_norm@[i])@.len(),
            forall|j: int| 0 <= j < lag ==> !below_threshold(#[trigger] norm[j][ch]),
            forall|j: int| 0 <= j < lag ==> (#[trigger] acf_norm@[j])@[ch] >= PITCH_THRESHOLD_KEY,
        decreases acf_norm@.len() - lag,
    {
        let value = acf_norm[lag][channel];
        assert(norm[lag as int][ch] == value);
        if value < PITCH_THRESHOLD_KEY {
            proof {
                assert(is_first_below(norm, ch, lag as int));
                let other = choose|l: int| is_first_below(norm, ch, l);
                if other < lag {
                    assert(!below_threshold(norm[other][ch]));
                } else if other > lag {
                    assert(!below_threshold(norm[lag as int][ch]));
                }
                assert forall|l: int|
                    0 <= l < acf_norm@.len() && (#[trigger] acf_norm@[l])@[ch] < PITCH_THRESHOLD_KEY
                        && (forall|j: int| 0 <= j < l ==> (#[trigger] acf_norm@[j])@[ch] >= PITCH_THRESHOLD_KEY)
                    implies l == lag by {
                    if l > lag {
                        assert(acf_norm@[lag as int]@[ch] >= PITCH_THRESHOLD_KEY);
                    }
                }
            }
            return PitchEstimate { pitch: lag, confidence: value };
        }
        lag = lag + 1;
    }
    proof {
        assert(!exists|l: int| is_first_below(norm, ch, l));
        assert forall|l: int|
            0 <= l < acf_norm@.len() && (#[trigger] acf_norm@[l])@[ch] < PITCH_THRESHOLD_KEY
            implies false by {
            assert(acf_norm@[l]@[ch] >= PITCH_THRESHOLD_KEY);
        }
    }
    PitchEstimate::new()
}

/// A channel's estimate has a period found at some lag exactly when some lag's
/// value lies below the threshold; that lag is then the first such lag, and
/// the confidence is its value, itself below the threshold.
pub proof fn lemma_estimate_found_iff_below(norm: Seq<Seq<u32>>, ch: int)
    requires
        norm.len() <= usize::MAX,
    ensures
        (exists|lag: int| is_first_below(norm, ch, lag)) <==> (exists|lag: int|
            0 <= lag < norm.len() && below_threshold(#[trigger] norm[lag][ch])),
        (exists|lag: int| 0 <= lag < norm.len() && below_threshold(#[trigger] norm[lag][ch])) ==> {
            let e = channel_estimate(norm, ch);
            &&& is_first_below(norm, ch, e.pitch as int)
            &&& e.confidence == norm[e.pitch as int][ch]
            &&& below_threshold(e.confidence)
        },
        !(exists|lag: int| 0 <= lag < norm.len() && below_threshold(#[trigger] norm[lag][ch]))
            ==> channel_estimate(norm, ch) == unset_estimate(),
{
    if exists|lag: int| 0 <= lag < norm.len() && below_threshold(#[trigger] norm[lag][ch]) {
        let lag = choose|lag: int| 0 <= lag < norm.len() && below_threshold(#[trigger] norm[lag][ch]);
        lemma_first_below_exists(norm, ch, lag);
        let first = choose|l: int| is_first_below(norm, ch, l);
        assert(is_first_below(norm, ch, first));
        assert(first as usize as int == first);
    }
}

/// The estimate read off the raw keys: when the first key below the key of 0.1
/// (compared as integers, so key 0, the value 0.0, counts) sits at lag `lag`,
/// the estimate has pitch `lag` and that key as confidence; when no key is
/// below it, the estimate is unset.
pub proof fn lemma_estimate_is_first_lag_under_threshold(norm: Seq<Seq<u32>>, ch: int, lag: int)
    requires
        norm.len() <= usize::MAX,
        0 <= lag < norm.len(),
        norm[lag][ch] < PITCH_THRESHOLD_KEY,
        forall|j: int| 0 <= j < lag ==> (#[trigger] norm[j][ch]) >= PITCH_THRESHOLD_KEY,
    ensures
        channel_estimate(norm, ch) == (PitchEstimate { pitch: lag as usize, confidence: norm[lag][ch] }),
        channel_estimate(norm, ch).confidence < PITCH_THRESHOLD_KEY,
{
    assert(is_first_below(norm, ch, lag));
    let other = choose|l: int| is_first_below(norm, ch, l);
    if other < lag {
        assert(norm[other][ch] >= PITCH_THRESHOLD_KEY);
    } else if other > lag {
        assert(!below_threshold(norm[lag][ch]));
    }
}

/// With no key below the key of 0.1, no period is found.
pub proof fn lemma_estimate_unset_without_key_under_threshold(norm: Seq<Seq<u32>>, ch: int)
    requires
        forall|j: int| 0 <= j < norm.len() ==> (#[trigger] norm[j][ch]) >= PITCH_THRESHOLD_KEY,
    ensures
        channel_estimate(norm, ch) == unset_estimate(),
{
    if exists|l: int| is_first_below(norm, ch, l) {
        let l = choose|l: int| is_first_below(norm, ch, l);
        assert(norm[l][ch] >= PITCH_THRESHOLD_KEY);
    }
}

/// `0x3dcc_cccd` is the bit pattern of `0.1f32`.
pub proof fn lemma_threshold_key_value()
    ensures
        PITCH_THRESHOLD_KEY == 0x3dcc_cccdu32,
{
}

/// Below any lag whose value lies below the threshold there is a first one.
proof fn lemma_first_below_exists(norm: Seq<Seq<u32>>, ch: int, lag: int)
    requires
        0 <= lag < norm.len(),
        below_threshold(norm[lag][ch]),
    ensures
        exists|l: int| is_first_below(norm, ch, l),
    decreases lag,
{
    if forall|j: int| 0 <= j < lag ==> !below_threshold(#[trigger] norm[j][ch]) {
        assert(is_first_below(norm, ch, lag));
    } else {
        let j = choose|j: int| 0 <= j < lag && below_threshold(#[trigger] norm[j][ch]);
        lemma_first_below_exists(norm, ch, j);
    }
}

/// The best estimate of a channel is beaten by no estimate of the history; it
/// has no period exactly when no estimate of the history has one, and is then
/// the unset estimate; otherwise it is the oldest estimate that is beaten by
/// none, i.e. one that strictly beats every estimate before it.
pub proof fn lemma_best_is_oldest_minimum(history: Seq<Seq<PitchEstimate>>, ch: int, n: int)
    requires
        0 <= n <= history.len(),
    ensures
        forall|j: int| 0 <= j < n ==> !precedes(#[trigger] history[j][ch], best_prefix(history, ch, n)),
        best_prefix(history, ch, n).pitch == 0 <==> forall|j: int| 0 <= j < n ==> (#[trigger] history[j][ch]).pitch == 0,
        best_prefix(history, ch, n).pitch == 0 ==> best_prefix(history, ch, n) == unset_estimate(),
        best_prefix(history, ch, n).pitch != 0 ==> exists|k: int|
            0 <= k < n && #[trigger] history[k][ch] == best_prefix(history, ch, n)
                && forall|j: int| 0 <= j < k ==> precedes(best_prefix(history, ch, n), #[trigger] history[j][ch]),
    decreases n,
{
    if n > 0 {
        lemma_best_is_oldest_minimum(history, ch, n - 1);
        let kept = best_prefix(history, ch, n - 1);
        let e = history[n - 1][ch];
        let best = best_prefix(history, ch, n);
        if precedes(e, kept) {
            assert forall|j: int| 0 <= j < n implies !precedes(#[trigger] history[j][ch], best) by {
                if j < n - 1 {
                    assert(!precedes(history[j][ch], kept));
                }
            }
            assert forall|j: int| 0 <= j < n - 1 implies precedes(best, #[trigger] history[j][ch]) by {
                assert(!precedes(history[j][ch], kept));
            }
            assert(history[n - 1][ch] == best);
        } else {
            if kept.pitch != 0 {
                let k = choose|k: int|
                    0 <= k < n - 1 && #[trigger] history[k][ch] == kept
                        && forall|j: int| 0 <= j < k ==> precedes(kept, #[trigger] history[j][ch]);
                assert(0 <= k < n && history[k][ch] == best);
            }
            if kept.pitch == 0 {
                assert(e.pitch == 0);
            }
        }
    }
}

/// Over a history in which no estimate has a period, the best estimate is the
/// unset one and the chosen pitch is 0.
pub proof fn lemma_best_of_unset(history: Seq<Seq<PitchEstimate>>, ch: int)
    requires
        forall|j: int| 0 <= j < history.len() ==> (#[trigger] history[j][ch]).pitch == 0,
    ensures
        best_estimate(history, ch) == unset_estimate(),
{
    lemma_best_is_oldest_minimum(history, ch, history.len() as int);
}

/// The history after the estimate frames `frames` were recorded one after the
/// other, each pushing out the oldest frame.
pub open spec fn history_after(
    history: Seq<Seq<PitchEstimate>>,
    frames: Seq<Seq<PitchEstimate>>,
) -> Seq<Seq<PitchEstimate>>
    decreases frames.len(),
{
    if frames.len() == 0 {
        history
    } else {
        history_after(history, frames.drop_last()).drop_first().push(frames.last())
    }
}

/// The history only ever holds the latest frames: after recording `frames`,
/// it is the last `history.len()` frames of the old history followed by them.
pub proof fn lemma_history_is_latest_frames(
    history: Seq<Seq<PitchEstimate>>,
    frames: Seq<Seq<PitchEstimate>>,
)
    requires
        history.len() > 0,
    ensures
        history_after(history, frames) == (history + frames).skip(frames.len() as int),
        history_after(history, frames).len() == history.len(),
    decreases frames.len(),
{
    if frames.len() > 0 {
        let prev = frames.drop_last();
        lemma_history_is_latest_frames(history, prev);
        let all = history + frames;
        assert(history + prev == all.drop_last());
        assert((history + prev).skip(prev.len() as int).drop_first().push(frames.last())
            =~= all.skip(frames.len() as int));
    }
}

/// Once at least as many frames as the history holds were recorded, the old
/// history is forgotten: only the latest frames remain.
pub proof fn lemma_window_forgets(history: Seq<Seq<PitchEstimate>>, frames: Seq<Seq<PitchEstimate>>)
    requires
        history.len() > 0,
        frames.len() >= history.len(),
    ensures
        history_after(history, frames) == frames.skip(frames.len() - history.len()),
{
    lemma_history_is_latest_frames(history, frames);
    assert((history + frames).skip(frames.len() as int) =~= frames.skip(frames.len() - history.len()));
}

/// The YIN pitch extractor's record of estimates: one frame of per-channel
/// estimates for each of the most recent frames (twice the largest lag), and
/// the pitch period last chosen for each channel.
pub struct YinPitchExtractor {
    n_channels: usize,
    pitch_estimates: Fixed<Vec<Vec<PitchEstimate>>>,
    pitch: Vec<usize>,
}

impl YinPitchExtractor {
    /// The estimate frames kept, oldest first.
    pub closed spec fn history(&self) -> Seq<Seq<PitchEstimate>> {
        ring_frames(self.pitch_estimates)
    }

    /// The number of channels.
    pub closed spec fn channel_count(&self) -> nat {
        self.n_channels as nat
    }

    /// The pitch period last chosen for each channel.
    pub closed spec fn pitches(&self) -> Seq<usize> {
        self.pitch@
    }

    /// The extractor's invariant: a non-empty history whose frames all hold one
    /// estimate per channel, and for each channel the pitch of the best
    /// estimate of that history.
    pub open spec fn wf(&self) -> bool {
        &&& self.history().len() > 0
        &&& frames_have_channels(self.history(), self.channel_count())
        &&& self.pitches() == best_pitches(self.history(), self.channel_count())
    }

    /// An extractor that keeps the estimates of the last `2 * max_t` frames,
    /// all unset at first, for `n_channels` channels; every pitch starts at 0.
    pub fn new(max_t: usize, n_channels: usize) -> (e: Self)
        requires
            0 < max_t <= usize::MAX / 2,
        ensures
            e.wf(),
            e.channel_count() == n_channels,
            e.history() == Seq::new(
                (2 * max_t) as nat,
                |i: int| Seq::new(n_channels as nat, |c: int| unset_estimate()),
            ),
            e.pitches() == Seq::new(n_channels as nat, |c: int| 0usize),
    {
        let ghost unset_frame = Seq::new(n_channels as nat, |c: int| unset_estimate());
        let frames = max_t * 2;
        let mut data: Vec<Vec<PitchEstimate>> = Vec::new();
        let mut i: usize = 0;
        while i < frames
            invariant
                i <= frames,
                unset_frame == Seq::new(n_channels as nat, |c: int| unset_estimate()),
                data@.len() == i,
                forall|k: int| 0 <= k < i ==> (#[trigger] data@[k])@ == unset_frame,
            decreases frames - i,
        {
            let mut frame: Vec<PitchEstimate> = Vec::new();
            let mut c: usize = 0;
            while c < n_channels
                invariant
                    c <= n_channels,
                    unset_frame == Seq::new(n_channels as nat, |c: int| unset_estimate()),
                    frame@ == Seq::new(c as nat, |k: int| unset_estimate()),
                decreases n_channels - c,
            {
                frame.push(PitchEstimate::new());
                c = c + 1;
            }
            assert(frame@ == unset_frame);
            data.push(frame);
            i = i + 1;
        }
        let mut pitch: Vec<usize> = Vec::new();
        let mut c: usize = 0;
        while c < n_channels
            invariant
                c <= n_channels,
                pitch@ == Seq::new(c as nat, |k: int| 0usize),
            decreases n_channels - c,
        {
            pitch.push(0);
            c = c + 1;
        }
        let pitch_estimates = ring_from(data);
        let e = YinPitchExtractor { n_channels, pitch_estimates, pitch };
        proof {
            let history = e.history();
            assert(history == Seq::new(frames as nat, |i: int| unset_frame));
            assert forall|ch: int| 0 <= ch < n_channels implies
                #[trigger] best_estimate(history, ch) == unset_estimate() by {
                assert forall|j: int| 0 <= j < history.len() implies (#[trigger] history[j][ch]).pitch == 0 by {
                    assert(history[j] == unset_frame);
                }
                lemma_best_of_unset(history, ch);
            }
            assert(e.pitches() == best_pitches(history, n_channels as nat));
        }
        e
    }

    /// Records the estimates of every channel for a new frame of normalised
    /// differences: the oldest estimate frame leaves the history.
    fn update_pitch_estimates(&mut self, acf_norm: &[Vec<u32>])
        requires
            old(self).history().len() > 0,
            forall|i: int| 0 <= i < acf_norm@.len() ==> old(self).channel_count() <= (#[trigger] acf_norm@[i])@.len(),
        ensures
            final(self).channel_count() == old(self).channel_count(),
            final(self).pitches() == old(self).pitches(),
            final(self).history() == old(self).history().drop_first().push(
                frame_estimates(lag_rows(acf_norm@), old(self).channel_count()),
            ),
    {
        let ghost norm = lag_rows(acf_norm@);
        let n = self.n_channels;
        let mut pitch_estimates: Vec<PitchEstimate> = Vec::new();
        let mut channel: usize = 0;
        while channel < n
            invariant
                channel <= n,
                norm == lag_rows(acf_norm@),
                forall|i: int| 0 <= i < acf_norm@.len() ==> n <= (#[trigger] acf_norm@[i])@.len(),
                pitch_estimates@ == Seq::new(channel as nat, |c: int| channel_estimate(norm, c)),
            decreases n - channel,
        {
            let e = estimate_channel(acf_norm, channel);
            pitch_estimates.push(e);
            channel = channel + 1;
        }
        assert(pitch_estimates@ == frame_estimates(norm, n as nat));
        let _oldest = ring_push(&mut self.pitch_estimates, pitch_estimates);
    }

    /// Chooses, for each channel, the best estimate of the history, the oldest
    /// among equally good ones, and keeps its pitch.
    fn update_pitch(&mut self)
        requires
            old(self).history().len() > 0,
            frames_have_channels(old(self).history(), old(self).channel_count()),
        ensures
            final(self).channel_count() == old(self).channel_count(),
            final(self).history() == old(self).history(),
            final(self).wf(),
    {
        let ghost history = self.history();
        let n = self.n_channels;
        let mut best: Vec<PitchEstimate> = Vec::new();
        let mut c: usize = 0;
        while c < n
            invariant
                c <= n,
                best@ == Seq::new(c as nat, |k: int| unset_estimate()),
            decreases n - c,
        {
            best.push(PitchEstimate::new());
            c = c + 1;
        }
        let len = ring_len(&self.pitch_estimates);
        let mut i: usize = 0;
        while i < len
            invariant
                history == self.history(),
                n == self.channel_count(),
                len == history.len(),
                i <= len,
                frames_have_channels(history, n as nat),
                best@.len() == n,
                forall|k: int| 0 <= k < n ==> #[trigger] best@[k] == best_prefix(history, k, i as int),
            decreases len - i,
        {
            let frame = ring_get(&self.pitch_estimates, i);
            let mut channel: usize = 0;
            while channel < frame.len()
                invariant
                    frame@ == history[i as int],
                    frame@.len() == n,
                    0 <= i < len,
                    channel <= n,
                    best@.len() == n,
                    forall|k: int| 0 <= k < channel ==> #[trigger] best@[k] == best_prefix(history, k, i + 1),
                    forall|k: int| channel <= k < n ==> #[trigger] best@[k] == best_prefix(history, k, i as int),
                decreases n - channel,
            {
                let e = frame[channel];
                let kept = best[channel];
                if e.lt(&kept) {
                    best.set(channel, e);
                }
                channel = channel + 1;
            }
            i = i + 1;
        }
        let mut pitch: Vec<usize> = Vec::new();
        let mut channel: usize = 0;
        while channel < n
            invariant
                channel <= n,
                best@.len() == n,
                len == history.len(),
                forall|k: int| 0 <= k < n ==> #[trigger] best@[k] == best_prefix(history, k, len as int),
                pitch@ == Seq::new(channel as nat, |k: int| best_estimate(history, k).pitch),
            decreases n - channel,
        {
            pitch.push(best[channel].pitch);
            channel = channel + 1;
        }
        self.pitch = pitch;
        assert(self.pitches() == best_pitches(history, n as nat));
    }

    /// Adds the normalised differences of a new frame (one row per lag, one
    /// key per channel in each row) and returns the pitch of every channel:
    /// the pitch of the best estimate among the last frames, the new one included.
    pub fn next(&mut self, acf_norm: &[Vec<u32>]) -> (p: &[usize])
        requires
            old(self).wf(),
            forall|i: int| 0 <= i < acf_norm@.len() ==> old(self).channel_count() <= (#[trigger] acf_norm@[i])@.len(),
        ensures
            final(self).wf(),
            final(self).channel_count() == old(self).channel_count(),
            final(self).history() == old(self).history().drop_first().push(
                frame_estimates(lag_rows(acf_norm@), old(self).channel_count()),
            ),
            final(self).pitches() == best_pitches(final(self).history(), final(self).channel_count()),
            p@ == final(self).pitches(),
    {
        self.update_pitch_estimates(acf_norm);
        proof {
            let h = self.history();
            assert forall|i: int| 0 <= i < h.len() implies (#[trigger] h[i]).len() == self.channel_count() by {
                if i < h.len() - 1 {
                    assert(h[i] == old(self).history()[i + 1]);
                }
            }
        }
        self.update_pitch();
        self.current()
    }

    /// The number of channels.
    pub fn n_channels(&self) -> (n: usize)
        ensures
            n == self.channel_count(),
    {
        self.n_channels
    }

    /// Returns the last calculated pitch.
    pub fn current(&self) -> (p: &[usize])
        ensures
            p@ == self.pitches(),
    {
        self.pitch.as_slice()
    }
}

/// The pitch that a well-formed extractor reports for a channel is 0 exactly
/// when no estimate of that channel in its history has a period; otherwise it
/// is the pitch of the oldest estimate of the history that no other one beats.
pub proof fn lemma_pitch_comes_from_history(x: &YinPitchExtractor, ch: int)
    requires
        x.wf(),
        0 <= ch < x.channel_count(),
    ensures
        x.pitches()[ch] == 0 <==> forall|j: int|
            0 <= j < x.history().len() ==> (#[trigger] x.history()[j][ch]).pitch == 0,
        x.pitches()[ch] != 0 ==> exists|k: int| {
            &&& 0 <= k < x.history().len()
            &&& (#[trigger] x.history()[k][ch]).pitch == x.pitches()[ch]
            &&& forall|j: int| 0 <= j < x.history().len() ==> !precedes(#[trigger] x.history()[j][ch], x.history()[k][ch])
            &&& forall|j: int| 0 <= j < k ==> precedes(x.history()[k][ch], #[trigger] x.history()[j][ch])
        },
{
    let h = x.history();
    lemma_best_is_oldest_minimum(h, ch, h.len() as int);
    assert(x.pitches()[ch] == best_estimate(h, ch).pitch);
}

} // verus!
