//! The library's record of the video track of one mux session: the access
//! units it accepted, their sizes once length-prefixed, their durations and
//! sync flags, and the parameter sets it saw. The box writer that produces the
//! file keeps its own tables; this record is what the library decided to hand
//! it, checked before any byte reaches the sink.
use vstd::prelude::*;
use vstd::slice::slice_to_vec;
use crate::annexb::{NalClass, NalUnit, nal_class, nal_units, classify, split_nal_units};
use crate::status::Minimp4Error;
use crate::timing::{FrameClock, MAX_CLOCK_FRAMES, VIDEO_TIME_SCALE, elapsed_ticks, round_div, lemma_total_within_one_tick};

verus! {

/// An error of a mux session.
#[derive(Debug, Clone, Copy, PartialEq, Eq, Structural)]
pub enum MuxError {
    /// No start code, or a slice too short for its header.
    MalformedStream,
    /// A NAL unit type that the track's codec leaves unspecified.
    UnsupportedCodec,
    /// A frame rate or a duration that gives frames of no length.
    InvalidDuration,
    /// The samples would reach past what 64-bit offsets can address.
    SinkWriteError,
    /// A write after `close`.
    SessionClosed,
    /// Frame-rate timing and explicit durations mixed in one track.
    MixedTiming,
}

impl MuxError {
    /// The engine status that stands for this error: a failed write for the
    /// sink, rejected arguments for the rest.
    pub fn to_engine_error(&self) -> (r: Minimp4Error)
        ensures
            *self == MuxError::SinkWriteError ==> r == Minimp4Error::FileWriteError,
            *self != MuxError::SinkWriteError ==> r == Minimp4Error::BadArguments,
    {
        match self {
            MuxError::SinkWriteError => Minimp4Error::FileWriteError,
            _ => Minimp4Error::BadArguments,
        }
    }
}

/// One entry of the sample table: an access unit written to the media data.
#[derive(Debug, Clone, Copy, PartialEq, Eq, Structural)]
pub struct Sample {
    pub offset: u64,
    pub size: u64,
    pub duration: u32,
    pub sync: bool,
}

/// How a track's sample durations are given.
pub enum TrackTiming {
    /// No sample yet.
    Unset,
    /// The latest samples timed by a constant-rate clock: the last
    /// `frames` of them, since the rate was last set.
    Rate(FrameClock),
    /// Every sample's duration given by the caller.
    Explicit,
}

/// The record of a session's video track.
pub struct VideoTrack {
    pub name: String,
    pub width: i32,
    pub height: i32,
    pub is_hevc: bool,
    /// Where the media data's first sample goes.
    pub mdat_start: u64,
    /// Where the next sample goes.
    pub cursor: u64,
    pub samples: Vec<Sample>,
    pub parameter_sets: Vec<Vec<u8>>,
    pub timing: TrackTiming,
    pub closed: bool,
    /// A write to the sink failed: the session cannot go on.
    pub failed: bool,
}

/// The summary of a closed track.
#[derive(Debug, Clone, Copy, PartialEq, Eq, Structural)]
pub struct TrackSummary {
    pub sample_count: u64,
    pub duration: u128,
    pub media_bytes: u64,
}

/// Total size of the samples.
pub open spec fn sum_sizes(s: Seq<Sample>) -> int
    decreases s.len(),
{
    if s.len() == 0 {
        0
    } else {
        sum_sizes(s.drop_last()) + s.last().size
    }
}

/// Total duration of the samples.
pub open spec fn sum_durations(s: Seq<Sample>) -> int
    decreases s.len(),
{
    if s.len() == 0 {
        0
    } else {
        sum_durations(s.drop_last()) + s.last().duration
    }
}

/// Samples laid out back to back from `start`, none of them empty or of no duration.
pub open spec fn contiguous_from(s: Seq<Sample>, start: int) -> bool {
    forall|i: int|
        0 <= i < s.len() ==> {
            &&& #[trigger] s[i].size > 0
            &&& s[i].duration > 0
            &&& s[i].offset == start + sum_sizes(s.take(i))
        }
}

/// No two records equal.
pub open spec fn no_duplicates(v: Seq<Seq<u8>>) -> bool {
    forall|i: int, j: int| 0 <= i < j < v.len() ==> v[i] != v[j]
}

/// The stored parameter sets after offering `p`: kept as they are if `p` is
/// among them, else with `p` added at the end.
pub open spec fn with_parameter_set(v: Seq<Seq<u8>>, p: Seq<u8>) -> Seq<Seq<u8>> {
    if v.contains(p) {
        v
    } else {
        v.push(p)
    }
}

impl VideoTrack {
    /// The stored parameter sets, as byte sequences.
    pub open spec fn parameter_view(&self) -> Seq<Seq<u8>> {
        self.parameter_sets@.map_values(|v: Vec<u8>| v@)
    }

    /// The track's invariant.
    pub open spec fn wf(&self) -> bool {
        &&& contiguous_from(self.samples@, self.mdat_start as int)
        &&& self.cursor == self.mdat_start + sum_sizes(self.samples@)
        &&& no_duplicates(self.parameter_view())
        &&& match self.timing {
            TrackTiming::Unset => self.samples@.len() == 0,
            TrackTiming::Rate(c) => {
                &&& c.wf()
                &&& c.time_scale == VIDEO_TIME_SCALE
                &&& c.frames <= self.samples@.len()
                &&& sum_durations(self.samples@) == sum_durations(
                    self.samples@.take(self.samples@.len() - c.frames),
                ) + c.elapsed
            },
            TrackTiming::Explicit => true,
        }
    }

    /// An open track with no sample, whose media data begins at `mdat_start`.
    pub fn new(width: i32, height: i32, is_hevc: bool, track_name: &str, mdat_start: u64) -> (r: VideoTrack)
        ensures
            r.wf(),
            r.name@ == track_name@,
            !r.failed,
            r.width == width,
            r.height == height,
            r.is_hevc == is_hevc,
            r.mdat_start == mdat_start,
            r.samples@.len() == 0,
            r.parameter_view().len() == 0,
            r.timing is Unset,
            !r.closed,
    {
        let r = VideoTrack {
            name: track_name.to_owned(),
            width,
            height,
            is_hevc,
            mdat_start,
            cursor: mdat_start,
            samples: Vec::new(),
            parameter_sets: Vec::new(),
            timing: TrackTiming::Unset,
            closed: false,
            failed: false,
        };
        assert(r.parameter_view() =~= Seq::<Seq<u8>>::empty());
        r
    }

    /// Stores a parameter set unless an equal one is stored already; returns
    /// whether it was stored.
    pub fn add_parameter_set(&mut self, nal: &[u8]) -> (stored: bool)
        requires
            old(self).wf(),
        ensures
            final(self).wf(),
            stored == !old(self).parameter_view().contains(nal@),
            final(self).parameter_view() == with_parameter_set(old(self).parameter_view(), nal@),
            final(self).samples == old(self).samples,
            final(self).cursor == old(self).cursor,
            final(self).mdat_start == old(self).mdat_start,
            final(self).timing == old(self).timing,
            final(self).closed == old(self).closed,
            final(self).failed == old(self).failed,
            final(self).name == old(self).name,
            final(self).is_hevc == old(self).is_hevc,
            final(self).width == old(self).width,
            final(self).height == old(self).height,
    {
        let n = self.parameter_sets.len();
        let mut k: usize = 0;
        while k < n
            invariant
                k <= n,
                n == self.parameter_sets@.len(),
                *self == *old(self),
                self.wf(),
                forall|i: int| 0 <= i < k ==> self.parameter_view()[i] != nal@,
            decreases n - k,
        {
            if bytes_equal(self.parameter_sets[k].as_slice(), nal) {
                assert(self.parameter_view()[k as int] == nal@);
                return false;
            }
            k = k + 1;
        }
        assert(!self.parameter_view().contains(nal@)) by {
            if self.parameter_view().contains(nal@) {
                let i = choose|i: int| 0 <= i < self.parameter_view().len() && self.parameter_view()[i] == nal@;
                assert(self.parameter_view()[i] != nal@);
            }
        }
        let ghost before = self.parameter_view();
        self.parameter_sets.push(slice_to_vec(nal));
        assert(self.parameter_view() =~= before.push(nal@));
        true
    }

    /// Appends one sample at the cursor.
    fn append_sample(&mut self, size: u64, duration: u32, sync: bool)
        requires
            contiguous_from(old(self).samples@, old(self).mdat_start as int),
            old(self).cursor == old(self).mdat_start + sum_sizes(old(self).samples@),
            size > 0,
            duration > 0,
            old(self).cursor + size <= u64::MAX,
        ensures
            contiguous_from(final(self).samples@, final(self).mdat_start as int),
            final(self).samples@ == old(self).samples@.push(
                Sample { offset: old(self).cursor, size, duration, sync },
            ),
            final(self).cursor == old(self).cursor + size,
            final(self).cursor == final(self).mdat_start + sum_sizes(final(self).samples@),
            final(self).mdat_start == old(self).mdat_start,
            final(self).parameter_sets == old(self).parameter_sets,
            final(self).timing == old(self).timing,
            final(self).closed == old(self).closed,
            final(self).failed == old(self).failed,
            final(self).name == old(self).name,
            final(self).is_hevc == old(self).is_hevc,
            final(self).width == old(self).width,
            final(self).height == old(self).height,
    {
        let s = Sample { offset: self.cursor, size, duration, sync };
        let ghost before = self.samples@;
        self.samples.push(s);
        self.cursor = self.cursor + size;
        proof {
            let after = self.samples@;
            assert(after.drop_last() =~= before);
            assert forall|i: int| 0 <= i < after.len() implies {
                &&& #[trigger] after[i].size > 0
                &&& after[i].duration > 0
                &&& after[i].offset == self.mdat_start + sum_sizes(after.take(i))
            } by {
                if i < before.len() {
                    assert(after.take(i) =~= before.take(i));
                } else {
                    assert(after.take(i) =~= before);
                }
            }
        }
    }

    /// Ends the session: marks the track closed and reports its totals.
    /// Closing twice is refused.
    pub fn close(&mut self) -> (r: Result<TrackSummary, MuxError>)
        requires
            old(self).wf(),
        ensures
            final(self).wf(),
            old(self).closed ==> r == Err::<TrackSummary, MuxError>(MuxError::SessionClosed)
                && *final(self) == *old(self),
            !old(self).closed ==> r is Ok && final(self).closed,
            r matches Ok(s) ==> {
                &&& s.sample_count == old(self).samples@.len()
                &&& s.duration == sum_durations(old(self).samples@)
                &&& s.media_bytes == sum_sizes(old(self).samples@)
                &&& final(self).samples == old(self).samples
                &&& final(self).parameter_sets == old(self).parameter_sets
                &&& final(self).cursor == old(self).cursor
                &&& final(self).mdat_start == old(self).mdat_start
                &&& final(self).timing == old(self).timing
            },
    {
        if self.closed {
            return Err(MuxError::SessionClosed);
        }
        let n = self.samples.len();
        let mut total: u128 = 0;
        let mut k: usize = 0;
        while k < n
            invariant
                k <= n,
                n == self.samples@.len(),
                self.wf(),
                total == sum_durations(self.samples@.take(k as int)),
                total <= k * 0xffff_ffffu128,
            decreases n - k,
        {
            proof {
                assert(self.samples@.take(k + 1).drop_last() =~= self.samples@.take(k as int));
                assert(k * 0xffff_ffffu128 + 0xffff_ffffu128 == (k + 1) * 0xffff_ffffu128) by (nonlinear_arith);
                assert((k + 1) * 0xffff_ffffu128 <= u128::MAX) by (nonlinear_arith)
                    requires
                        k < n,
                        n <= 0xffff_ffff_ffff_ffffu128,
                ;
            }
            total = total + self.samples[k].duration as u128;
            k = k + 1;
        }
        assert(self.samples@.take(n as int) =~= self.samples@);
        proof {
            lemma_sum_sizes_nonneg(self.samples@);
        }
        self.closed = true;
        Ok(TrackSummary {
            sample_count: n as u64,
            duration: total,
            media_bytes: self.cursor - self.mdat_start,
        })
    }
}

/// The class of unit `u` of `data`.
pub open spec fn unit_class(data: Seq<u8>, u: NalUnit, is_hevc: bool) -> NalClass {
    nal_class(is_hevc, data.subrange(u.start as int, u.end as int))
}

/// The access units that the NAL units `units` of `data` make, as (size, sync)
/// pairs. A slice that opens a picture, or the first slice, begins a new access
/// unit; any other slice joins the current one. A sample holds each slice
/// behind a four-byte length; it is a sync sample when one of its slices is a
/// key slice. Other units make no part of a sample.
pub open spec fn frames_of(data: Seq<u8>, units: Seq<NalUnit>, is_hevc: bool) -> Seq<(int, bool)>
    decreases units.len(),
{
    if units.len() == 0 {
        seq![]
    } else {
        let prev = frames_of(data, units.drop_last(), is_hevc);
        let u = units.last();
        let bytes = 4 + u.end - u.start;
        match unit_class(data, u, is_hevc) {
            NalClass::Slice { key, first } => if first || prev.len() == 0 {
                prev.push((bytes, key))
            } else {
                prev.update(prev.len() - 1, (prev.last().0 + bytes, prev.last().1 || key))
            },
            _ => prev,
        }
    }
}

/// Total size of a sequence of access units.
pub open spec fn frames_total(f: Seq<(int, bool)>) -> int
    decreases f.len(),
{
    if f.len() == 0 {
        0
    } else {
        frames_total(f.drop_last()) + f.last().0
    }
}

/// The stored parameter sets after the parameter-set units of `units` are offered in order.
pub open spec fn parameters_after(data: Seq<u8>, units: Seq<NalUnit>, is_hevc: bool, v: Seq<Seq<u8>>) -> Seq<Seq<u8>>
    decreases units.len(),
{
    if units.len() == 0 {
        v
    } else {
        let prev = parameters_after(data, units.drop_last(), is_hevc, v);
        let u = units.last();
        if unit_class(data, u, is_hevc) is ParameterSet {
            with_parameter_set(prev, data.subrange(u.start as int, u.end as int))
        } else {
            prev
        }
    }
}

/// Some unit of `units` is of the given class.
pub open spec fn has_class(data: Seq<u8>, units: Seq<NalUnit>, is_hevc: bool, c: NalClass) -> bool {
    exists|k: int| 0 <= k < units.len() && unit_class(data, #[trigger] units[k], is_hevc) == c
}

/// The error, if any, that a buffer's units give: none at all, a type the
/// codec leaves unspecified, or a truncated slice.
pub open spec fn stream_error(data: Seq<u8>, units: Seq<NalUnit>, is_hevc: bool) -> Option<MuxError> {
    if units.len() == 0 {
        Some(MuxError::MalformedStream)
    } else if has_class(data, units, is_hevc, NalClass::Unsupported) {
        Some(MuxError::UnsupportedCodec)
    } else if has_class(data, units, is_hevc, NalClass::Truncated) {
        Some(MuxError::MalformedStream)
    } else {
        None
    }
}

/// The outcome of scanning a buffer's units.
pub struct FramePlan {
    /// Each access unit's size and sync flag.
    pub frames: Vec<(u64, bool)>,
    /// For each unit, how many access units begin at or before it.
    pub counts: Vec<usize>,
    pub any_unsupported: bool,
    pub any_truncated: bool,
    /// The access units' total size reaches past `limit`.
    pub too_large: bool,
}

/// The exec sizes agree with the spec ones.
pub open spec fn frames_match(v: Seq<(u64, bool)>, f: Seq<(int, bool)>) -> bool {
    &&& v.len() == f.len()
    &&& forall|j: int| 0 <= j < v.len() ==> (#[trigger] v[j]).0 == f[j].0 && v[j].1 == f[j].1
}

proof fn lemma_frames_total_update_last(f: Seq<(int, bool)>, x: (int, bool))
    requires
        f.len() > 0,
    ensures
        frames_total(f.update(f.len() - 1, x)) == frames_total(f) - f.last().0 + x.0,
{
    let g = f.update(f.len() - 1, x);
    assert(g.drop_last() =~= f.drop_last());
}

proof fn lemma_frames_total_prefix(f: Seq<(int, bool)>, j: int)
    requires
        0 <= j < f.len(),
        forall|i: int| 0 <= i < f.len() ==> (#[trigger] f[i]).0 > 0,
    ensures
        frames_total(f.take(j + 1)) == frames_total(f.take(j)) + f[j].0,
        frames_total(f.take(j + 1)) <= frames_total(f),
    decreases f.len() - j,
{
    assert(f.take(j + 1).drop_last() =~= f.take(j));
    if j + 1 < f.len() {
        lemma_frames_total_prefix(f, j + 1);
    } else {
        assert(f.take(j + 1) =~= f);
    }
}

proof fn lemma_frames_positive(data: Seq<u8>, units: Seq<NalUnit>, is_hevc: bool)
    requires
        forall|k: int| 0 <= k < units.len() ==> (#[trigger] units[k]).start <= units[k].end,
    ensures
        forall|i: int| 0 <= i < frames_of(data, units, is_hevc).len()
            ==> (#[trigger] frames_of(data, units, is_hevc)[i]).0 > 0,
    decreases units.len(),
{
    if units.len() > 0 {
        let pu = units.drop_last();
        assert forall|k: int| 0 <= k < pu.len() implies (#[trigger] pu[k]).start <= pu[k].end by {
            assert(pu[k] == units[k]);
        }
        lemma_frames_positive(data, pu, is_hevc);
        assert(units[units.len() - 1] == units.last());
        let prev = frames_of(data, pu, is_hevc);
        let f = frames_of(data, units, is_hevc);
        assert forall|i: int| 0 <= i < f.len() implies (#[trigger] f[i]).0 > 0 by {
            if i < prev.len() {
                assert(prev[i].0 > 0);
            }
        }
    }
}

proof fn lemma_frames_total_nonneg(f: Seq<(int, bool)>)
    requires
        forall|i: int| 0 <= i < f.len() ==> (#[trigger] f[i]).0 > 0,
    ensures
        frames_total(f) >= 0,
    decreases f.len(),
{
    if f.len() > 0 {
        let g = f.drop_last();
        assert forall|i: int| 0 <= i < g.len() implies (#[trigger] g[i]).0 > 0 by {
            assert(g[i] == f[i]);
        }
        lemma_frames_total_nonneg(g);
        assert(f[f.len() - 1] == f.last());
    }
}

/// Scans the units of `data`: their classes, and the access units they make,
/// whose sizes are only added up while their total stays within `limit`.
pub fn plan_frames(data: &[u8], units: &Vec<NalUnit>, is_hevc: bool, limit: u64) -> (r: FramePlan)
    requires
        forall|k: int| 0 <= k < units@.len() ==> 3 <= #[trigger] units@[k].start < units@[k].end <= data@.len(),
    ensures
        r.any_unsupported == has_class(data@, units@, is_hevc, NalClass::Unsupported),
        r.any_truncated == has_class(data@, units@, is_hevc, NalClass::Truncated),
        r.too_large == (frames_total(frames_of(data@, units@, is_hevc)) > limit),
        !r.too_large ==> frames_match(r.frames@, frames_of(data@, units@, is_hevc)),
        r.counts@.len() == units@.len(),
        forall|k: int| 0 <= k < units@.len()
            ==> #[trigger] r.counts@[k] == frames_of(data@, units@.take(k + 1), is_hevc).len(),
{
    let n = units.len();
    let mut frames: Vec<(u64, bool)> = Vec::new();
    let mut counts: Vec<usize> = Vec::new();
    let mut nframes: usize = 0;
    let mut total: u64 = 0;
    let mut too_large = false;
    let mut any_unsupported = false;
    let mut any_truncated = false;
    let ghost d = data@;
    let ghost us = units@;
    let mut k: usize = 0;
    while k < n
        invariant
            k <= n,
            n == us.len(),
            d == data@,
            us == units@,
            forall|i: int| 0 <= i < us.len() ==> 3 <= #[trigger] us[i].start < us[i].end <= d.len(),
            nframes == frames_of(d, us.take(k as int), is_hevc).len(),
            nframes <= k,
            too_large == (frames_total(frames_of(d, us.take(k as int), is_hevc)) > limit),
            !too_large ==> frames_match(frames@, frames_of(d, us.take(k as int), is_hevc)),
            !too_large ==> total == frames_total(frames_of(d, us.take(k as int), is_hevc)),
            any_unsupported == has_class(d, us.take(k as int), is_hevc, NalClass::Unsupported),
            any_truncated == has_class(d, us.take(k as int), is_hevc, NalClass::Truncated),
            counts@.len() == k,
            forall|i: int| 0 <= i < k ==> #[trigger] counts@[i] == frames_of(d, us.take(i + 1), is_hevc).len(),
        decreases n - k,
    {
        let u = units[k];
        let c = classify(data, u, is_hevc);
        let ghost pre = us.take(k as int);
        let ghost post = us.take(k + 1);
        let ghost fpre = frames_of(d, pre, is_hevc);
        proof {
            assert(post.drop_last() =~= pre);
            assert(post.last() == u);
            assert forall|i: int| 0 <= i < pre.len() implies (#[trigger] pre[i]).start <= pre[i].end by {
                assert(pre[i] == us[i]);
            }
            lemma_frames_positive(d, pre, is_hevc);
            if fpre.len() > 0 {
                lemma_frames_total_prefix(fpre, fpre.len() - 1);
                assert(fpre.take(fpre.len() as int) =~= fpre);
                let g = fpre.take(fpre.len() - 1);
                assert forall|i: int| 0 <= i < g.len() implies (#[trigger] g[i]).0 > 0 by {
                    assert(g[i] == fpre[i]);
                }
                lemma_frames_total_nonneg(g);
                assert(fpre[fpre.len() - 1] == fpre.last());
            }
        }
        let bytes: u64 = (u.end - u.start) as u64;
        match c {
            NalClass::Slice { key, first } => {
                proof {
                    if first || fpre.len() == 0 {
                        assert(fpre.push((4 + u.end - u.start, key)).drop_last() =~= fpre);
                    } else {
                        lemma_frames_total_update_last(fpre, (fpre.last().0 + 4 + u.end - u.start, fpre.last().1 || key));
                    }
                }
                if !too_large {
                    if total > limit || bytes > limit - total || 4 > limit - total - bytes {
                        too_large = true;
                    } else {
                        total = total + bytes + 4;
                        if first || nframes == 0 {
                            frames.push((bytes + 4, key));
                        } else {
                            let last = frames[nframes - 1];
                            frames.set(nframes - 1, (last.0 + bytes + 4, last.1 || key));
                        }
                    }
                }
                if first || nframes == 0 {
                    nframes = nframes + 1;
                }
            },
            NalClass::Unsupported => {
                any_unsupported = true;
            },
            NalClass::Truncated => {
                any_truncated = true;
            },
            _ => {},
        }
        proof {
            let fpost = frames_of(d, post, is_hevc);
            if !too_large {
                assert(frames_match(frames@, fpost));
            }
            assert(has_class(d, post, is_hevc, NalClass::Unsupported) == (has_class(d, pre, is_hevc, NalClass::Unsupported) || c == NalClass::Unsupported)) by {
                if c == NalClass::Unsupported {
                    assert(unit_class(d, post[k as int], is_hevc) == c);
                }
                if has_class(d, pre, is_hevc, NalClass::Unsupported) {
                    let j = choose|j: int| 0 <= j < pre.len() && unit_class(d, #[trigger] pre[j], is_hevc) == NalClass::Unsupported;
                    assert(post[j] == pre[j]);
                }
                if has_class(d, post, is_hevc, NalClass::Unsupported) {
                    let j = choose|j: int| 0 <= j < post.len() && unit_class(d, #[trigger] post[j], is_hevc) == NalClass::Unsupported;
                    if j < k {
                        assert(post[j] == pre[j]);
                    }
                }
            }
            assert(has_class(d, post, is_hevc, NalClass::Truncated) == (has_class(d, pre, is_hevc, NalClass::Truncated) || c == NalClass::Truncated)) by {
                if c == NalClass::Truncated {
                    assert(unit_class(d, post[k as int], is_hevc) == c);
                }
                if has_class(d, pre, is_hevc, NalClass::Truncated) {
                    let j = choose|j: int| 0 <= j < pre.len() && unit_class(d, #[trigger] pre[j], is_hevc) == NalClass::Truncated;
                    assert(post[j] == pre[j]);
                }
                if has_class(d, post, is_hevc, NalClass::Truncated) {
                    let j = choose|j: int| 0 <= j < post.len() && unit_class(d, #[trigger] post[j], is_hevc) == NalClass::Truncated;
                    if j < k {
                        assert(post[j] == pre[j]);
                    }
                }
            }
        }
        counts.push(nframes);
        k = k + 1;
    }
    proof {
        assert(us.take(n as int) =~= us);
    }
    FramePlan { frames, counts, any_unsupported, any_truncated, too_large }
}

impl VideoTrack {
    /// Records that a write to the sink failed: every later write is refused.
    pub fn mark_failed(&mut self)
        requires
            old(self).wf(),
        ensures
            final(self).wf(),
            final(self).failed,
            final(self).samples == old(self).samples,
            final(self).parameter_sets == old(self).parameter_sets,
            final(self).cursor == old(self).cursor,
            final(self).timing == old(self).timing,
            final(self).closed == old(self).closed,
            final(self).name == old(self).name,
    {
        self.failed = true;
    }
}

/// How the samples of one write are timed.
#[derive(Debug, Clone, Copy, PartialEq, Eq, Structural)]
pub enum FrameTiming {
    /// At a constant frame rate, in frames per second.
    Rate(u32),
    /// Each sample lasting the given number of ticks.
    Duration(u32),
}

/// The error, if any, of asking for `timing` on track `t`: a rate or duration
/// that gives frames of no length, or a timing other than the track's own.
pub open spec fn timing_error(t: VideoTrack, timing: FrameTiming) -> Option<MuxError> {
    match timing {
        FrameTiming::Rate(fps) => if fps == 0 || fps > VIDEO_TIME_SCALE {
            Some(MuxError::InvalidDuration)
        } else {
            match t.timing {
                TrackTiming::Explicit => Some(MuxError::MixedTiming),
                _ => None,
            }
        },
        FrameTiming::Duration(d) => if d == 0 {
            Some(MuxError::InvalidDuration)
        } else if t.timing is Rate {
            Some(MuxError::MixedTiming)
        } else {
            None
        },
    }
}

/// The frames already counted by the clock that times a write at `timing`:
/// the track's clock when it runs at that rate, a fresh one otherwise.
pub open spec fn clock_frames(t: VideoTrack, timing: FrameTiming) -> int {
    match (t.timing, timing) {
        (TrackTiming::Rate(c), FrameTiming::Rate(fps)) => if c.fps == fps {
            c.frames as int
        } else {
            0
        },
        _ => 0,
    }
}

/// The error of a write of `data` with `timing` to `t`, if any; checked in
/// this order, and nothing changes when there is one.
pub open spec fn write_error(t: VideoTrack, data: Seq<u8>, timing: FrameTiming) -> Option<MuxError> {
    let units = nal_units(data);
    let frames = frames_of(data, units, t.is_hevc);
    if t.closed {
        Some(MuxError::SessionClosed)
    } else if t.failed {
        Some(MuxError::SinkWriteError)
    } else if timing_error(t, timing) is Some {
        timing_error(t, timing)
    } else if stream_error(data, units, t.is_hevc) is Some {
        stream_error(data, units, t.is_hevc)
    } else if t.cursor + frames_total(frames) > u64::MAX || (timing is Rate && clock_frames(t, timing)
        + frames.len() > MAX_CLOCK_FRAMES) {
        Some(MuxError::SinkWriteError)
    } else {
        None
    }
}

/// The duration handed to the engine with unit `k` of a write: that of the
/// last access unit begun at or before it, or of the first one for the units
/// before any.
pub open spec fn unit_duration(data: Seq<u8>, is_hevc: bool, samples: Seq<Sample>, n0: int, k: int) -> int {
    let units = nal_units(data);
    let nf = frames_of(data, units, is_hevc).len();
    let c = frames_of(data, units.take(k + 1), is_hevc).len();
    if c == 0 {
        if nf > 0 {
            samples[n0].duration as int
        } else {
            0
        }
    } else {
        samples[n0 + c - 1].duration as int
    }
}

proof fn lemma_frames_len_monotone(data: Seq<u8>, units: Seq<NalUnit>, is_hevc: bool, a: int, b: int)
    requires
        0 <= a <= b <= units.len(),
    ensures
        frames_of(data, units.take(a), is_hevc).len() <= frames_of(data, units.take(b), is_hevc).len(),
    decreases b - a,
{
    if a < b {
        lemma_frames_len_monotone(data, units, is_hevc, a, b - 1);
        assert(units.take(b).drop_last() =~= units.take(b - 1));
    }
}

proof fn lemma_sum_durations_push(s: Seq<Sample>, x: Sample)
    ensures
        sum_durations(s.push(x)) == sum_durations(s) + x.duration,
{
    assert(s.push(x).drop_last() =~= s);
}

impl VideoTrack {
    /// Writes a buffer of NAL units: validates the whole buffer first, then
    /// stores its new parameter sets and appends one sample per access unit,
    /// timed as `timing` asks. Returns, for each NAL unit of the buffer, the
    /// duration to hand to the engine with it.
    #[verifier::rlimit(60)]
    #[verifier::spinoff_prover]
    pub fn write_frames(&mut self, data: &[u8], timing: FrameTiming) -> (r: Result<Vec<u32>, MuxError>)
        requires
            old(self).wf(),
        ensures
            final(self).wf(),
            write_error(*old(self), data@, timing) matches Some(e) ==> r == Err::<Vec<u32>, MuxError>(e)
                && *final(self) == *old(self),
            write_error(*old(self), data@, timing) is None ==> r is Ok,
            r matches Ok(durs) ==> {
                let units = nal_units(data@);
                let fr = frames_of(data@, units, old(self).is_hevc);
                let n0 = old(self).samples@.len() as int;
                &&& final(self).samples@.len() == n0 + fr.len()
                &&& final(self).samples@.take(n0) == old(self).samples@
                &&& forall|j: int| 0 <= j < fr.len() ==> {
                    &&& (#[trigger] final(self).samples@[n0 + j]).size == fr[j].0
                    &&& final(self).samples@[n0 + j].sync == fr[j].1
                    &&& (timing matches FrameTiming::Duration(dd) ==> final(self).samples@[n0 + j].duration == dd)
                }
                &&& (timing matches FrameTiming::Rate(fps) ==> final(self).timing matches TrackTiming::Rate(c) && c.fps == fps)
                &&& (timing matches FrameTiming::Rate(fps) ==> forall|j: int| 0 <= j < fr.len() ==>
                    (#[trigger] final(self).samples@[n0 + j]).duration == elapsed_ticks(
                        (clock_frames(*old(self), timing) + j + 1) as nat, VIDEO_TIME_SCALE as nat, fps as nat)
                        - elapsed_ticks((clock_frames(*old(self), timing) + j) as nat, VIDEO_TIME_SCALE as nat, fps as nat))
                &&& (timing is Duration ==> final(self).timing is Explicit)
                &&& final(self).parameter_view() == parameters_after(data@, units, old(self).is_hevc, old(self).parameter_view())
                &&& durs@.len() == units.len()
                &&& forall|k: int| 0 <= k < units.len() ==> #[trigger] durs@[k] == unit_duration(data@, old(self).is_hevc, final(self).samples@, n0, k)
                &&& final(self).mdat_start == old(self).mdat_start
                &&& final(self).closed == old(self).closed
                &&& final(self).failed == old(self).failed
                &&& final(self).name == old(self).name
                &&& final(self).is_hevc == old(self).is_hevc
                &&& final(self).width == old(self).width
                &&& final(self).height == old(self).height
            },
    {
        if self.closed {
            return Err(MuxError::SessionClosed);
        }
        if self.failed {
            return Err(MuxError::SinkWriteError);
        }
        match timing {
            FrameTiming::Rate(fps) => {
                if fps == 0 || fps > VIDEO_TIME_SCALE {
                    return Err(MuxError::InvalidDuration);
                }
                match &self.timing {
                    TrackTiming::Explicit => {
                        return Err(MuxError::MixedTiming);
                    },
                    _ => {},
                }
            },
            FrameTiming::Duration(d) => {
                if d == 0 {
                    return Err(MuxError::InvalidDuration);
                }
                if let TrackTiming::Rate(_) = &self.timing {
                    return Err(MuxError::MixedTiming);
                }
            },
        }
        let units = split_nal_units(data);
        if units.len() == 0 {
            return Err(MuxError::MalformedStream);
        }
        let ghost d = data@;
        let ghost us = units@;
        let ghost h = self.is_hevc;
        let ghost fr = frames_of(d, us, h);
        let plan = plan_frames(data, &units, self.is_hevc, u64::MAX - self.cursor);
        if plan.any_unsupported {
            return Err(MuxError::UnsupportedCodec);
        }
        if plan.any_truncated {
            return Err(MuxError::MalformedStream);
        }
        if plan.too_large {
            return Err(MuxError::SinkWriteError);
        }
        let nf = plan.frames.len();
        let mut clock: FrameClock = match timing {
            FrameTiming::Rate(fps) => {
                let current: Option<FrameClock> = match &self.timing {
                    TrackTiming::Rate(c) => if c.fps == fps {
                        Some(*c)
                    } else {
                        None
                    },
                    _ => None,
                };
                match current {
                    Some(c) => c,
                    None => match FrameClock::new(VIDEO_TIME_SCALE, fps) {
                        Some(c) => c,
                        None => {
                            return Err(MuxError::InvalidDuration);
                        },
                    },
                }
            },
            FrameTiming::Duration(_) => match FrameClock::new(1, 1) {
                Some(c) => c,
                None => {
                    return Err(MuxError::InvalidDuration);
                },
            },
        };
        let by_rate = matches!(timing, FrameTiming::Rate(_));
        if by_rate && (nf as u64 > MAX_CLOCK_FRAMES || clock.frames > MAX_CLOCK_FRAMES - nf as u64) {
            return Err(MuxError::SinkWriteError);
        }
        let ghost old_self = *self;
        let ghost f0 = clock_frames(*self, timing);
        let ghost n0 = self.samples@.len() as int;
        let ghost v0 = self.parameter_view();
        proof {
            lemma_frames_positive(d, us, h);
        }
        // parameter sets
        let nu = units.len();
        let mut k: usize = 0;
        while k < nu
            invariant
                k <= nu,
                nu == us.len(),
                d == data@,
                us == units@,
                h == self.is_hevc,
                forall|i: int| 0 <= i < us.len() ==> 3 <= #[trigger] us[i].start < us[i].end <= d.len(),
                self.wf(),
                self.parameter_view() == parameters_after(d, us.take(k as int), h, v0),
                self.samples == old_self.samples,
                self.cursor == old_self.cursor,
                self.mdat_start == old_self.mdat_start,
                self.timing == old_self.timing,
                self.closed == old_self.closed,
                self.failed == old_self.failed,
                self.name == old_self.name,
                self.width == old_self.width,
                self.height == old_self.height,
            decreases nu - k,
        {
            let u = units[k];
            proof {
                assert(us.take(k + 1).drop_last() =~= us.take(k as int));
                assert(us.take(k + 1).last() == u);
            }
            if let NalClass::ParameterSet = classify(data, u, self.is_hevc) {
                self.add_parameter_set(vstd::slice::slice_subrange(data, u.start, u.end));
            }
            k = k + 1;
        }
        proof {
            assert(us.take(nu as int) =~= us);
        }
        // samples
        proof {
            assert(self.samples@.take(self.samples@.len() as int) =~= self.samples@);
        }
        match timing {
            FrameTiming::Rate(_) => {
                self.timing = TrackTiming::Rate(clock);
            },
            FrameTiming::Duration(_) => {
                self.timing = TrackTiming::Explicit;
            },
        }
        let ghost v1 = self.parameter_view();
        let ghost cursor0 = self.cursor as int;
        let mut durs: Vec<u32> = Vec::new();
        let mut j: usize = 0;
        while j < nf
            invariant
                j <= nf,
                nf == fr.len(),
                frames_match(plan.frames@, fr),
                forall|i: int| 0 <= i < fr.len() ==> (#[trigger] fr[i]).0 > 0,
                cursor0 + frames_total(fr) <= u64::MAX,
                self.wf(),
                self.cursor == cursor0 + frames_total(fr.take(j as int)),
                0 <= n0,
                timing is Rate ==> 0 <= f0 <= n0,
                self.samples@.len() == n0 + j,
                self.samples@.take(n0) == old_self.samples@,
                forall|i: int| 0 <= i < j ==> {
                    &&& (#[trigger] self.samples@[n0 + i]).size == fr[i].0
                    &&& self.samples@[n0 + i].sync == fr[i].1
                    &&& (timing matches FrameTiming::Duration(dd) ==> self.samples@[n0 + i].duration == dd)
                },
                durs@.len() == j,
                forall|i: int| 0 <= i < j ==> #[trigger] durs@[i] == self.samples@[n0 + i].duration,
                timing is Rate ==> self.timing == TrackTiming::Rate(clock) && clock.frames + (nf - j) <= MAX_CLOCK_FRAMES,
                (timing matches FrameTiming::Rate(fps) ==> clock.fps == fps),
                timing is Rate ==> clock.wf() && clock.time_scale == VIDEO_TIME_SCALE && clock.frames == f0 + j,
                (timing matches FrameTiming::Rate(fps) ==> forall|i: int| 0 <= i < j ==>
                    (#[trigger] self.samples@[n0 + i]).duration == elapsed_ticks((f0 + i + 1) as nat, VIDEO_TIME_SCALE as nat, fps as nat)
                        - elapsed_ticks((f0 + i) as nat, VIDEO_TIME_SCALE as nat, fps as nat)),
                (timing matches FrameTiming::Duration(dd) ==> dd > 0),
                timing is Duration ==> self.timing is Explicit,
                self.parameter_view() == v1,
                self.mdat_start == old_self.mdat_start,
                self.closed == old_self.closed,
                self.failed == old_self.failed,
                self.name == old_self.name,
                self.is_hevc == old_self.is_hevc,
                self.width == old_self.width,
                self.height == old_self.height,
            decreases nf - j,
        {
            let f = plan.frames[j];
            proof {
                lemma_frames_total_prefix(fr, j as int);
            }
            let dur: u32 = match timing {
                FrameTiming::Rate(_) => match clock.tick() {
                    Some(t) => t,
                    None => 1,
                },
                FrameTiming::Duration(dd) => dd,
            };
            let ghost before = self.samples@;
            self.append_sample(f.0, dur, f.1);
            proof {
                lemma_sum_durations_push(before, Sample { offset: self.samples@.last().offset, size: f.0, duration: dur, sync: f.1 });
                if timing is Rate {
                    assert(self.samples@.take(n0 - f0) =~= before.take(n0 - f0));
                }
                assert(self.samples@.len() == before.len() + 1);
                assert forall|i: int| 0 <= i < n0 implies #[trigger] self.samples@.take(n0)[i] == before.take(n0)[i] by {
                    assert(self.samples@[i] == before[i]);
                }
                assert(self.samples@.take(n0) =~= before.take(n0));
                if let FrameTiming::Rate(fps) = timing {
                    assert forall|i: int| 0 <= i < j + 1 implies
                        (#[trigger] self.samples@[n0 + i]).duration == elapsed_ticks((f0 + i + 1) as nat, VIDEO_TIME_SCALE as nat, fps as nat)
                            - elapsed_ticks((f0 + i) as nat, VIDEO_TIME_SCALE as nat, fps as nat) by {
                        if i < j {
                            assert(self.samples@[n0 + i] == before[n0 + i]);
                        }
                    }
                }
                assert forall|i: int| 0 <= i < j + 1 implies {
                    &&& (#[trigger] self.samples@[n0 + i]).size == fr[i].0
                    &&& self.samples@[n0 + i].sync == fr[i].1
                    &&& (timing matches FrameTiming::Duration(dd) ==> self.samples@[n0 + i].duration == dd)
                } by {
                    if i < j {
                        assert(self.samples@[n0 + i] == before[n0 + i]);
                    }
                }
            }
            if let FrameTiming::Rate(_) = timing {
                self.timing = TrackTiming::Rate(clock);
            }
            durs.push(dur);
            proof {
                assert forall|i: int| 0 <= i < j + 1 implies #[trigger] durs@[i] == self.samples@[n0 + i].duration by {
                    if i < j {
                        assert(self.samples@[n0 + i] == before[n0 + i]);
                    }
                }
            }
            j = j + 1;
        }
        // durations for the engine, unit by unit
        let mut out: Vec<u32> = Vec::new();
        let mut k: usize = 0;
        while k < nu
            invariant
                k <= nu,
                nu == us.len(),
                us == nal_units(d),
                nf == fr.len(),
                fr == frames_of(d, us, h),
                plan.counts@.len() == nu,
                forall|i: int| 0 <= i < nu ==> #[trigger] plan.counts@[i] == frames_of(d, us.take(i + 1), h).len(),
                durs@.len() == nf,
                0 <= n0,
                self.samples@.len() == n0 + nf,
                forall|i: int| 0 <= i < nf ==> #[trigger] durs@[i] == self.samples@[n0 + i].duration,
                out@.len() == k,
                forall|i: int| 0 <= i < k ==> #[trigger] out@[i] == unit_duration(d, h, self.samples@, n0, i),
            decreases nu - k,
        {
            let c = plan.counts[k];
            proof {
                lemma_frames_len_monotone(d, us, h, k + 1, nu as int);
                assert(us.take(nu as int) =~= us);
            }
            let x: u32 = if c == 0 {
                if nf > 0 {
                    durs[0]
                } else {
                    0
                }
            } else {
                durs[c - 1]
            };
            out.push(x);
            k = k + 1;
        }
        proof {
            assert(fr.take(nf as int) =~= fr);
        }
        Ok(out)
    }
}

/// On a track timed at one constant rate throughout, the samples' durations add up to the
/// exact elapsed time truncated to whole ticks, which lies within one tick of
/// the elapsed time rounded to the nearest tick.
pub proof fn lemma_rate_track_duration(t: VideoTrack)
    requires
        t.wf(),
        t.timing is Rate,
        t.timing->Rate_0.frames == t.samples@.len(),
    ensures
        ({
            let fps = t.timing->Rate_0.fps as nat;
            let n = t.samples@.len();
            &&& sum_durations(t.samples@) == elapsed_ticks(n, VIDEO_TIME_SCALE as nat, fps)
            &&& sum_durations(t.samples@) <= round_div((n * VIDEO_TIME_SCALE) as int, fps as int)
            &&& round_div((n * VIDEO_TIME_SCALE) as int, fps as int) <= sum_durations(t.samples@) + 1
        }),
{
    let c = t.timing->Rate_0;
    assert(t.samples@.take(0) =~= Seq::<Sample>::empty());
    lemma_total_within_one_tick(t.samples@.len(), VIDEO_TIME_SCALE as nat, c.fps as nat);
}

proof fn lemma_sum_sizes_take_step(s: Seq<Sample>, i: int)
    requires
        0 <= i < s.len(),
    ensures
        sum_sizes(s.take(i + 1)) == sum_sizes(s.take(i)) + s[i].size,
{
    assert(s.take(i + 1).drop_last() =~= s.take(i));
}

/// The sample table of a track lays its samples back to back: each begins
/// where the one before ends, offsets strictly increase, and the sizes add
/// up to the bytes written to the media data.
pub proof fn lemma_sample_layout(t: VideoTrack)
    requires
        t.wf(),
    ensures
        forall|i: int| 0 <= i < t.samples@.len() - 1
            ==> #[trigger] t.samples@[i].offset + t.samples@[i].size == t.samples@[i + 1].offset,
        forall|i: int, j: int| 0 <= i < j < t.samples@.len()
            ==> #[trigger] t.samples@[i].offset < #[trigger] t.samples@[j].offset,
        sum_sizes(t.samples@) == t.cursor - t.mdat_start,
        t.samples@.len() > 0 ==> t.samples@[0].offset == t.mdat_start,
{
    let s = t.samples@;
    assert forall|i: int| 0 <= i < s.len() - 1 implies #[trigger] s[i].offset + s[i].size == s[i + 1].offset by {
        lemma_sum_sizes_take_step(s, i);
        assert(s[i].size > 0);
        assert(s[i + 1].size > 0);
    }
    assert forall|i: int, j: int| 0 <= i < j < s.len() implies #[trigger] s[i].offset < #[trigger] s[j].offset by {
        lemma_offsets_increase(s, t.mdat_start as int, i, j);
    }
    if s.len() > 0 {
        assert(s.take(0) =~= Seq::<Sample>::empty());
        assert(s[0].size > 0);
    }
}

proof fn lemma_offsets_increase(s: Seq<Sample>, start: int, i: int, j: int)
    requires
        contiguous_from(s, start),
        0 <= i < j < s.len(),
    ensures
        s[i].offset < s[j].offset,
    decreases j - i,
{
    lemma_sum_sizes_take_step(s, j - 1);
    assert(s[j - 1].size > 0);
    assert(s[j].size > 0);
    if i < j - 1 {
        lemma_offsets_increase(s, start, i, j - 1);
    }
}

/// Offering a parameter set stores it exactly once: offering it again changes
/// nothing, the record is then held, and no two records are equal.
pub proof fn lemma_parameter_set_once(v: Seq<Seq<u8>>, p: Seq<u8>)
    requires
        no_duplicates(v),
    ensures
        with_parameter_set(with_parameter_set(v, p), p) == with_parameter_set(v, p),
        with_parameter_set(v, p).contains(p),
        no_duplicates(with_parameter_set(v, p)),
        forall|i: int, j: int|
            0 <= i < j < with_parameter_set(v, p).len() ==> !(#[trigger] with_parameter_set(v, p)[i] == p
                && #[trigger] with_parameter_set(v, p)[j] == p),
{
    let w = with_parameter_set(v, p);
    if v.contains(p) {
    } else {
        assert(w[v.len() as int] == p);
        assert forall|i: int, j: int| 0 <= i < j < w.len() implies w[i] != w[j] by {
            if j == v.len() {
                assert(w[i] == v[i]);
                assert(v[i] != p);
            } else {
                assert(w[i] == v[i] && w[j] == v[j]);
            }
        }
    }
}

/// A track with no sample has neither duration nor media bytes.
pub proof fn lemma_empty_track_totals(t: VideoTrack)
    requires
        t.wf(),
        t.samples@.len() == 0,
    ensures
        sum_durations(t.samples@) == 0,
        sum_sizes(t.samples@) == 0,
        t.cursor == t.mdat_start,
{
}

/// Unit `k` is a key slice.
pub open spec fn is_key_slice(data: Seq<u8>, units: Seq<NalUnit>, is_hevc: bool, k: int) -> bool {
    unit_class(data, units[k], is_hevc) matches NalClass::Slice { key, first } && key
}

/// The access unit that a slice belongs to is the last one begun at or before it.
pub open spec fn belongs_to(data: Seq<u8>, units: Seq<NalUnit>, is_hevc: bool, k: int, i: int) -> bool {
    &&& unit_class(data, units[k], is_hevc) is Slice
    &&& frames_of(data, units.take(k + 1), is_hevc).len() == i + 1
}

/// An access unit is a sync sample exactly when one of its slices is a key
/// (IDR / IRAP) slice.
pub proof fn lemma_sync_iff_key_slice(data: Seq<u8>, units: Seq<NalUnit>, is_hevc: bool)
    ensures
        forall|i: int| 0 <= i < frames_of(data, units, is_hevc).len() ==>
            ((#[trigger] frames_of(data, units, is_hevc)[i]).1 <==> exists|k: int|
                0 <= k < units.len() && belongs_to(data, units, is_hevc, k, i) && is_key_slice(data, units, is_hevc, k)),
    decreases units.len(),
{
    if units.len() > 0 {
        let n = units.len() as int;
        let pu = units.drop_last();
        lemma_sync_iff_key_slice(data, pu, is_hevc);
        let prev = frames_of(data, pu, is_hevc);
        let f = frames_of(data, units, is_hevc);
        assert(units.take(n) =~= units);
        assert(units[n - 1] == units.last());
        assert forall|k: int| 0 <= k < n - 1 implies
            #[trigger] units.take(k + 1) == pu.take(k + 1) && units[k] == pu[k] by {
            assert(units.take(k + 1) =~= pu.take(k + 1));
        }
        assert forall|k: int| 0 <= k < n - 1 implies
            #[trigger] frames_of(data, units.take(k + 1), is_hevc).len() <= prev.len() by {
            lemma_frames_len_monotone(data, pu, is_hevc, k + 1, n - 1);
            assert(pu.take(n - 1) =~= pu);
            assert(units.take(k + 1) =~= pu.take(k + 1));
        }
        assert forall|i: int| 0 <= i < f.len() implies
            ((#[trigger] f[i]).1 <==> exists|k: int|
                0 <= k < units.len() && belongs_to(data, units, is_hevc, k, i) && is_key_slice(data, units, is_hevc, k)) by {
            let old_side = exists|k: int|
                0 <= k < pu.len() && belongs_to(data, pu, is_hevc, k, i) && is_key_slice(data, pu, is_hevc, k);
            let new_side = exists|k: int|
                0 <= k < units.len() && belongs_to(data, units, is_hevc, k, i) && is_key_slice(data, units, is_hevc, k);
            let last_count = f.len();
            assert(frames_of(data, units.take(n), is_hevc) == f);
            // a key slice among the units before the last stays one, in the same access unit
            if old_side {
                let k = choose|k: int|
                    0 <= k < pu.len() && belongs_to(data, pu, is_hevc, k, i) && is_key_slice(data, pu, is_hevc, k);
                assert(units.take(k + 1) == pu.take(k + 1) && units[k] == pu[k]);
                assert(belongs_to(data, units, is_hevc, k, i) && is_key_slice(data, units, is_hevc, k));
            }
            let last_is_key_here = belongs_to(data, units, is_hevc, n - 1, i) && is_key_slice(data, units, is_hevc, n - 1);
            if new_side {
                let k = choose|k: int|
                    0 <= k < units.len() && belongs_to(data, units, is_hevc, k, i) && is_key_slice(data, units, is_hevc, k);
                if k < n - 1 {
                    assert(units.take(k + 1) == pu.take(k + 1) && units[k] == pu[k]);
                    assert(belongs_to(data, pu, is_hevc, k, i) && is_key_slice(data, pu, is_hevc, k));
                    assert(old_side);
                } else {
                    assert(last_is_key_here);
                }
            }
            assert(new_side == (old_side || last_is_key_here));
            match unit_class(data, units.last(), is_hevc) {
                NalClass::Slice { key, first } => {
                    if first || prev.len() == 0 {
                        assert(f.len() == prev.len() + 1);
                        if i < prev.len() {
                            assert(f[i] == prev[i]);
                            assert(!last_is_key_here);
                        } else {
                            assert(i == prev.len());
                            assert(!old_side) by {
                                if old_side {
                                    let k = choose|k: int|
                                        0 <= k < pu.len() && belongs_to(data, pu, is_hevc, k, i) && is_key_slice(data, pu, is_hevc, k);
                                    assert(units.take(k + 1) == pu.take(k + 1));
                                    assert(frames_of(data, units.take(k + 1), is_hevc).len() <= prev.len());
                                }
                            }
                            assert(f[i].1 == key);
                            assert(last_is_key_here == key);
                        }
                    } else {
                        assert(f.len() == prev.len());
                        if i < prev.len() - 1 {
                            assert(f[i] == prev[i]);
                            assert(!last_is_key_here);
                        } else {
                            assert(f[i].1 == (prev[i].1 || key));
                            assert(last_is_key_here == key);
                        }
                    }
                },
                _ => {
                    assert(f == prev);
                    assert(!last_is_key_here);
                },
            }
        }
    }
}

/// The payload of unit `k` is a parameter set.
pub open spec fn is_parameter_unit(data: Seq<u8>, units: Seq<NalUnit>, is_hevc: bool, k: int) -> bool {
    unit_class(data, units[k], is_hevc) is ParameterSet
}

/// The payload of unit `k`.
pub open spec fn unit_payload(data: Seq<u8>, units: Seq<NalUnit>, k: int) -> Seq<u8> {
    data.subrange(units[k].start as int, units[k].end as int)
}

proof fn lemma_parameters_after_step(data: Seq<u8>, units: Seq<NalUnit>, is_hevc: bool, v: Seq<Seq<u8>>)
    ensures
        no_duplicates(v) ==> no_duplicates(parameters_after(data, units, is_hevc, v)),
        forall|p: Seq<u8>| v.contains(p) ==> #[trigger] parameters_after(data, units, is_hevc, v).contains(p),
        forall|k: int| 0 <= k < units.len() && is_parameter_unit(data, units, is_hevc, k)
            ==> #[trigger] parameters_after(data, units, is_hevc, v).contains(unit_payload(data, units, k)),
        (forall|k: int| 0 <= k < units.len() && is_parameter_unit(data, units, is_hevc, k)
            ==> v.contains(#[trigger] unit_payload(data, units, k)))
            ==> parameters_after(data, units, is_hevc, v) == v,
    decreases units.len(),
{
    if units.len() > 0 {
        let n = units.len() as int;
        let pu = units.drop_last();
        lemma_parameters_after_step(data, pu, is_hevc, v);
        let prev = parameters_after(data, pu, is_hevc, v);
        let r = parameters_after(data, units, is_hevc, v);
        assert(units[n - 1] == units.last());
        assert forall|k: int| 0 <= k < n - 1 implies units[k] == pu[k] by {}
        if unit_class(data, units.last(), is_hevc) is ParameterSet {
            let p = data.subrange(units.last().start as int, units.last().end as int);
            if no_duplicates(prev) {
                lemma_parameter_set_once(prev, p);
            }
            assert forall|q: Seq<u8>| prev.contains(q) implies #[trigger] r.contains(q) by {
                if !prev.contains(p) {
                    let i = choose|i: int| 0 <= i < prev.len() && prev[i] == q;
                    assert(r[i] == q);
                }
            }
            lemma_parameter_set_once(Seq::<Seq<u8>>::empty(), p);
            if !prev.contains(p) {
                assert(r[prev.len() as int] == p);
            }
            assert forall|k: int| 0 <= k < units.len() && is_parameter_unit(data, units, is_hevc, k)
                implies #[trigger] r.contains(unit_payload(data, units, k)) by {
                if k < n - 1 {
                    assert(unit_payload(data, units, k) == unit_payload(data, pu, k));
                    assert(is_parameter_unit(data, pu, is_hevc, k));
                }
            }
            if forall|k: int| 0 <= k < units.len() && is_parameter_unit(data, units, is_hevc, k)
                ==> v.contains(#[trigger] unit_payload(data, units, k)) {
                assert forall|k: int| 0 <= k < pu.len() && is_parameter_unit(data, pu, is_hevc, k)
                    implies v.contains(#[trigger] unit_payload(data, pu, k)) by {
                    assert(unit_payload(data, units, k) == unit_payload(data, pu, k));
                    assert(is_parameter_unit(data, units, is_hevc, k));
                }
                assert(unit_payload(data, units, n - 1) == p);
                assert(is_parameter_unit(data, units, is_hevc, n - 1));
                assert(prev == v);
            }
        } else {
            assert forall|k: int| 0 <= k < units.len() && is_parameter_unit(data, units, is_hevc, k)
                implies #[trigger] r.contains(unit_payload(data, units, k)) by {
                if k < n - 1 {
                    assert(unit_payload(data, units, k) == unit_payload(data, pu, k));
                    assert(is_parameter_unit(data, pu, is_hevc, k));
                }
            }
            if forall|k: int| 0 <= k < units.len() && is_parameter_unit(data, units, is_hevc, k)
                ==> v.contains(#[trigger] unit_payload(data, units, k)) {
                assert forall|k: int| 0 <= k < pu.len() && is_parameter_unit(data, pu, is_hevc, k)
                    implies v.contains(#[trigger] unit_payload(data, pu, k)) by {
                    assert(unit_payload(data, units, k) == unit_payload(data, pu, k));
                    assert(is_parameter_unit(data, units, is_hevc, k));
                }
            }
        }
    }
}

/// Over any number of writes, parameter sets are stored once each: a write
/// keeps every record already stored and stores every parameter set it
/// carries, without duplicates; a write whose parameter sets are all stored
/// already (the same SPS / PPS sent again) leaves the records as they are, so
/// writing a buffer's parameter sets a second time changes nothing.
pub proof fn lemma_parameter_sets_over_writes(data: Seq<u8>, is_hevc: bool, v: Seq<Seq<u8>>)
    requires
        no_duplicates(v),
    ensures
        ({
            let units = nal_units(data);
            let w = parameters_after(data, units, is_hevc, v);
            &&& no_duplicates(w)
            &&& forall|p: Seq<u8>| v.contains(p) ==> #[trigger] w.contains(p)
            &&& forall|k: int| 0 <= k < units.len() && is_parameter_unit(data, units, is_hevc, k)
                ==> #[trigger] w.contains(unit_payload(data, units, k))
            &&& ((forall|k: int| 0 <= k < units.len() && is_parameter_unit(data, units, is_hevc, k)
                ==> v.contains(#[trigger] unit_payload(data, units, k))) ==> w == v)
            &&& parameters_after(data, units, is_hevc, w) == w
        }),
{
    let units = nal_units(data);
    lemma_parameters_after_step(data, units, is_hevc, v);
    let w = parameters_after(data, units, is_hevc, v);
    lemma_parameters_after_step(data, units, is_hevc, w);
}

/// Sizes add up to no less than zero, and to no less than any one of them.
pub proof fn lemma_sum_sizes_nonneg(s: Seq<Sample>)
    ensures
        sum_sizes(s) >= 0,
        forall|i: int| 0 <= i < s.len() ==> #[trigger] s[i].size <= sum_sizes(s),
    decreases s.len(),
{
    if s.len() > 0 {
        lemma_sum_sizes_nonneg(s.drop_last());
        assert forall|i: int| 0 <= i < s.len() implies #[trigger] s[i].size <= sum_sizes(s) by {
            if i < s.len() - 1 {
                assert(s[i] == s.drop_last()[i]);
            }
        }
    }
}

/// Whether two byte strings are equal.
pub fn bytes_equal(a: &[u8], b: &[u8]) -> (r: bool)
    ensures
        r == (a@ == b@),
{
    if a.len() != b.len() {
        return false;
    }
    let n = a.len();
    let mut i: usize = 0;
    while i < n
        invariant
            i <= n,
            n == a@.len(),
            n == b@.len(),
            forall|k: int| 0 <= k < i ==> a@[k] == b@[k],
        decreases n - i,
    {
        if a[i] != b[i] {
            return false;
        }
        i = i + 1;
    }
    assert(a@ =~= b@);
    true
}

} // verus!
