//! The optional audio track: its encoder settings, the interleave policy that
//! says how many encoded audio frames follow each video access unit, and the
//! record of how the media data alternates between the two tracks in chunks.
use vstd::prelude::*;
use crate::timing::VIDEO_TIME_SCALE;

verus! {

/// What the audio encoder is set up with.
#[derive(Debug, Clone, Copy, PartialEq, Eq, Structural)]
pub struct AudioParams {
    pub bit_rate: u32,
    pub sample_rate: u32,
    pub channel_count: u32,
}

impl AudioParams {
    pub fn new(bit_rate: u32, sample_rate: u32, channel_count: u32) -> (r: AudioParams)
        ensures
            r.bit_rate == bit_rate,
            r.sample_rate == sample_rate,
            r.channel_count == channel_count,
    {
        AudioParams { bit_rate, sample_rate, channel_count }
    }
}

proof fn lemma_floor_mul_le(q: int, b: int, a: int, j: int)
    requires
        b > 0,
        a >= 0,
        q == a / b,
        0 <= j <= q,
    ensures
        j * b <= a,
{
    assert(j * b <= q * b) by (nonlinear_arith)
        requires
            0 <= j <= q,
            b > 0,
    ;
    assert(q * b <= a) by (nonlinear_arith)
        requires
            q == a / b,
            b > 0,
            a >= 0,
    ;
}

/// How many more audio frames are due once the video has reached
/// `video_end` (in video ticks): every frame not yet written (`written` of
/// them are) whose start time is at or before `video_end`. Frame `j` starts
/// at `j * frame_len / sample_rate` seconds.
pub fn audio_frames_due(video_end: u64, written: u64, frame_len: u32, sample_rate: u32) -> (due: u64)
    requires
        frame_len > 0,
        sample_rate > 0,
        sample_rate <= VIDEO_TIME_SCALE * frame_len,
        video_end < u64::MAX,
    ensures
        forall|j: int| written <= j < written + due
            ==> #[trigger] (j * frame_len * VIDEO_TIME_SCALE) <= video_end * sample_rate,
        (written + due) * frame_len * VIDEO_TIME_SCALE > video_end * sample_rate,
{
    proof {
        assert(video_end as u128 * sample_rate as u128 <= 0xffff_ffff_ffff_ffffu128 * 0xffff_ffffu128)
            by (nonlinear_arith)
            requires
                video_end <= 0xffff_ffff_ffff_ffffu64,
                sample_rate <= 0xffff_ffffu32,
        ;
    }
    let a: u128 = video_end as u128 * sample_rate as u128;
    proof {
        assert(frame_len as u128 * 90000u128 <= 0xffff_ffffu128 * 90000u128) by (nonlinear_arith)
            requires
                frame_len <= 0xffff_ffffu32,
        ;
    }
    let b: u128 = frame_len as u128 * VIDEO_TIME_SCALE as u128;
    let q: u128 = a / b;
    proof {
        assert(q <= video_end) by (nonlinear_arith)
            requires
                q == a / b,
                a == video_end * sample_rate,
                b == frame_len * 90000,
                sample_rate <= 90000 * frame_len,
                frame_len > 0,
                sample_rate > 0,
        ;
        assert((q + 1) * b > a) by (nonlinear_arith)
            requires
                q == a / b,
                b > 0,
                a >= 0,
        ;
        assert forall|j: int| written <= j <= q implies
            #[trigger] (j * frame_len * VIDEO_TIME_SCALE) <= video_end * sample_rate by {
            lemma_floor_mul_le(q as int, b as int, a as int, j);
            assert(j * frame_len * VIDEO_TIME_SCALE == j * (frame_len * VIDEO_TIME_SCALE)) by (nonlinear_arith);
        }
    }
    if written as u128 > q {
        proof {
            assert(written * b > a) by (nonlinear_arith)
                requires
                    written >= q + 1,
                    (q + 1) * b > a,
                    b > 0,
            ;
            assert(written * frame_len * VIDEO_TIME_SCALE == written * (frame_len * VIDEO_TIME_SCALE)) by (nonlinear_arith);
        }
        0
    } else {
        let due: u64 = (q + 1 - written as u128) as u64;
        proof {
            assert((q + 1) * frame_len * VIDEO_TIME_SCALE == (q + 1) * (frame_len * VIDEO_TIME_SCALE)) by (nonlinear_arith);
        }
        due
    }
}

/// Which track a chunk of media data belongs to.
#[derive(Debug, Clone, Copy, PartialEq, Eq, Structural)]
pub enum MediaKind {
    Video,
    Audio,
}

/// A run of consecutive samples of one track in the media data.
#[derive(Debug, Clone, Copy, PartialEq, Eq, Structural)]
pub struct Chunk {
    pub kind: MediaKind,
    pub offset: u64,
    pub size: u64,
    pub samples: u64,
}

/// The media data of an interleaved session, as chunks in file order.
pub struct MediaLayout {
    pub mdat_start: u64,
    pub cursor: u64,
    pub chunks: Vec<Chunk>,
}

/// Chunk `i` ends where chunk `i + 1` begins, and the two belong to different tracks.
pub open spec fn joined(c: Seq<Chunk>, i: int) -> bool {
    &&& c[i].offset + c[i].size == c[i + 1].offset
    &&& c[i].kind != c[i + 1].kind
}

/// Chunks lie back to back from `start` up to `cursor`, none empty (each
/// sample holds at least a byte), and two neighbours never belong to the
/// same track.
pub open spec fn layout_ok(c: Seq<Chunk>, start: int, cursor: int) -> bool {
    &&& forall|i: int| 0 <= i < c.len() ==> (#[trigger] c[i]).size > 0 && 0 < c[i].samples <= c[i].size
    &&& c.len() == 0 ==> cursor == start
    &&& c.len() > 0 ==> c[0].offset == start
    &&& c.len() > 0 ==> cursor == c[c.len() - 1].offset + c[c.len() - 1].size
    &&& forall|i: int| 0 <= i < c.len() - 1 ==> #[trigger] joined(c, i)
}

proof fn lemma_layout_push(c: Seq<Chunk>, start: int, cursor: int, nc: Chunk)
    requires
        layout_ok(c, start, cursor),
        c.len() == 0 || c[c.len() - 1].kind != nc.kind,
        nc.offset == cursor,
        nc.size > 0,
        0 < nc.samples <= nc.size,
    ensures
        layout_ok(c.push(nc), start, cursor + nc.size),
{
    let d = c.push(nc);
    assert forall|i: int| 0 <= i < d.len() - 1 implies #[trigger] joined(d, i) by {
        assert(d[i] == c[i]);
        if i + 1 < c.len() {
            assert(d[i + 1] == c[i + 1]);
            assert(joined(c, i));
        }
    }
    assert forall|i: int| 0 <= i < d.len() implies (#[trigger] d[i]).size > 0 && 0 < d[i].samples <= d[i].size by {
        if i < c.len() {
            assert(d[i] == c[i]);
        }
    }
}

proof fn lemma_layout_extend(c: Seq<Chunk>, start: int, cursor: int, nc: Chunk)
    requires
        layout_ok(c, start, cursor),
        c.len() > 0,
        nc.kind == c[c.len() - 1].kind,
        nc.offset == c[c.len() - 1].offset,
        nc.size > c[c.len() - 1].size,
        0 < nc.samples <= nc.size,
    ensures
        layout_ok(c.update(c.len() - 1, nc), start, cursor + nc.size - c[c.len() - 1].size),
{
    let n = c.len() - 1;
    let d = c.update(n, nc);
    assert forall|i: int| 0 <= i < d.len() - 1 implies #[trigger] joined(d, i) by {
        assert(d[i] == c[i]);
        assert(joined(c, i));
        if i + 1 < n {
            assert(d[i + 1] == c[i + 1]);
        }
    }
    assert forall|i: int| 0 <= i < d.len() implies (#[trigger] d[i]).size > 0 && 0 < d[i].samples <= d[i].size by {
        if i < n {
            assert(d[i] == c[i]);
        }
    }
}

/// In an interleaved layout chunks alternate between the two tracks and no
/// two chunks overlap: each ends at or before any later one begins.
pub proof fn lemma_chunks_alternate_without_overlap(l: MediaLayout)
    requires
        l.wf(),
    ensures
        forall|i: int| 0 <= i < l.chunks@.len() - 1 ==> #[trigger] joined(l.chunks@, i),
        forall|i: int, j: int| 0 <= i < j < l.chunks@.len()
            ==> #[trigger] l.chunks@[i].offset + l.chunks@[i].size <= #[trigger] l.chunks@[j].offset,
{
    let c = l.chunks@;
    assert forall|i: int, j: int| 0 <= i < j < c.len()
        implies #[trigger] c[i].offset + c[i].size <= #[trigger] c[j].offset by {
        lemma_chunk_before(c, l.mdat_start as int, l.cursor as int, i, j);
    }
}

proof fn lemma_chunk_before(c: Seq<Chunk>, start: int, cursor: int, i: int, j: int)
    requires
        layout_ok(c, start, cursor),
        0 <= i < j < c.len(),
    ensures
        c[i].offset + c[i].size <= c[j].offset,
    decreases j - i,
{
    assert(joined(c, j - 1));
    if i < j - 1 {
        lemma_chunk_before(c, start, cursor, i, j - 1);
        assert(c[j - 1].size > 0);
    }
}

impl MediaLayout {
    /// The layout's invariant.
    pub open spec fn wf(&self) -> bool {
        layout_ok(self.chunks@, self.mdat_start as int, self.cursor as int)
    }

    pub fn new(mdat_start: u64) -> (r: MediaLayout)
        ensures
            r.wf(),
            r.mdat_start == mdat_start,
            r.chunks@.len() == 0,
    {
        MediaLayout { mdat_start, cursor: mdat_start, chunks: Vec::new() }
    }

    /// Places a sample of `size` bytes of track `kind` at the cursor: it joins
    /// the last chunk when that chunk is of the same track, else it begins a
    /// new chunk. Returns the sample's offset; `None`, with nothing changed,
    /// where the sample would reach past 64-bit offsets.
    pub fn append_sample(&mut self, kind: MediaKind, size: u64) -> (r: Option<u64>)
        requires
            old(self).wf(),
            size > 0,
        ensures
            final(self).wf(),
            final(self).mdat_start == old(self).mdat_start,
            old(self).cursor + size > u64::MAX ==> r.is_none() && final(self).chunks == old(self).chunks
                && final(self).cursor == old(self).cursor,
            old(self).cursor + size <= u64::MAX ==> r == Some(old(self).cursor),
            r.is_some() ==> final(self).cursor == old(self).cursor + size,
            r.is_some() && old(self).chunks@.len() > 0 && old(self).chunks@.last().kind == kind ==> {
                let n = old(self).chunks@.len() - 1;
                let l = old(self).chunks@.last();
                final(self).chunks@ == old(self).chunks@.update(
                    n,
                    Chunk { kind, offset: l.offset, size: (l.size + size) as u64, samples: (l.samples + 1) as u64 },
                )
            },
            r.is_some() && (old(self).chunks@.len() == 0 || old(self).chunks@.last().kind != kind)
                ==> final(self).chunks@ == old(self).chunks@.push(
                Chunk { kind, offset: old(self).cursor, size, samples: 1 },
            ),
    {
        if self.cursor > u64::MAX - size {
            return None;
        }
        let at = self.cursor;
        let n = self.chunks.len();
        if n > 0 && self.chunks[n - 1].kind == kind {
            let l = self.chunks[n - 1];
            let nc = Chunk { kind, offset: l.offset, size: l.size + size, samples: l.samples + 1 };
            proof {
                lemma_layout_extend(self.chunks@, self.mdat_start as int, self.cursor as int, nc);
            }
            self.chunks.set(n - 1, nc);
        } else {
            let nc = Chunk { kind, offset: at, size, samples: 1 };
            proof {
                lemma_layout_push(self.chunks@, self.mdat_start as int, self.cursor as int, nc);
            }
            self.chunks.push(nc);
        }
        self.cursor = at + size;
        Some(at)
    }
}

} // verus!
