//! Annex-B bitstream parsing: start codes, NAL units and their classes.
use vstd::prelude::*;

verus! {

/// A three-byte start code `00 00 01` begins at `i`.
pub open spec fn start_code_at(s: Seq<u8>, i: int) -> bool {
    &&& 0 <= i
    &&& i + 3 <= s.len()
    &&& s[i] == 0
    &&& s[i + 1] == 0
    &&& s[i + 2] == 1
}

/// The first position at or after `from` where a start code begins, or the
/// length of `s` where none does.
pub open spec fn next_start_code(s: Seq<u8>, from: int) -> int
    decreases s.len() - from,
{
    if from < 0 || from >= s.len() {
        s.len() as int
    } else if start_code_at(s, from) {
        from
    } else {
        next_start_code(s, from + 1)
    }
}

/// `end` moved back over the zero bytes that precede it, not below `start`.
pub open spec fn trim_zeros(s: Seq<u8>, start: int, end: int) -> int
    decreases end - start,
{
    if end > start && 0 < end <= s.len() && s[end - 1] == 0 {
        trim_zeros(s, start, end - 1)
    } else {
        end
    }
}

/// One NAL unit of a buffer: its payload is `start..end`, and the start code
/// that introduces it begins at `start - 3`.
#[derive(Debug, Clone, Copy, PartialEq, Eq, Structural)]
pub struct NalUnit {
    pub start: usize,
    pub end: usize,
}

/// The non-empty NAL units of `s` that start codes at or after `from` introduce,
/// in order. A unit runs from just after its start code to the next start code,
/// without the zero bytes before that code (the leading zero of a four-byte
/// start code belongs to no unit).
pub open spec fn nal_units_from(s: Seq<u8>, from: int) -> Seq<NalUnit>
    decreases s.len() - from,
{
    let i = next_start_code(s, from);
    if from < 0 || i >= s.len() {
        seq![]
    } else {
        let j = next_start_code(s, i + 3);
        let e = trim_zeros(s, i + 3, j);
        if j <= from || j > s.len() {
            seq![]
        } else if e > i + 3 {
            seq![NalUnit { start: (i + 3) as usize, end: e as usize }] + nal_units_from(s, j)
        } else {
            nal_units_from(s, j)
        }
    }
}

/// The NAL units of a whole buffer.
pub open spec fn nal_units(s: Seq<u8>) -> Seq<NalUnit> {
    nal_units_from(s, 0)
}

proof fn lemma_next_start_code_bounds(s: Seq<u8>, from: int)
    requires
        0 <= from <= s.len(),
    ensures
        from <= next_start_code(s, from) <= s.len(),
        next_start_code(s, from) < s.len() ==> start_code_at(s, next_start_code(s, from)),
    decreases s.len() - from,
{
    if from < s.len() && !start_code_at(s, from) {
        lemma_next_start_code_bounds(s, from + 1);
    }
}

proof fn lemma_trim_zeros_bounds(s: Seq<u8>, start: int, end: int)
    requires
        start <= end,
    ensures
        start <= trim_zeros(s, start, end) <= end,
    decreases end - start,
{
    if end > start && 0 < end <= s.len() && s[end - 1] == 0 {
        lemma_trim_zeros_bounds(s, start, end - 1);
    }
}

/// Position of the first start code at or after `from`, or `data.len()`.
pub fn find_start_code(data: &[u8], from: usize) -> (r: usize)
    ensures
        r as int == next_start_code(data@, from as int),
{
    let n = data.len();
    if from >= n {
        return n;
    }
    let mut i: usize = from;
    while i < n
        invariant
            from <= i <= n,
            n == data@.len(),
            next_start_code(data@, from as int) == next_start_code(data@, i as int),
        decreases n - i,
    {
        if n - i >= 3 && data[i] == 0 && data[i + 1] == 0 && data[i + 2] == 1 {
            return i;
        }
        i = i + 1;
    }
    n
}

/// `end` moved back over the zero bytes before it, not below `start`.
fn trim_trailing_zeros(data: &[u8], start: usize, end: usize) -> (r: usize)
    requires
        start <= end <= data@.len(),
    ensures
        r as int == trim_zeros(data@, start as int, end as int),
{
    let mut e: usize = end;
    while e > start && data[e - 1] == 0
        invariant
            start <= e <= end <= data@.len(),
            trim_zeros(data@, start as int, end as int) == trim_zeros(data@, start as int, e as int),
        decreases e,
    {
        e = e - 1;
    }
    e
}

/// Splits an Annex-B buffer into its non-empty NAL units, in order.
pub fn split_nal_units(data: &[u8]) -> (r: Vec<NalUnit>)
    ensures
        r@ == nal_units(data@),
        forall|k: int|
            0 <= k < r@.len() ==> 3 <= #[trigger] r@[k].start < r@[k].end <= data@.len(),
{
    let n = data.len();
    let mut units: Vec<NalUnit> = Vec::new();
    let mut pos: usize = 0;
    while pos < n
        invariant
            pos <= n,
            n == data@.len(),
            units@ + nal_units_from(data@, pos as int) == nal_units(data@),
            forall|k: int|
                0 <= k < units@.len() ==> 3 <= #[trigger] units@[k].start < units@[k].end <= n,
        decreases n - pos,
    {
        let i = find_start_code(data, pos);
        proof {
            lemma_next_start_code_bounds(data@, pos as int);
        }
        if i >= n {
            assert(nal_units_from(data@, pos as int) =~= seq![]);
            assert(units@ + seq![] =~= units@);
            pos = n;
        } else {
            let st: usize = i + 3;
            let j = find_start_code(data, st);
            proof {
                lemma_next_start_code_bounds(data@, st as int);
            }
            let e = trim_trailing_zeros(data, st, j);
            proof {
                lemma_trim_zeros_bounds(data@, st as int, j as int);
            }
            if e > st {
                let u = NalUnit { start: st, end: e };
                proof {
                    assert(units@.push(u) + nal_units_from(data@, j as int) =~= units@ + (seq![u]
                        + nal_units_from(data@, j as int)));
                }
                units.push(u);
            }
            pos = j;
        }
    }
    proof {
        if pos >= n {
            assert(next_start_code(data@, pos as int) == n);
            assert(nal_units_from(data@, pos as int) =~= seq![]);
            assert(units@ + seq![] =~= units@);
        }
    }
    units
}

/// What a NAL unit is to the muxer.
#[derive(Debug, Clone, Copy, PartialEq, Eq, Structural)]
pub enum NalClass {
    /// A parameter set (VPS, SPS or PPS): stored once as codec configuration.
    ParameterSet,
    /// A coded slice; `first` when it opens a new picture, `key` for a random
    /// access point by NAL type: an IDR slice (H.264 type 5) or an IRAP slice
    /// (H.265 types 16 to 21). An I slice of another NAL type does not reset
    /// the reference pictures, so it is not a key slice.
    Slice { key: bool, first: bool },
    /// Another type the codec defines (delimiter, SEI, ...): not part of any sample.
    Other,
    /// A type that the codec leaves unspecified.
    Unsupported,
    /// A slice too short to hold the start of its header.
    Truncated,
}

/// The NAL unit type held in the header's first byte.
pub open spec fn nal_type(is_hevc: bool, b0: u8) -> u8 {
    if is_hevc {
        (b0 >> 1u8) & 0x3fu8
    } else {
        b0 & 0x1fu8
    }
}

/// The class of a NAL unit whose payload is `p` (header included).
pub open spec fn nal_class(is_hevc: bool, p: Seq<u8>) -> NalClass {
    let t = nal_type(is_hevc, p[0]);
    // the first bit after the header: first_mb_in_slice == 0 (H.264),
    // first_slice_segment_in_pic_flag (H.265)
    let hdr: int = if is_hevc { 2 } else { 1 };
    if is_hevc {
        if 32 <= t <= 34 {
            NalClass::ParameterSet
        } else if t <= 9 || (16 <= t <= 21) {
            if p.len() <= hdr {
                NalClass::Truncated
            } else {
                NalClass::Slice { key: 16 <= t <= 21, first: p[hdr] & 0x80u8 != 0 }
            }
        } else if t >= 48 {
            NalClass::Unsupported
        } else {
            NalClass::Other
        }
    } else {
        if t == 7 || t == 8 {
            NalClass::ParameterSet
        } else if 1 <= t <= 5 {
            if p.len() <= hdr {
                NalClass::Truncated
            } else {
                NalClass::Slice { key: t == 5, first: p[hdr] & 0x80u8 != 0 }
            }
        } else if t == 0 || t >= 24 {
            NalClass::Unsupported
        } else {
            NalClass::Other
        }
    }
}

/// Classifies the NAL unit `u` of `data`.
pub fn classify(data: &[u8], u: NalUnit, is_hevc: bool) -> (r: NalClass)
    requires
        u.start < u.end <= data@.len(),
    ensures
        r == nal_class(is_hevc, data@.subrange(u.start as int, u.end as int)),
{
    let ghost p = data@.subrange(u.start as int, u.end as int);
    let b0 = data[u.start];
    let len: usize = u.end - u.start;
    if is_hevc {
        let t: u8 = (b0 >> 1u8) & 0x3fu8;
        if 32 <= t && t <= 34 {
            NalClass::ParameterSet
        } else if t <= 9 || (16 <= t && t <= 21) {
            if len <= 2 {
                NalClass::Truncated
            } else {
                NalClass::Slice { key: 16 <= t && t <= 21, first: data[u.start + 2] & 0x80u8 != 0 }
            }
        } else if t >= 48 {
            NalClass::Unsupported
        } else {
            NalClass::Other
        }
    } else {
        let t: u8 = b0 & 0x1fu8;
        if t == 7 || t == 8 {
            NalClass::ParameterSet
        } else if 1 <= t && t <= 5 {
            if len <= 1 {
                NalClass::Truncated
            } else {
                NalClass::Slice { key: t == 5, first: data[u.start + 1] & 0x80u8 != 0 }
            }
        } else if t == 0 || t >= 24 {
            NalClass::Unsupported
        } else {
            NalClass::Other
        }
    }
}

} // verus!
