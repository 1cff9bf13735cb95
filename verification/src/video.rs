//! Looping canvas clips: demuxing the MP4 container, H.264 sample framing
//! (MP4 stores each NAL unit with a big-endian length prefix, AVCC; the
//! decoder wants each NAL unit behind a start code, Annex-B), and the order
//! in which a looping clip's samples are tried for the next picture.
use vstd::prelude::*;
use std::time::Duration;

verus! {

/// One decoded frame: tightly packed RGBA8 (`width * height * 4` bytes)
/// and how long it stays on screen.
pub struct VideoFrame {
    pub rgba: Vec<u8>,
    pub width: u32,
    pub height: u32,
    pub duration: Duration,
}

/// The Annex-B start code that precedes every NAL unit.
pub open spec fn start_code() -> Seq<u8> {
    seq![0u8, 0u8, 0u8, 1u8]
}

/// A big-endian length prefix read into a `usize` (high bits beyond the
/// width of `usize` fall off, as with shifting).
pub open spec fn nal_len(prefix: Seq<u8>) -> usize
    decreases prefix.len(),
{
    if prefix.len() == 0 {
        0usize
    } else {
        (nal_len(prefix.drop_last()) * 256 + prefix.last()) as usize
    }
}

/// Annex-B form of an AVCC sample with `length_size`-byte prefixes; `None`
/// when a declared length runs past the end. Trailing bytes too short to
/// hold a prefix are dropped.
pub open spec fn annex_b(buf: Seq<u8>, length_size: nat) -> Option<Seq<u8>>
    decreases buf.len(),
    when length_size >= 1
{
    if buf.len() < length_size {
        Some(Seq::empty())
    } else {
        let n = nal_len(buf.take(length_size as int));
        let rest = buf.skip(length_size as int);
        if n > rest.len() {
            None
        } else {
            match annex_b(rest.skip(n as int), length_size) {
                Some(tail) => Some(start_code() + rest.take(n as int) + tail),
                None => None,
            }
        }
    }
}

/// Rewrite a length-prefixed (AVCC) sample into start-code-prefixed
/// (Annex-B) bytes. `None` if a declared NAL length runs past the buffer.
pub fn avcc_to_annex_b(buf: &[u8], length_size: usize) -> (r: Option<Vec<u8>>)
    requires
        length_size >= 1,
    ensures
        match r {
            Some(v) => annex_b(buf@, length_size as nat) == Some(v@),
            None => annex_b(buf@, length_size as nat) is None,
        },
{
    let mut out: Vec<u8> = Vec::new();
    let mut pos: usize = 0;
    proof {
        assert(buf@.skip(0) =~= buf@);
        assert(out@ + Seq::<u8>::empty() =~= out@);
    }
    while buf.len() - pos >= length_size
        invariant
            length_size >= 1,
            pos <= buf@.len(),
            annex_b(buf@, length_size as nat) == match annex_b(buf@.skip(pos as int), length_size as nat) {
                Some(t) => Some(out@ + t),
                None => None::<Seq<u8>>,
            },
        decreases buf@.len() - pos,
    {
        let ghost rem = buf@.skip(pos as int);
        let mut len: usize = 0;
        let mut j: usize = 0;
        while j < length_size
            invariant
                j <= length_size,
                pos + length_size <= buf.len(),
                rem == buf@.skip(pos as int),
                len == nal_len(rem.take(j as int)),
            decreases length_size - j,
        {
            let b = buf[pos + j];
            proof {
                assert(rem.take(j + 1).drop_last() =~= rem.take(j as int));
                assert(rem.take(j + 1).last() == b);
                assert(((len << 8usize) | (b as usize)) == ((len * 256 + b) as usize)) by (bit_vector)
                    requires b < 256;
            }
            len = (len << 8) | b as usize;
            j += 1;
        }
        let start = pos + length_size;
        proof {
            assert(rem.take(length_size as int) =~= buf@.subrange(pos as int, start as int));
            assert(rem.skip(length_size as int) =~= buf@.skip(start as int));
        }
        if len > buf.len() - start {
            return None;
        }
        let ghost before = out@;
        out.push(0);
        out.push(0);
        out.push(0);
        out.push(1);
        let mut k: usize = 0;
        while k < len
            invariant
                k <= len,
                start + len <= buf.len(),
                out@ == before + start_code() + buf@.subrange(start as int, (start + k) as int),
            decreases len - k,
        {
            out.push(buf[start + k]);
            proof {
                assert(buf@.subrange(start as int, (start + k + 1) as int) =~= buf@.subrange(start as int, (start + k) as int).push(buf@[(start + k) as int]));
            }
            k += 1;
        }
        proof {
            let rest = buf@.skip(start as int);
            assert(rest.take(len as int) =~= buf@.subrange(start as int, (start + len) as int));
            assert(rest.skip(len as int) =~= buf@.skip((start + len) as int));
            assert(out@ =~= before + start_code() + rest.take(len as int));
            match annex_b(buf@.skip((start + len) as int), length_size as nat) {
                Some(t) => {
                    assert(before + (start_code() + rest.take(len as int) + t) =~= out@ + t);
                },
                None => {},
            }
        }
        pos = start + len;
    }
    proof {
        assert(annex_b(buf@.skip(pos as int), length_size as nat) == Some(Seq::<u8>::empty()));
        assert(out@ + Seq::<u8>::empty() =~= out@);
    }
    Some(out)
}

/// The NAL length-prefix size of an AVC configuration: the low two bits of
/// `length_size_minus_one`, plus one.
pub fn nal_length_size(length_size_minus_one: u8) -> (r: usize)
    ensures
        r == length_size_minus_one % 4 + 1,
{
    let low = length_size_minus_one & 3;
    assert(length_size_minus_one & 3 == length_size_minus_one % 4) by (bit_vector);
    low as usize + 1
}

/// Each NAL unit behind a start code, in order.
pub open spec fn framed(nals: Seq<Seq<u8>>) -> Seq<u8>
    decreases nals.len(),
{
    if nals.len() == 0 {
        Seq::empty()
    } else {
        framed(nals.drop_last()) + start_code() + nals.last()
    }
}

pub open spec fn nal_views(nals: Seq<Vec<u8>>) -> Seq<Seq<u8>> {
    nals.map_values(|n: Vec<u8>| n@)
}

fn append_framed(out: &mut Vec<u8>, nals: &Vec<Vec<u8>>)
    ensures
        final(out)@ == old(out)@ + framed(nal_views(nals@)),
{
    let mut i: usize = 0;
    while i < nals.len()
        invariant
            i <= nals@.len(),
            out@ == old(out)@ + framed(nal_views(nals@.take(i as int))),
        decreases nals@.len() - i,
    {
        let ghost before = out@;
        out.push(0);
        out.push(0);
        out.push(0);
        out.push(1);
        let nal = &nals[i];
        let mut k: usize = 0;
        while k < nal.len()
            invariant
                k <= nal@.len(),
                out@ == before + start_code() + nal@.take(k as int),
            decreases nal@.len() - k,
        {
            out.push(nal[k]);
            proof {
                assert(nal@.take(k + 1) =~= nal@.take(k as int).push(nal@[k as int]));
            }
            k += 1;
        }
        proof {
            assert(nal@.take(k as int) =~= nal@);
            assert(nal_views(nals@.take(i + 1)).drop_last() =~= nal_views(nals@.take(i as int)));
            assert(nal_views(nals@.take(i + 1)).last() == nal@);
            assert(out@ =~= old(out)@ + framed(nal_views(nals@.take(i + 1))));
        }
        i += 1;
    }
    proof {
        assert(nals@.take(i as int) =~= nals@);
    }
}

/// H.264 configuration of an AVC track.
pub struct AvcInfo {
    pub length_size_minus_one: u8,
    pub sequence_parameter_sets: Vec<Vec<u8>>,
    pub picture_parameter_sets: Vec<Vec<u8>>,
}

/// Where a sample's bytes lie in the file, and how long it shows, in
/// units of its track's timescale.
#[derive(Debug, Clone, Copy)]
pub struct SampleRange {
    pub start: usize,
    pub end: usize,
    pub duration: u64,
}

/// What clip preparation reads of a demuxed track.
pub struct TrackInfo {
    pub is_video: bool,
    /// Present when the track's sample description is AVC (H.264).
    pub avc: Option<AvcInfo>,
    pub timescale: u64,
    pub samples: Vec<SampleRange>,
}

/// A clip ready for decoding: the parameter sets in Annex-B, and the
/// non-empty access units in Annex-B, each with its sample's duration.
pub struct Clip {
    pub headers: Vec<u8>,
    pub units: Vec<(Vec<u8>, u64)>,
    pub timescale: u64,
}

/// Index of the first video track at or after `k`, or -1.
pub open spec fn first_video_from(tracks: Seq<TrackInfo>, k: int) -> int
    decreases tracks.len() - k,
{
    if k < 0 || k >= tracks.len() {
        -1
    } else if tracks[k].is_video {
        k
    } else {
        first_video_from(tracks, k + 1)
    }
}

/// The samples in Annex-B with their durations, empty ones left out; none
/// when a sample's range lies outside the file or its NAL lengths overrun it.
pub open spec fn sample_units(bytes: Seq<u8>, samples: Seq<SampleRange>, length_size: nat) -> Option<
    Seq<(Seq<u8>, u64)>,
>
    decreases samples.len(),
{
    if samples.len() == 0 {
        Some(Seq::empty())
    } else {
        match sample_units(bytes, samples.drop_last(), length_size) {
            None => None,
            Some(prev) => {
                let s = samples.last();
                if s.start <= s.end && s.end <= bytes.len() {
                    match annex_b(bytes.subrange(s.start as int, s.end as int), length_size) {
                        None => None,
                        Some(au) => if au.len() == 0 {
                            Some(prev)
                        } else {
                            Some(prev.push((au, s.duration)))
                        },
                    }
                } else {
                    None
                }
            },
        }
    }
}

/// The clip of the first video track: its parameter sets (SPS, then PPS)
/// framed, its samples converted; none when there is no video track, the
/// first is not AVC, it has no parameter set, a sample is bad, or no
/// sample is left.
pub open spec fn clip_of(bytes: Seq<u8>, tracks: Seq<TrackInfo>) -> Option<(Seq<u8>, Seq<(Seq<u8>, u64)>, u64)> {
    let i = first_video_from(tracks, 0);
    if i < 0 {
        None
    } else {
        let t = tracks[i];
        match t.avc {
            None => None,
            Some(avc) => {
                let headers = framed(nal_views(avc.sequence_parameter_sets@)) + framed(
                    nal_views(avc.picture_parameter_sets@),
                );
                let ls = (avc.length_size_minus_one % 4 + 1) as nat;
                if headers.len() == 0 {
                    None
                } else {
                    match sample_units(bytes, t.samples@, ls) {
                        None => None,
                        Some(units) => if units.len() == 0 {
                            None
                        } else {
                            Some((headers, units, t.timescale))
                        },
                    }
                }
            },
        }
    }
}

pub open spec fn unit_views(units: Seq<(Vec<u8>, u64)>) -> Seq<(Seq<u8>, u64)> {
    units.map_values(|u: (Vec<u8>, u64)| (u.0@, u.1))
}

proof fn lemma_first_video_skip(tracks: Seq<TrackInfo>, k: int)
    requires
        0 <= k,
        forall|j: int| 0 <= j < k && j < tracks.len() ==> !(#[trigger] tracks[j]).is_video,
    ensures
        first_video_from(tracks, 0) == first_video_from(tracks, k),
    decreases k,
{
    if k > 0 {
        lemma_first_video_skip(tracks, k - 1);
    }
}

proof fn lemma_units_none_extends(bytes: Seq<u8>, samples: Seq<SampleRange>, ls: nat, k: nat, n: nat)
    requires
        k <= n <= samples.len(),
        sample_units(bytes, samples.take(k as int), ls) is None,
    ensures
        sample_units(bytes, samples.take(n as int), ls) is None,
    decreases n - k,
{
    if n > k {
        lemma_units_none_extends(bytes, samples, ls, k, (n - 1) as nat);
        assert(samples.take(n as int).drop_last() =~= samples.take(n - 1));
    }
}

/// Prepare the clip of the first video track from the demuxed tracks.
pub fn prepare_clip(bytes: &[u8], tracks: &Vec<TrackInfo>) -> (r: Option<Clip>)
    ensures
        match clip_of(bytes@, tracks@) {
            None => r is None,
            Some(c) => r matches Some(clip) && clip.headers@ == c.0 && unit_views(clip.units@) == c.1
                && clip.timescale == c.2,
        },
{
    let mut i: usize = 0;
    while i < tracks.len()
        invariant
            i <= tracks@.len(),
            forall|j: int| 0 <= j < i ==> !(#[trigger] tracks@[j]).is_video,
        ensures
            i <= tracks@.len(),
            forall|j: int| 0 <= j < i ==> !(#[trigger] tracks@[j]).is_video,
            i < tracks@.len() ==> tracks@[i as int].is_video,
        decreases tracks@.len() - i,
    {
        if tracks[i].is_video {
            break;
        }
        i += 1;
    }
    proof {
        lemma_first_video_skip(tracks@, i as int);
    }
    if i == tracks.len() {
        return None;
    }
    let track = &tracks[i];
    let avc = match &track.avc {
        Some(a) => a,
        None => {
            return None;
        },
    };
    let length_size = nal_length_size(avc.length_size_minus_one);
    let mut headers: Vec<u8> = Vec::new();
    append_framed(&mut headers, &avc.sequence_parameter_sets);
    append_framed(&mut headers, &avc.picture_parameter_sets);
    if headers.len() == 0 {
        return None;
    }
    let ghost samples = track.samples@;
    let mut units: Vec<(Vec<u8>, u64)> = Vec::new();
    let mut k: usize = 0;
    proof {
        assert(samples.take(0) =~= Seq::<SampleRange>::empty());
        assert(unit_views(units@) =~= Seq::<(Seq<u8>, u64)>::empty());
    }
    while k < track.samples.len()
        invariant
            samples == track.samples@,
            i < tracks@.len(),
            first_video_from(tracks@, 0) == i,
            *track == tracks@[i as int],
            track.avc == Some(*avc),
            length_size == avc.length_size_minus_one % 4 + 1,
            headers@ == framed(nal_views(avc.sequence_parameter_sets@)) + framed(nal_views(avc.picture_parameter_sets@)),
            headers@.len() > 0,
            length_size >= 1,
            k <= samples.len(),
            sample_units(bytes@, samples.take(k as int), length_size as nat) == Some(unit_views(units@)),
        decreases samples.len() - k,
    {
        let s = track.samples[k];
        proof {
            assert(samples.take(k + 1).drop_last() =~= samples.take(k as int));
            assert(samples.take(k + 1).last() == s);
        }
        if !(s.start <= s.end && s.end <= bytes.len()) {
            proof {
                assert(sample_units(bytes@, samples.take(k + 1), length_size as nat) is None);
                lemma_units_none_extends(bytes@, samples, length_size as nat, (k + 1) as nat, samples.len());
                assert(samples.take(samples.len() as int) =~= samples);
            }
            return None;
        }
        let piece = slice_range(bytes, s.start, s.end);
        match avcc_to_annex_b(piece.as_slice(), length_size) {
            None => {
                proof {
                    assert(sample_units(bytes@, samples.take(k + 1), length_size as nat) is None);
                    lemma_units_none_extends(bytes@, samples, length_size as nat, (k + 1) as nat, samples.len());
                    assert(samples.take(samples.len() as int) =~= samples);
                }
                return None;
            },
            Some(au) => {
                if au.len() > 0 {
                    let ghost before = units@;
                    units.push((au, s.duration));
                    proof {
                        assert(unit_views(units@) =~= unit_views(before).push((au@, s.duration)));
                    }
                }
            },
        }
        k += 1;
    }
    proof {
        assert(samples.take(k as int) =~= samples);
    }
    if units.len() == 0 {
        return None;
    }
    Some(Clip { headers, units, timescale: track.timescale })
}

/// The bytes of `bytes` from `start` up to `end`.
fn slice_range(bytes: &[u8], start: usize, end: usize) -> (r: Vec<u8>)
    requires
        start <= end <= bytes@.len(),
    ensures
        r@ == bytes@.subrange(start as int, end as int),
{
    let mut r: Vec<u8> = Vec::new();
    let mut i: usize = start;
    while i < end
        invariant
            start <= i <= end,
            end <= bytes@.len(),
            r@ == bytes@.subrange(start as int, i as int),
        decreases end - i,
    {
        r.push(bytes[i]);
        proof {
            assert(bytes@.subrange(start as int, i + 1) =~= bytes@.subrange(start as int, i as int).push(bytes@[i as int]));
        }
        i += 1;
    }
    r
}

/// Where the search for the next decodable picture of a looping clip of
/// `len` samples stands.
#[derive(Debug, Clone, Copy, PartialEq, Eq, Structural)]
pub struct FrameSearch {
    /// The sample after the one tried last.
    pub next: usize,
    pub tries_left: usize,
    pub len: usize,
}

/// One step of the search: the sample to try and whether the clip wrapped
/// around (so the parameter sets must be fed again first), and the state
/// after it; nothing once the tries are used up.
pub open spec fn search_step(s: FrameSearch) -> (Option<(usize, bool)>, FrameSearch) {
    if s.tries_left == 0 {
        (None, s)
    } else {
        let wrap = s.next >= s.len;
        let idx: usize = if wrap { 0 } else { s.next };
        (Some((idx, wrap)), FrameSearch { next: (idx + 1) as usize, tries_left: (s.tries_left - 1) as usize, len: s.len })
    }
}

/// The state after `j` steps.
pub open spec fn search_after(s: FrameSearch, j: nat) -> FrameSearch
    decreases j,
{
    if j == 0 {
        s
    } else {
        search_step(search_after(s, (j - 1) as nat)).1
    }
}

/// The first sample a search starting at `next` tries.
pub open spec fn first_tried(next: usize, len: usize) -> int {
    if next >= len {
        0
    } else {
        next as int
    }
}

impl FrameSearch {
    /// Start searching at sample `next`: each sample may be tried, and the
    /// first one once more.
    pub fn new(next: usize, len: usize) -> (r: Self)
        requires
            len < usize::MAX,
        ensures
            r == (FrameSearch { next, tries_left: (len + 1) as usize, len }),
    {
        FrameSearch { next, tries_left: len + 1, len }
    }

    /// The sample to try now, and whether the parameter sets must be fed
    /// again first because the clip wrapped around; none once the tries are
    /// used up.
    pub fn step(&mut self) -> (r: Option<(usize, bool)>)
        requires
            old(self).len > 0,
        ensures
            (r, *final(self)) == search_step(*old(self)),
            r matches Some(p) ==> p.0 < old(self).len,
    {
        if self.tries_left == 0 {
            return None;
        }
        self.tries_left = self.tries_left - 1;
        let wrap = self.next >= self.len;
        let idx: usize = if wrap {
            0
        } else {
            self.next
        };
        self.next = idx + 1;
        Some((idx, wrap))
    }
}

proof fn lemma_search_index(next: usize, len: usize, j: nat)
    requires
        0 < len < usize::MAX,
        j <= len,
    ensures
        search_after(FrameSearch { next, tries_left: (len + 1) as usize, len }, j).tries_left == len + 1 - j,
        search_after(FrameSearch { next, tries_left: (len + 1) as usize, len }, j).len == len,
        search_step(search_after(FrameSearch { next, tries_left: (len + 1) as usize, len }, j)).0 matches Some(p)
            && p.0 == (first_tried(next, len) + j) % (len as int),
    decreases j,
{
    let s0 = FrameSearch { next, tries_left: (len + 1) as usize, len };
    let f = first_tried(next, len);
    if j == 0 {
        vstd::arithmetic::div_mod::lemma_small_mod(f as nat, len as nat);
    } else {
        lemma_search_index(next, len, (j - 1) as nat);
        let prev = (f + j - 1) % (len as int);
        vstd::arithmetic::div_mod::lemma_add_mod_noop(f + j - 1, 1, len as int);
        vstd::arithmetic::div_mod::lemma_mod_bound(f + j - 1, len as int);
        if prev + 1 < len {
            vstd::arithmetic::div_mod::lemma_small_mod((prev + 1) as nat, len as nat);
        } else {
            assert((prev + 1) % (len as int) == 0) by {
                vstd::arithmetic::div_mod::lemma_mod_self_0(len as int);
            }
        }
        if len == 1 {
            assert(1int % 1int == 0);
        } else {
            vstd::arithmetic::div_mod::lemma_small_mod(1, len as nat);
        }
    }
}

/// A search for the next picture never gives up before it has tried every
/// sample of the clip: within its first `len` tries, sample `i` is tried.
pub proof fn law_search_tries_every_sample(next: usize, len: usize, i: usize)
    requires
        0 < len < usize::MAX,
        i < len,
    ensures
        exists|j: nat| j < len && #[trigger] search_step(search_after(FrameSearch { next, tries_left: (len + 1) as usize, len }, j)).0
            == Some((i, search_step(search_after(FrameSearch { next, tries_left: (len + 1) as usize, len }, j)).0.unwrap().1)),
{
    let f = first_tried(next, len);
    let j = ((i + len - f) % (len as int)) as nat;
    vstd::arithmetic::div_mod::lemma_mod_bound(i + len - f, len as int);
    lemma_search_index(next, len, j);
    vstd::arithmetic::div_mod::lemma_add_mod_noop(f, i + len - f, len as int);
    vstd::arithmetic::div_mod::lemma_small_mod(f as nat, len as nat);
    vstd::arithmetic::div_mod::lemma_mod_add_multiples_vanish(i as int, len as int);
    vstd::arithmetic::div_mod::lemma_small_mod(i as nat, len as nat);
    let s = search_step(search_after(FrameSearch { next, tries_left: (len + 1) as usize, len }, j)).0;
    assert(s == Some((i, s.unwrap().1)));
}

} // verus!
