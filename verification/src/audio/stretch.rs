//! Time stretching: which parts of the audio are copied, which are stretched, and how the
//! result is put together.

use vstd::prelude::*;
use crate::audio::layout;
use crate::audio::layout::push_all;
use crate::bits;
use crate::bits::{f64_lt, F64_SIGN};
use crate::convert;
use crate::order;
use crate::order::{pick, times_order};

verus! {

/// A part of the audio that is played slower (`factor` above 1) or faster (below 1). All three
/// are bit patterns of doubles; `start` and `end` are seconds.
#[derive(Clone, Copy, PartialEq, Eq, Structural)]
pub struct StretchSeg {
    pub start: u64,
    pub end: u64,
    pub factor: u64,
}

/// The start times of some segments.
pub open spec fn starts(segs: Seq<StretchSeg>) -> Seq<u64> {
    Seq::new(segs.len(), |i: int| segs[i].start)
}

/// Segments by start time, equal ones in their given order.
pub open spec fn by_start(segs: Seq<StretchSeg>) -> Seq<StretchSeg> {
    order::picked(segs, order::order_of(order::time_keys(starts(segs))))
}

/// No two segments start at the same time.
pub open spec fn starts_differ(segs: Seq<StretchSeg>) -> bool {
    forall|i: int, j: int|
        0 <= i < j < segs.len() ==> bits::lt64(
            (#[trigger] segs[i]).start,
            (#[trigger] segs[j]).start,
        ) || bits::lt64(segs[j].start, segs[i].start)
}

spec fn start_key() -> spec_fn(StretchSeg) -> int {
    |seg: StretchSeg| bits::f64_key_of(seg.start)
}

proof fn lemma_by_start_rises(segs: Seq<StretchSeg>)
    requires
        segs.len() <= usize::MAX,
        starts_differ(segs),
    ensures
        order::rising(by_start(segs), start_key()),
        by_start(segs).to_multiset() == segs.to_multiset(),
{
    let keys = order::time_keys(starts(segs));
    order::law_sorted_order_exists(keys);
    order::law_sorting_rearranges(keys, segs);
    let order = order::order_of(keys);
    let sorted = by_start(segs);
    assert forall|i: int, j: int| 0 <= i < j < sorted.len() implies start_key()(#[trigger] sorted[i])
        < start_key()(#[trigger] sorted[j]) by {
        let (a, b) = (order[i] as int, order[j] as int);
        assert(order::before(keys, a, b));
        assert(segs[a] == sorted[i] && segs[b] == sorted[j]);
        assert(keys[a] == bits::f64_key_of(segs[a].start));
        assert(keys[b] == bits::f64_key_of(segs[b].start));
    }
}

/// It does not matter in which order segments are listed, as long as no two start at the same
/// time: sorted, they are the same.
pub proof fn law_listing_order_does_not_matter(a: Seq<StretchSeg>, b: Seq<StretchSeg>)
    requires
        a.len() <= usize::MAX,
        a.to_multiset() == b.to_multiset(),
        starts_differ(a),
    ensures
        by_start(a) == by_start(b),
{
    vstd::seq_lib::to_multiset_len(a);
    vstd::seq_lib::to_multiset_len(b);
    lemma_starts_differ(a, b);
    lemma_by_start_rises(a);
    lemma_by_start_rises(b);
    order::law_rising_items_are_unique(by_start(a), by_start(b), start_key());
}

/// Whether starts differ does not depend on the listing.
proof fn lemma_starts_differ(a: Seq<StretchSeg>, b: Seq<StretchSeg>)
    requires
        a.to_multiset() == b.to_multiset(),
        starts_differ(a),
    ensures
        starts_differ(b),
{
    assert forall|i: int, j: int| 0 <= i < j < b.len() implies bits::lt64(
        (#[trigger] b[i]).start,
        (#[trigger] b[j]).start,
    ) || bits::lt64(b[j].start, b[i].start) by {
        let (x, y) = (b[i], b[j]);
        assert(b.contains(x) && b.contains(y));
        vstd::seq_lib::to_multiset_contains(a, x);
        vstd::seq_lib::to_multiset_contains(b, x);
        vstd::seq_lib::to_multiset_contains(a, y);
        vstd::seq_lib::to_multiset_contains(b, y);
        let p = choose|p: int| 0 <= p < a.len() && a[p] == x;
        let q = choose|q: int| 0 <= q < a.len() && a[q] == y;
        if p == q {
            // One segment listed twice would occur twice in both.
            lemma_listed_once(a, x);
            lemma_listed_twice(b, i, j);
            assert(false);
        } else if p < q {
            assert(bits::lt64(a[p].start, a[q].start) || bits::lt64(a[q].start, a[p].start));
        } else {
            assert(bits::lt64(a[q].start, a[p].start) || bits::lt64(a[p].start, a[q].start));
        }
    }
}

proof fn lemma_listed_once(a: Seq<StretchSeg>, x: StretchSeg)
    requires
        starts_differ(a),
    ensures
        a.to_multiset().count(x) <= 1,
{
    assert(a.no_duplicates()) by {
        assert forall|i: int, j: int| 0 <= i < a.len() && 0 <= j < a.len() && i != j implies a[i]
            != a[j] by {
            if i < j {
                assert(bits::lt64(a[i].start, a[j].start) || bits::lt64(a[j].start, a[i].start));
            } else {
                assert(bits::lt64(a[j].start, a[i].start) || bits::lt64(a[i].start, a[j].start));
            }
        }
    }
    a.lemma_multiset_has_no_duplicates();
    if a.to_multiset().count(x) > 0 {
        assert(a.to_multiset().contains(x));
    }
}

proof fn lemma_listed_twice(b: Seq<StretchSeg>, i: int, j: int)
    requires
        0 <= i < j < b.len(),
        b[i] == b[j],
    ensures
        b.to_multiset().count(b[i]) >= 2,
{
    let rest = b.remove(j);
    vstd::seq_lib::to_multiset_remove(b, j);
    assert(rest[i] == b[i]);
    assert(rest.contains(b[i]));
    vstd::seq_lib::to_multiset_contains(rest, b[i]);
    vstd::seq_lib::to_multiset_contains(b, b[i]);
    assert(b.contains(b[i]));
}

/// Sorts segments by start time.
pub fn sort_segments(segs: &[StretchSeg]) -> (sorted: Vec<StretchSeg>)
    requires
        order::comparable(starts(segs@)),
    ensures
        sorted@ == by_start(segs@),
        sorted@.to_multiset() == segs@.to_multiset(),
        sorted@.len() == segs@.len(),
        order::ascending(starts(sorted@)),
{
    let mut times: Vec<u64> = Vec::with_capacity(segs.len());
    let mut i: usize = 0;
    while i < segs.len()
        invariant
            i <= segs@.len(),
            times@ == starts(segs@).take(i as int),
        decreases segs@.len() - i,
    {
        times.push(segs[i].start);
        assert(times@ =~= starts(segs@).take(i + 1));
        i += 1;
    }
    assert(times@ =~= starts(segs@));
    let order: Vec<usize> = times_order(times.as_slice());
    let sorted: Vec<StretchSeg> = pick(segs, order.as_slice());
    proof {
        assert(segs.len() <= usize::MAX);
        order::law_sorting_rearranges(order::time_keys(times@), segs@);
        let keys = order::time_keys(times@);
        assert forall|a: int, b: int| 0 <= a < b < sorted@.len() implies bits::le64(
            #[trigger] starts(sorted@)[a],
            #[trigger] starts(sorted@)[b],
        ) by {
            assert(order::before(keys, order@[a] as int, order@[b] as int));
            assert(!crate::bits::f64_nan(times@[order@[a] as int]));
            assert(!crate::bits::f64_nan(times@[order@[b] as int]));
        }
    }
    sorted
}

/// A segment in frames, rounded but not yet limited to the length of the audio. `gap` is the
/// unstretched part before it, if there is one.
#[derive(Clone, Copy)]
pub struct SegFrames {
    pub gap: Option<(usize, usize)>,
    pub start: usize,
    pub end: usize,
}

/// Times in frames, rounded to whole ones.
pub open spec fn rounded_range(start: u64, end: u64) -> (usize, usize) {
    (
        convert::rounded(start, usize::MAX as int) as usize,
        convert::rounded(end, usize::MAX as int) as usize,
    )
}

/// Rounds a range of times, given in frames as bit patterns of doubles. One that runs forward
/// stays so.
pub fn frame_range(start: u64, end: u64) -> (range: (usize, usize))
    ensures
        range == rounded_range(start, end),
        bits::le64(start, end) ==> range.0 <= range.1,
{
    proof {
        if bits::le64(start, end) {
            convert::law_conversion_is_monotone(start, end, usize::MAX as int);
        }
    }
    (convert::round(start), convert::round(end))
}

/// The times of a segment, as bit patterns of doubles. `start` and `margin` are seconds:
/// `margin` lies just past the end of the segment before. The others are in frames; `cursor` is
/// the end of the segment before.
#[derive(Clone, Copy)]
pub struct SegTimes {
    pub start: u64,
    pub margin: u64,
    pub cursor: u64,
    pub start_frame: u64,
    pub end_frame: u64,
}

/// The unstretched part from `from` to `to` (in frames), which counts only where `before` lies
/// before `after`.
pub open spec fn part_between(before: u64, after: u64, from: u64, to: u64) -> Option<
    (usize, usize),
> {
    if bits::lt64(before, after) {
        Some(rounded_range(from, to))
    } else {
        None
    }
}

fn between(before: u64, after: u64, from: u64, to: u64) -> (part: Option<(usize, usize)>)
    ensures
        part == part_between(before, after, from, to),
        bits::le64(from, to) ==> (part matches Some(range) ==> range.0 <= range.1),
{
    if f64_lt(before, after) {
        Some(frame_range(from, to))
    } else {
        None
    }
}

/// A segment in whole frames; the part before it is a gap only where it is longer than the
/// margin.
pub fn seg_frames(times: SegTimes) -> (seg: SegFrames)
    ensures
        seg.gap == part_between(times.margin, times.start, times.cursor, times.start_frame),
        (seg.start, seg.end) == rounded_range(times.start_frame, times.end_frame),
        seg == frames_of(times),
        bits::le64(times.cursor, times.start_frame) ==> (seg.gap matches Some(range) ==> range.0
            <= range.1),
{
    let (start, end) = frame_range(times.start_frame, times.end_frame);
    SegFrames {
        gap: between(times.margin, times.start, times.cursor, times.start_frame),
        start,
        end,
    }
}

/// The rest of the audio after the last segment: `end` is where that segment ends and `margin`
/// lies just before the end of the audio, both in seconds; `cursor` and `total` are the two ends
/// in frames. All are bit patterns of doubles.
pub fn tail_frames(end: u64, margin: u64, cursor: u64, total: u64) -> (tail: Option<
    (usize, usize),
>)
    ensures
        tail == part_between(end, margin, cursor, total),
        bits::le64(cursor, total) ==> (tail matches Some(range) ==> range.0 <= range.1),
{
    between(end, margin, cursor, total)
}

/// A part of the result: frames copied from the audio, or those of segment `seg` stretched.
#[derive(Clone, Copy)]
pub enum Piece {
    Copy { start: usize, end: usize },
    Stretch { seg: usize, start: usize, end: usize },
}

/// A frame number limited to the length of the audio.
pub open spec fn clamped(frame: usize, total: usize) -> usize {
    if frame < total {
        frame
    } else {
        total
    }
}

/// A copied part.
pub open spec fn copy_piece(range: (usize, usize), total: usize) -> Piece {
    Piece::Copy { start: clamped(range.0, total), end: clamped(range.1, total) }
}

/// What segment number `k` contributes: the gap before it, and itself unless it is empty.
pub open spec fn with_segment(pieces: Seq<Piece>, k: int, seg: SegFrames, total: usize) -> Seq<Piece> {
    let pieces = match seg.gap {
        Some(range) => pieces.push(copy_piece(range, total)),
        None => pieces,
    };
    let start = clamped(seg.start, total);
    let end = clamped(seg.end, total);
    if end > start {
        pieces.push(Piece::Stretch { seg: k as usize, start, end })
    } else {
        pieces
    }
}

/// The parts up to and with the last of some segments.
pub open spec fn segment_pieces(segs: Seq<SegFrames>, total: usize) -> Seq<Piece>
    decreases segs.len(),
{
    if segs.len() == 0 {
        Seq::empty()
    } else {
        with_segment(
            segment_pieces(segs.drop_last(), total),
            segs.len() - 1,
            segs.last(),
            total,
        )
    }
}

/// All parts: those of the segments, then the rest of the audio.
pub open spec fn all_pieces(
    segs: Seq<SegFrames>,
    tail: Option<(usize, usize)>,
    total: usize,
) -> Seq<Piece> {
    match tail {
        Some(range) => segment_pieces(segs, total).push(copy_piece(range, total)),
        None => segment_pieces(segs, total),
    }
}

/// A part that runs forward and lies within the audio.
pub open spec fn within(piece: Piece, total: usize) -> bool {
    match piece {
        Piece::Copy { start, end } => start <= end <= total,
        Piece::Stretch { start, end, .. } => start < end <= total,
    }
}

/// No unstretched part runs backwards.
pub open spec fn forward(segs: Seq<SegFrames>, tail: Option<(usize, usize)>) -> bool {
    &&& forall|i: int|
        0 <= i < segs.len() ==> ((#[trigger] segs[i]).gap matches Some(range) ==> range.0
            <= range.1)
    &&& tail matches Some(range) ==> range.0 <= range.1
}

fn clamp_frame(frame: usize, total: usize) -> (c: usize)
    ensures
        c == clamped(frame, total),
{
    if frame < total {
        frame
    } else {
        total
    }
}

/// The parts of the result, in order.
pub fn plan_pieces(segs: &[SegFrames], tail: Option<(usize, usize)>, total: usize) -> (pieces: Vec<
    Piece,
>)
    requires
        forward(segs@, tail),
    ensures
        pieces@ == all_pieces(segs@, tail, total),
        forall|i: int| 0 <= i < pieces@.len() ==> within(#[trigger] pieces@[i], total),
        forall|i: int|
            0 <= i < pieces@.len() ==> (#[trigger] pieces@[i] matches Piece::Stretch { seg, .. }
                ==> seg < segs@.len()),
{
    let mut pieces: Vec<Piece> = Vec::new();
    let mut k: usize = 0;
    assert(segs@.take(0) =~= Seq::<SegFrames>::empty());
    while k < segs.len()
        invariant
            k <= segs@.len(),
            forward(segs@, tail),
            pieces@ == segment_pieces(segs@.take(k as int), total),
            forall|i: int| 0 <= i < pieces@.len() ==> within(#[trigger] pieces@[i], total),
            forall|i: int|
                0 <= i < pieces@.len() ==> (#[trigger] pieces@[i] matches Piece::Stretch {
                    seg,
                    ..
                } ==> seg < segs@.len()),
        decreases segs@.len() - k,
    {
        let ghost before = pieces@;
        let seg: SegFrames = segs[k];
        assert(segs@.take(k + 1).drop_last() =~= segs@.take(k as int));
        assert(segs@.take(k + 1).last() == seg);
        if let Some((from, to)) = seg.gap {
            pieces.push(Piece::Copy { start: clamp_frame(from, total), end: clamp_frame(to, total) });
        }
        let start: usize = clamp_frame(seg.start, total);
        let end: usize = clamp_frame(seg.end, total);
        if end > start {
            pieces.push(Piece::Stretch { seg: k, start, end });
        }
        assert(pieces@ == with_segment(before, k as int, seg, total));
        k += 1;
    }
    assert(segs@.take(k as int) =~= segs@);
    if let Some((from, to)) = tail {
        pieces.push(Piece::Copy { start: clamp_frame(from, total), end: clamp_frame(to, total) });
    }
    pieces
}

/// What a part adds to the result.
pub open spec fn piece_output<T>(
    samples: Seq<T>,
    channels: int,
    stretched: Seq<Seq<T>>,
    piece: Piece,
) -> Seq<T> {
    match piece {
        Piece::Copy { start, end } => samples.subrange(start * channels, end * channels),
        Piece::Stretch { seg, .. } => stretched[seg as int],
    }
}

/// The parts, one after the other.
pub open spec fn assembled<T>(
    samples: Seq<T>,
    channels: int,
    stretched: Seq<Seq<T>>,
    pieces: Seq<Piece>,
) -> Seq<T>
    decreases pieces.len(),
{
    if pieces.len() == 0 {
        Seq::empty()
    } else {
        assembled(samples, channels, stretched, pieces.drop_last()) + piece_output(
            samples,
            channels,
            stretched,
            pieces.last(),
        )
    }
}

/// Puts the result together; `stretched[k]` holds what came of stretching segment `k`.
pub fn assemble<T: Copy>(
    samples: &[T],
    channels: usize,
    pieces: &[Piece],
    stretched: &Vec<Vec<T>>,
) -> (out: Vec<T>)
    requires
        channels > 0,
        forall|i: int|
            0 <= i < pieces@.len() ==> within(
                #[trigger] pieces@[i],
                (samples@.len() / channels as nat) as usize,
            ),
        forall|i: int|
            0 <= i < pieces@.len() ==> (#[trigger] pieces@[i] matches Piece::Stretch { seg, .. }
                ==> seg < stretched@.len()),
    ensures
        out@ == assembled(samples@, channels as int, layout::views(stretched@), pieces@),
{
    let mut out: Vec<T> = Vec::new();
    let mut i: usize = 0;
    let total: usize = samples.len() / channels;
    proof {
        assert(samples.len() <= usize::MAX);
        vstd::arithmetic::div_mod::lemma_fundamental_div_mod(samples@.len() as int, channels as int);
        vstd::arithmetic::div_mod::lemma_mod_bound(samples@.len() as int, channels as int);
        assert(total * channels == channels * total) by (nonlinear_arith);
        assert(pieces@.take(0) =~= Seq::<Piece>::empty());
    }
    while i < pieces.len()
        invariant
            i <= pieces@.len(),
            channels > 0,
            total * channels <= samples@.len() <= usize::MAX,
            total == samples@.len() / channels as nat,
            forall|k: int| 0 <= k < pieces@.len() ==> within(#[trigger] pieces@[k], total),
            forall|k: int|
                0 <= k < pieces@.len() ==> (#[trigger] pieces@[k] matches Piece::Stretch {
                    seg,
                    ..
                } ==> seg < stretched@.len()),
            out@ == assembled(
                samples@,
                channels as int,
                layout::views(stretched@),
                pieces@.take(i as int),
            ),
        decreases pieces@.len() - i,
    {
        let ghost before = out@;
        assert(pieces@.take(i + 1).drop_last() =~= pieces@.take(i as int));
        assert(within(pieces@[i as int], total));
        match pieces[i] {
            Piece::Copy { start, end } => {
                assert(start * channels <= end * channels <= total * channels) by (nonlinear_arith)
                    requires
                        start <= end <= total,
                ;
                push_all(
                    &mut out,
                    vstd::slice::slice_subrange(samples, start * channels, end * channels),
                );
            },
            Piece::Stretch { seg, .. } => {
                push_all(&mut out, stretched[seg].as_slice());
            },
        }
        assert(out@ =~= before + piece_output(
            samples@,
            channels as int,
            layout::views(stretched@),
            pieces@[i as int],
        ));
        i += 1;
    }
    assert(pieces@.take(i as int) =~= pieces@);
    out
}

/// The audio with all segments stretched. Without segments it is unchanged, to the last sample.
pub fn apply_stretches<T: Copy>(
    samples: &[T],
    channels: usize,
    segs: &[SegFrames],
    tail: Option<(usize, usize)>,
    stretched: &Vec<Vec<T>>,
) -> (out: Vec<T>)
    requires
        channels > 0,
        forward(segs@, tail),
        stretched@.len() == segs@.len(),
    ensures
        segs@.len() == 0 ==> out@ == samples@,
        segs@.len() > 0 ==> out@ == assembled(
            samples@,
            channels as int,
            layout::views(stretched@),
            all_pieces(segs@, tail, (samples@.len() / channels as nat) as usize),
        ),
{
    if segs.len() == 0 {
        let mut out: Vec<T> = Vec::new();
        push_all(&mut out, samples);
        assert(out@ =~= samples@);
        return out;
    }
    assert(samples.len() <= usize::MAX);
    let pieces: Vec<Piece> = plan_pieces(segs, tail, samples.len() / channels);
    assemble(samples, channels, pieces.as_slice(), stretched)
}

/// The segments follow one another from the first frame on: each begins where the part before
/// it ends, and none runs backwards.
pub open spec fn chained(segs: Seq<SegFrames>) -> bool
    decreases segs.len(),
{
    segs.len() == 0 || {
        let last = segs.last();
        let end = chain_end(segs.drop_last());
        &&& chained(segs.drop_last())
        &&& last.start <= last.end
        &&& match last.gap {
            Some(range) => range.0 == end && range.1 == last.start && end <= last.start,
            None => last.start == end,
        }
    }
}

/// Where a chain of segments ends.
pub open spec fn chain_end(segs: Seq<SegFrames>) -> int {
    if segs.len() == 0 {
        0
    } else {
        segs.last().end as int
    }
}

/// The tail takes up where the segments end and runs to the end of the audio.
pub open spec fn closes(segs: Seq<SegFrames>, tail: Option<(usize, usize)>, total: int) -> bool {
    match tail {
        Some(range) => range.0 == chain_end(segs) && range.0 <= range.1 && range.1 >= total,
        None => chain_end(segs) >= total,
    }
}

/// Every segment was left as it is.
pub open spec fn unstretched<T>(
    samples: Seq<T>,
    channels: int,
    segs: Seq<SegFrames>,
    total: usize,
    stretched: Seq<Seq<T>>,
) -> bool {
    forall|k: int|
        0 <= k < segs.len() && clamped(segs[k].end, total) > clamped(segs[k].start, total)
            ==> #[trigger] stretched[k] == samples.subrange(
            clamped(segs[k].start, total) * channels,
            clamped(segs[k].end, total) * channels,
        )
}

proof fn lemma_assembled_push<T>(
    samples: Seq<T>,
    channels: int,
    stretched: Seq<Seq<T>>,
    pieces: Seq<Piece>,
    piece: Piece,
)
    ensures
        assembled(samples, channels, stretched, pieces.push(piece)) == assembled(
            samples,
            channels,
            stretched,
            pieces,
        ) + piece_output(samples, channels, stretched, piece),
{
    assert(pieces.push(piece).drop_last() =~= pieces);
}

proof fn lemma_take_more<T>(samples: Seq<T>, channels: int, a: int, b: int, total: int)
    requires
        channels > 0,
        0 <= a <= b <= total,
        total * channels <= samples.len(),
    ensures
        samples.take(a * channels) + samples.subrange(a * channels, b * channels) == samples.take(
            b * channels,
        ),
{
    assert(0 <= a * channels <= b * channels <= total * channels) by (nonlinear_arith)
        requires
            0 <= a <= b <= total,
            channels > 0,
    ;
    assert(samples.take(a * channels) + samples.subrange(a * channels, b * channels)
        =~= samples.take(b * channels));
}

proof fn lemma_chain_copies<T>(
    samples: Seq<T>,
    channels: int,
    segs: Seq<SegFrames>,
    all: Seq<SegFrames>,
    total: usize,
    stretched: Seq<Seq<T>>,
)
    requires
        channels > 0,
        total * channels <= samples.len(),
        segs.len() <= all.len() <= usize::MAX,
        segs == all.take(segs.len() as int),
        chained(segs),
        unstretched(samples, channels, all, total, stretched),
    ensures
        0 <= chain_end(segs) <= usize::MAX,
        assembled(samples, channels, stretched, segment_pieces(segs, total)) == samples.take(
            clamped(chain_end(segs) as usize, total) * channels,
        ),
    decreases segs.len(),
{
    if segs.len() == 0 {
        assert(samples.take(0) =~= Seq::<T>::empty());
        assert(0 * channels == 0);
        assert(clamped(0, total) == 0);
    } else {
        let rest = segs.drop_last();
        let last = segs.last();
        let k = segs.len() - 1;
        assert(rest =~= all.take(rest.len() as int));
        lemma_chain_copies(samples, channels, rest, all, total, stretched);
        let from = clamped(chain_end(rest) as usize, total);
        let start = clamped(last.start, total);
        let end = clamped(last.end, total);
        let before = segment_pieces(rest, total);
        let middle = match last.gap {
            Some(range) => before.push(copy_piece(range, total)),
            None => before,
        };
        if let Some(range) = last.gap {
            lemma_assembled_push(samples, channels, stretched, before, copy_piece(range, total));
            lemma_take_more(samples, channels, from as int, start as int, total as int);
        }
        assert(assembled(samples, channels, stretched, middle) == samples.take(start * channels));
        if end > start {
            let piece = Piece::Stretch { seg: k as usize, start, end };
            lemma_assembled_push(samples, channels, stretched, middle, piece);
            assert(all[k] == last);
            assert(stretched[k] == samples.subrange(start * channels, end * channels));
            lemma_take_more(samples, channels, start as int, end as int, total as int);
        }
    }
}

/// Stretching that changes nothing gives the audio back: where the segments chain, the tail
/// closes them off, and each segment is left as it is, the result is the audio's whole frames.
pub proof fn law_unstretched_is_identity<T>(
    samples: Seq<T>,
    channels: int,
    segs: Seq<SegFrames>,
    tail: Option<(usize, usize)>,
    total: usize,
    stretched: Seq<Seq<T>>,
)
    requires
        channels > 0,
        total == samples.len() as int / channels,
        segs.len() <= usize::MAX,
        chained(segs),
        closes(segs, tail, total as int),
        unstretched(samples, channels, segs, total, stretched),
    ensures
        assembled(samples, channels, stretched, all_pieces(segs, tail, total)) == samples.take(
            total * channels,
        ),
{
    vstd::arithmetic::div_mod::lemma_fundamental_div_mod(samples.len() as int, channels);
    vstd::arithmetic::div_mod::lemma_mod_bound(samples.len() as int, channels);
    assert(total * channels == channels * total) by (nonlinear_arith);
    assert(segs =~= segs.take(segs.len() as int));
    lemma_chain_copies(samples, channels, segs, segs, total, stretched);
    if let Some(range) = tail {
        let from = clamped(range.0, total);
        let pieces = segment_pieces(segs, total);
        lemma_assembled_push(samples, channels, stretched, pieces, copy_piece(range, total));
        lemma_take_more(samples, channels, from as int, total as int, total as int);
    }
}

/// A part that is longer than the margin is kept: it runs from where the part before it ended to
/// where the next one starts, both rounded to the nearest frame. A shorter one is not.
pub proof fn law_part_longer_than_the_margin_is_kept(before: u64, after: u64, from: u64, to: u64)
    requires
        bits::le64(0, from),
        bits::le64(from, to),
        from < F64_SIGN,
        to < F64_SIGN,
        2 * bits::f64_units(to) < 2 * usize::MAX * convert::one() - convert::one(),
    ensures
        ({
            let part = part_between(before, after, from, to);
            &&& part is Some <==> bits::lt64(before, after)
            &&& part matches Some(range) ==> {
                &&& 2 * bits::f64_units(from) - convert::one() < 2 * range.0 * convert::one()
                    <= 2 * bits::f64_units(from) + convert::one()
                &&& 2 * bits::f64_units(to) - convert::one() < 2 * range.1 * convert::one()
                    <= 2 * bits::f64_units(to) + convert::one()
                &&& range.0 <= range.1
            }
        }),
{
    bits::law_f64_key_orders_by_value(from, to);
    convert::law_rounding_goes_to_the_nearest(from);
    convert::law_rounding_goes_to_the_nearest(to);
    convert::law_conversion_is_monotone(from, to, usize::MAX as int);
    convert::lemma_round_fits(from, usize::MAX as int);
    convert::lemma_round_fits(to, usize::MAX as int);
}

/// A segment in whole frames.
pub open spec fn frames_of(times: SegTimes) -> SegFrames {
    let range = rounded_range(times.start_frame, times.end_frame);
    SegFrames {
        gap: part_between(times.margin, times.start, times.cursor, times.start_frame),
        start: range.0,
        end: range.1,
    }
}

/// Segments in whole frames.
pub open spec fn frames_of_all(times: Seq<SegTimes>) -> Seq<SegFrames> {
    Seq::new(times.len(), |i: int| frames_of(times[i]))
}

/// A time rounded to a whole frame.
pub open spec fn nearest_frame(time: u64) -> int {
    convert::rounded(time, usize::MAX as int)
}

/// Where the first `n` segments end, in frames but not rounded.
pub open spec fn end_of(times: Seq<SegTimes>, n: int) -> u64 {
    if n == 0 {
        0
    } else {
        times[n - 1].end_frame
    }
}

/// Segments in order that do not overlap. What lies before a segment but within the margin is
/// less than a frame.
pub open spec fn follow(times: Seq<SegTimes>) -> bool {
    forall|i: int|
        0 <= i < times.len() ==> {
            &&& (#[trigger] times[i]).cursor == end_of(times, i)
            &&& bits::le64(times[i].cursor, times[i].start_frame)
            &&& bits::le64(times[i].start_frame, times[i].end_frame)
            &&& bits::lt64(times[i].margin, times[i].start) || nearest_frame(times[i].start_frame)
                == nearest_frame(times[i].cursor)
        }
}

/// Frame `f` lies in a part: the gaps have even numbers, the segments odd ones, and the tail
/// comes last.
pub open spec fn in_part(
    segs: Seq<SegFrames>,
    tail: Option<(usize, usize)>,
    part: int,
    f: int,
) -> bool {
    if part == 2 * segs.len() {
        tail matches Some(range) && range.0 <= f < range.1
    } else if 0 <= part < 2 * segs.len() {
        if part % 2 == 0 {
            segs[part / 2].gap matches Some(range) && range.0 <= f < range.1
        } else {
            segs[part / 2].start <= f < segs[part / 2].end
        }
    } else {
        false
    }
}

proof fn lemma_frames_chain(times: Seq<SegTimes>, n: int)
    requires
        follow(times),
        0 <= n <= times.len(),
    ensures
        chained(frames_of_all(times).take(n)),
        chain_end(frames_of_all(times).take(n)) == nearest_frame(end_of(times, n)),
    decreases n,
{
    let segs = frames_of_all(times).take(n);
    if n == 0 {
        convert::lemma_round_zero(usize::MAX as int);
    } else {
        lemma_frames_chain(times, n - 1);
        assert(segs.drop_last() =~= frames_of_all(times).take(n - 1));
        let t = times[n - 1];
        assert(segs.last() == frames_of(t));
        convert::law_conversion_is_monotone(t.cursor, t.start_frame, usize::MAX as int);
        convert::law_conversion_is_monotone(t.start_frame, t.end_frame, usize::MAX as int);
    }
}

/// Of the gaps and segments of a chain, exactly one holds each frame before its end, and none
/// holds a later one.
proof fn lemma_chain_covers(segs: Seq<SegFrames>, tail: Option<(usize, usize)>, n: int, f: int)
    requires
        0 <= n <= segs.len(),
        chained(segs.take(n)),
        f >= 0,
    ensures
        f < chain_end(segs.take(n)) ==> exists|p: int|
            0 <= p < 2 * n && #[trigger] in_part(segs, tail, p, f) && forall|q: int|
                0 <= q < 2 * n && #[trigger] in_part(segs, tail, q, f) ==> q == p,
        f >= chain_end(segs.take(n)) ==> forall|q: int|
            0 <= q < 2 * n ==> !#[trigger] in_part(segs, tail, q, f),
    decreases n,
{
    if n > 0 {
        let k = n - 1;
        assert(segs.take(n).drop_last() =~= segs.take(k));
        assert(segs.take(n).last() == segs[k]);
        lemma_chain_covers(segs, tail, k, f);
        let seg = segs[k];
        assert(in_part(segs, tail, 2 * k, f) == (seg.gap matches Some(range) && range.0 <= f
            < range.1)) by {
            assert((2 * k) / 2 == k && (2 * k) % 2 == 0);
        }
        assert(in_part(segs, tail, 2 * k + 1, f) == (seg.start <= f < seg.end)) by {
            assert((2 * k + 1) / 2 == k && (2 * k + 1) % 2 == 1);
        }
        if f < chain_end(segs.take(n)) {
            let p = if f < chain_end(segs.take(k)) {
                choose|p: int|
                    0 <= p < 2 * k && #[trigger] in_part(segs, tail, p, f) && forall|q: int|
                        0 <= q < 2 * k && #[trigger] in_part(segs, tail, q, f) ==> q == p
            } else if f < seg.start {
                2 * k
            } else {
                2 * k + 1
            };
            assert(in_part(segs, tail, p, f));
            assert forall|q: int| 0 <= q < 2 * n && #[trigger] in_part(segs, tail, q, f) implies q
                == p by {
                if q >= 2 * k {
                    assert(q == 2 * k || q == 2 * k + 1);
                }
            }
        } else {
            assert forall|q: int| 0 <= q < 2 * n implies !#[trigger] in_part(segs, tail, q, f) by {
                if q >= 2 * k {
                    assert(q == 2 * k || q == 2 * k + 1);
                }
            }
        }
    }
}

/// Nothing is lost and nothing is played twice: of the gaps, the segments and the tail that are
/// made from the times of segments in order, exactly one holds each frame of the audio. `end` and
/// `margin` are what the tail is decided by, and `total_frame` is the end of the audio, in frames.
pub proof fn law_parts_cover_the_audio_once(
    times: Seq<SegTimes>,
    end: u64,
    margin: u64,
    total_frame: u64,
    f: int,
)
    requires
        follow(times),
        bits::le64(end_of(times, times.len() as int), total_frame),
        bits::lt64(end, margin) || nearest_frame(end_of(times, times.len() as int)) == nearest_frame(
            total_frame,
        ),
        0 <= f < nearest_frame(total_frame),
    ensures
        ({
            let segs = frames_of_all(times);
            let tail = part_between(end, margin, end_of(times, times.len() as int), total_frame);
            exists|p: int|
                #[trigger] in_part(segs, tail, p, f) && forall|q: int|
                    #[trigger] in_part(segs, tail, q, f) ==> q == p
        }),
{
    let n = times.len() as int;
    let segs = frames_of_all(times);
    let tail = part_between(end, margin, end_of(times, n), total_frame);
    lemma_frames_chain(times, n);
    assert(segs.take(n) =~= segs);
    lemma_chain_covers(segs, tail, n, f);
    convert::law_conversion_is_monotone(end_of(times, n), total_frame, usize::MAX as int);
    let p = if f < chain_end(segs) {
        choose|p: int|
            0 <= p < 2 * n && #[trigger] in_part(segs, tail, p, f) && forall|q: int|
                0 <= q < 2 * n && #[trigger] in_part(segs, tail, q, f) ==> q == p
    } else {
        2 * n
    };
    assert(in_part(segs, tail, p, f));
    assert forall|q: int| #[trigger] in_part(segs, tail, q, f) implies q == p by {
        assert(0 <= q <= 2 * n);
    }
}

/// From the times of segments in order, stretching that leaves each segment as it is gives the
/// audio back.
pub proof fn law_unstretched_times_give_the_audio_back<T>(
    samples: Seq<T>,
    channels: int,
    times: Seq<SegTimes>,
    end: u64,
    margin: u64,
    total_frame: u64,
    stretched: Seq<Seq<T>>,
)
    requires
        channels > 0,
        times.len() <= usize::MAX,
        follow(times),
        bits::le64(end_of(times, times.len() as int), total_frame),
        bits::lt64(end, margin) || nearest_frame(end_of(times, times.len() as int)) == nearest_frame(
            total_frame,
        ),
        nearest_frame(total_frame) == samples.len() as int / channels,
        forall|k: int|
            0 <= k < times.len() ==> #[trigger] stretched[k] == samples.subrange(
                nearest_frame(times[k].start_frame) * channels,
                nearest_frame(times[k].end_frame) * channels,
            ),
    ensures
        assembled(
            samples,
            channels,
            stretched,
            all_pieces(
                frames_of_all(times),
                part_between(end, margin, end_of(times, times.len() as int), total_frame),
                (samples.len() as int / channels) as usize,
            ),
        ) == samples.take(samples.len() as int / channels * channels),
{
    let n = times.len() as int;
    let segs = frames_of_all(times);
    let total = (samples.len() as int / channels) as usize;
    let tail = part_between(end, margin, end_of(times, n), total_frame);
    lemma_frames_chain(times, n);
    assert(segs.take(n) =~= segs);
    convert::law_conversion_is_monotone(end_of(times, n), total_frame, usize::MAX as int);
    assert forall|k: int|
        0 <= k < segs.len() && clamped(segs[k].end, total) > clamped(
            segs[k].start,
            total,
        ) implies #[trigger] stretched[k] == samples.subrange(
        clamped(segs[k].start, total) * channels,
        clamped(segs[k].end, total) * channels,
    ) by {
        lemma_segment_within(times, total, k);
    }
    law_unstretched_is_identity(samples, channels, segs, tail, total, stretched);
}

/// A segment that ends within the audio is not shortened.
proof fn lemma_segment_within(times: Seq<SegTimes>, total: usize, k: int)
    requires
        follow(times),
        0 <= k < times.len(),
        nearest_frame(end_of(times, times.len() as int)) <= total,
    ensures
        clamped(frames_of_all(times)[k].start, total) == nearest_frame(times[k].start_frame),
        clamped(frames_of_all(times)[k].end, total) == nearest_frame(times[k].end_frame),
{
    let t = times[k];
    lemma_ends_ascend(times, k + 1, times.len() as int);
    convert::law_conversion_is_monotone(t.start_frame, t.end_frame, usize::MAX as int);
}

proof fn lemma_ends_ascend(times: Seq<SegTimes>, a: int, b: int)
    requires
        follow(times),
        0 <= a <= b <= times.len(),
    ensures
        nearest_frame(end_of(times, a)) <= nearest_frame(end_of(times, b)),
    decreases b - a,
{
    if a < b {
        lemma_ends_ascend(times, a, b - 1);
        let t = times[b - 1];
        convert::law_conversion_is_monotone(t.cursor, t.start_frame, usize::MAX as int);
        convert::law_conversion_is_monotone(t.start_frame, t.end_frame, usize::MAX as int);
    }
}

/// One stretch replaces its own frames and nothing else: the result is what comes before the
/// segment, then the segment stretched, then what comes after it.
pub proof fn law_one_stretch_replaces_its_frames<T>(
    samples: Seq<T>,
    channels: int,
    times: SegTimes,
    end: u64,
    margin: u64,
    total_frame: u64,
    stretched: Seq<T>,
)
    requires
        channels > 0,
        follow(seq![times]),
        bits::le64(times.end_frame, total_frame),
        bits::lt64(end, margin) || nearest_frame(times.end_frame) == nearest_frame(total_frame),
        nearest_frame(total_frame) == samples.len() as int / channels,
        nearest_frame(times.start_frame) < nearest_frame(times.end_frame),
    ensures
        assembled(
            samples,
            channels,
            seq![stretched],
            all_pieces(
                seq![frames_of(times)],
                part_between(end, margin, times.end_frame, total_frame),
                (samples.len() as int / channels) as usize,
            ),
        ) == samples.take(nearest_frame(times.start_frame) * channels) + stretched + samples.subrange(
            nearest_frame(times.end_frame) * channels,
            samples.len() as int / channels * channels,
        ),
{
    let one = seq![times];
    assert(one[0] == times);
    let total = (samples.len() as int / channels) as usize;
    let seg = frames_of(times);
    let segs = seq![seg];
    let tail = part_between(end, margin, times.end_frame, total_frame);
    let (s, e) = (nearest_frame(times.start_frame), nearest_frame(times.end_frame));
    convert::lemma_round_zero(usize::MAX as int);
    convert::law_conversion_is_monotone(times.cursor, times.start_frame, usize::MAX as int);
    convert::law_conversion_is_monotone(times.end_frame, total_frame, usize::MAX as int);
    vstd::arithmetic::div_mod::lemma_fundamental_div_mod(samples.len() as int, channels);
    vstd::arithmetic::div_mod::lemma_mod_bound(samples.len() as int, channels);
    assert(total * channels == channels * total) by (nonlinear_arith);
    let parts = seq![stretched];
    let none = Seq::<Piece>::empty();
    assert(segs.drop_last() =~= Seq::<SegFrames>::empty());
    assert(segment_pieces(segs.drop_last(), total) == none);
    let before = match seg.gap {
        Some(range) => none.push(copy_piece(range, total)),
        None => none,
    };
    assert(0 * channels == 0);
    assert(samples.take(0) =~= Seq::<T>::empty());
    assert(assembled(samples, channels, parts, none) =~= samples.take(0));
    lemma_take_more(samples, channels, 0, s, total as int);
    assert(assembled(samples, channels, parts, before) == samples.take(s * channels)) by {
        if let Some(range) = seg.gap {
            lemma_assembled_push(samples, channels, parts, none, copy_piece(range, total));
        }
    }
    let piece = Piece::Stretch { seg: 0, start: s as usize, end: e as usize };
    assert(segment_pieces(segs, total) == before.push(piece));
    lemma_assembled_push(samples, channels, parts, before, piece);
    let middle = samples.take(s * channels) + stretched;
    assert(e * channels <= total * channels) by (nonlinear_arith)
        requires
            e <= total,
            channels > 0,
    ;
    if let Some(range) = tail {
        lemma_assembled_push(
            samples,
            channels,
            parts,
            before.push(piece),
            copy_piece(range, total),
        );
    } else {
        assert(samples.subrange(e * channels, total * channels) =~= Seq::<T>::empty());
        assert(middle + Seq::<T>::empty() =~= middle);
    }
}

/// Sorted segments go up by their start times, and none is lost or repeated.
pub proof fn law_segments_go_by_start(segs: Seq<StretchSeg>, i: int, j: int)
    requires
        segs.len() <= usize::MAX,
        0 <= i < j < segs.len(),
    ensures
        by_start(segs).to_multiset() == segs.to_multiset(),
        by_start(segs).len() == segs.len(),
        bits::f64_units(by_start(segs)[i].start) <= bits::f64_units(by_start(segs)[j].start),
{
    let keys = order::time_keys(starts(segs));
    let order = order::order_of(keys);
    order::law_sorting_rearranges(keys, segs);
    order::law_sorted_order_exists(keys);
    order::law_sorted_order_goes_up(keys, order, i, j, 0);
    order::law_time_keys_order_by_value(starts(segs), order[i] as int, order[j] as int);
}

} // verus!
