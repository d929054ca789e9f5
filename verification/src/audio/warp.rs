//! The two timelines: frames of the stretched ("warped") audio and seconds of the original.

use vstd::prelude::*;
use crate::audio::stretch::StretchSeg;
use crate::bits;
use crate::bits::f64_le;
use crate::convert;

verus! {

/// Frames of the warped audio that a segment accounts for: those of the unstretched part
/// before it, and its own.
#[derive(Clone, Copy)]
pub struct WarpSpan {
    pub normal: usize,
    pub warped: usize,
}

impl WarpSpan {
    /// A span from its frames, given as bit patterns of doubles and truncated.
    pub fn new(normal: u64, warped: u64) -> (span: WarpSpan)
        ensures
            span.normal == convert::truncated(normal, usize::MAX as int),
            span.warped == convert::truncated(warped, usize::MAX as int),
    {
        WarpSpan { normal: convert::trunc(normal), warped: convert::trunc(warped) }
    }
}

/// Frames of the warped audio that some spans account for.
pub open spec fn warp_len(spans: Seq<WarpSpan>) -> int
    decreases spans.len(),
{
    if spans.len() == 0 {
        0
    } else {
        warp_len(spans.drop_last()) + spans.last().normal + spans.last().warped
    }
}

/// Where a warped frame lies: `offset` frames into the unstretched part before a segment, into
/// a segment, or past the last one.
#[derive(Clone, Copy)]
pub enum Place {
    Normal { seg: usize, offset: usize },
    Stretched { seg: usize, offset: usize },
    Tail { offset: usize },
}

/// The place of a warped frame.
pub open spec fn place_at(spans: Seq<WarpSpan>, frame: int, place: Place) -> bool {
    match place {
        Place::Normal { seg, offset } => {
            &&& seg < spans.len()
            &&& offset < spans[seg as int].normal
            &&& frame == warp_len(spans.take(seg as int)) + offset
        },
        Place::Stretched { seg, offset } => {
            &&& seg < spans.len()
            &&& offset < spans[seg as int].warped
            &&& frame == warp_len(spans.take(seg as int)) + spans[seg as int].normal + offset
        },
        Place::Tail { offset } => frame == warp_len(spans) + offset,
    }
}

/// Finds the place of a warped frame.
pub fn locate_warped(frame: usize, spans: &[WarpSpan]) -> (place: Place)
    ensures
        place_at(spans@, frame as int, place),
{
    let mut rest: usize = frame;
    let mut k: usize = 0;
    assert(spans@.take(0) =~= Seq::<WarpSpan>::empty());
    while k < spans.len()
        invariant
            k <= spans@.len(),
            frame == warp_len(spans@.take(k as int)) + rest,
        decreases spans@.len() - k,
    {
        let span: WarpSpan = spans[k];
        if rest < span.normal {
            return Place::Normal { seg: k, offset: rest };
        }
        rest = rest - span.normal;
        if rest < span.warped {
            return Place::Stretched { seg: k, offset: rest };
        }
        rest = rest - span.warped;
        assert(spans@.take(k + 1).drop_last() =~= spans@.take(k as int));
        k += 1;
    }
    assert(spans@.take(k as int) =~= spans@);
    Place::Tail { offset: rest }
}

/// Which part of the original a time lies in, and the warped frame at which that part begins.
#[derive(Clone, Copy)]
pub enum OriginalPlace {
    /// At or before the start of a segment, after the one before it.
    Normal { seg: usize, base: usize },
    /// In a segment.
    Stretched { seg: usize, base: usize },
    /// After the last segment.
    Tail { base: usize },
}

/// A time after the whole of a segment.
pub open spec fn past(t: u64, seg: StretchSeg) -> bool {
    !bits::le64(t, seg.start) && !bits::le64(t, seg.end)
}

/// The part of the original that `t` lies in: that of the first segment it is not past.
pub open spec fn original_place(
    t: u64,
    segs: Seq<StretchSeg>,
    spans: Seq<WarpSpan>,
    place: OriginalPlace,
) -> bool {
    match place {
        OriginalPlace::Normal { seg, base } => {
            &&& seg < segs.len()
            &&& forall|k: int| 0 <= k < seg ==> past(t, #[trigger] segs[k])
            &&& bits::le64(t, segs[seg as int].start)
            &&& base == warp_len(spans.take(seg as int))
        },
        OriginalPlace::Stretched { seg, base } => {
            &&& seg < segs.len()
            &&& forall|k: int| 0 <= k < seg ==> past(t, #[trigger] segs[k])
            &&& !bits::le64(t, segs[seg as int].start)
            &&& bits::le64(t, segs[seg as int].end)
            &&& base == warp_len(spans.take(seg as int)) + spans[seg as int].normal
        },
        OriginalPlace::Tail { base } => {
            &&& forall|k: int| 0 <= k < segs.len() ==> past(t, #[trigger] segs[k])
            &&& base == warp_len(spans)
        },
    }
}

proof fn lemma_warp_len_monotone(spans: Seq<WarpSpan>, k: int)
    requires
        0 <= k <= spans.len(),
    ensures
        0 <= warp_len(spans.take(k)) <= warp_len(spans),
        k < spans.len() ==> warp_len(spans.take(k)) + spans[k].normal + spans[k].warped
            == warp_len(spans.take(k + 1)) && warp_len(spans.take(k + 1)) <= warp_len(spans),
    decreases spans.len(),
{
    if k < spans.len() {
        assert(spans.take(k + 1).drop_last() =~= spans.take(k));
        lemma_warp_len_monotone(spans.drop_last(), k);
        assert(spans.drop_last().take(k) =~= spans.take(k));
        if k + 1 < spans.len() {
            assert(spans.drop_last().take(k + 1) =~= spans.take(k + 1));
        } else {
            assert(spans.take(k + 1) =~= spans);
        }
    } else {
        assert(spans.take(k) =~= spans);
        if spans.len() > 0 {
            lemma_warp_len_monotone(spans.drop_last(), k - 1);
            assert(spans.drop_last().take(k - 1) =~= spans.drop_last());
        }
    }
}

/// Finds the part of the original that `t` (the bit pattern of a double) lies in.
pub fn locate_original(t: u64, segs: &[StretchSeg], spans: &[WarpSpan]) -> (place: OriginalPlace)
    requires
        spans@.len() == segs@.len(),
        warp_len(spans@) <= usize::MAX,
    ensures
        original_place(t, segs@, spans@, place),
{
    let mut base: usize = 0;
    let mut k: usize = 0;
    assert(spans@.take(0) =~= Seq::<WarpSpan>::empty());
    while k < segs.len()
        invariant
            k <= segs@.len(),
            spans@.len() == segs@.len(),
            warp_len(spans@) <= usize::MAX,
            base == warp_len(spans@.take(k as int)),
            forall|j: int| 0 <= j < k ==> past(t, #[trigger] segs@[j]),
        decreases segs@.len() - k,
    {
        proof {
            lemma_warp_len_monotone(spans@, k as int);
        }
        if f64_le(t, segs[k].start) {
            return OriginalPlace::Normal { seg: k, base };
        }
        base = base + spans[k].normal;
        if f64_le(t, segs[k].end) {
            return OriginalPlace::Stretched { seg: k, base };
        }
        base = base + spans[k].warped;
        k += 1;
    }
    assert(spans@.take(k as int) =~= spans@);
    OriginalPlace::Tail { base }
}

/// Adds up the frames of some spans; `None` where they are more than can be counted.
pub fn warped_total(spans: &[WarpSpan]) -> (total: Option<usize>)
    ensures
        match total {
            Some(n) => n == warp_len(spans@),
            None => warp_len(spans@) > usize::MAX,
        },
{
    let mut sum: usize = 0;
    let mut k: usize = 0;
    assert(spans@.take(0) =~= Seq::<WarpSpan>::empty());
    while k < spans.len()
        invariant
            k <= spans@.len(),
            sum == warp_len(spans@.take(k as int)),
        decreases spans@.len() - k,
    {
        proof {
            lemma_warp_len_monotone(spans@, k as int);
        }
        let span: WarpSpan = spans[k];
        if span.normal > usize::MAX - sum || span.warped > usize::MAX - sum - span.normal {
            return None;
        }
        sum = sum + span.normal + span.warped;
        k += 1;
    }
    assert(spans@.take(k as int) =~= spans@);
    Some(sum)
}

impl OriginalPlace {
    /// The warped frame at which the part begins.
    pub open spec fn start_frame(self) -> usize {
        match self {
            OriginalPlace::Normal { base, .. } => base,
            OriginalPlace::Stretched { base, .. } => base,
            OriginalPlace::Tail { base } => base,
        }
    }

    /// The warped frame `offset` frames (the bit pattern of a double, truncated) into the part;
    /// `None` where it cannot be counted.
    pub fn warped_frame(self, offset: u64) -> (frame: Option<usize>)
        ensures
            match frame {
                Some(n) => n == self.start_frame() + convert::truncated(offset, usize::MAX as int),
                None => self.start_frame() + convert::truncated(offset, usize::MAX as int)
                    > usize::MAX,
            },
    {
        let base: usize = match self {
            OriginalPlace::Normal { base, .. } => base,
            OriginalPlace::Stretched { base, .. } => base,
            OriginalPlace::Tail { base } => base,
        };
        base.checked_add(convert::trunc(offset))
    }
}

/// A warped frame has one place only. So the place that a time was mapped to, as a frame
/// counted from where its part begins, is found again from that frame.
pub proof fn law_place_is_unique(spans: Seq<WarpSpan>, frame: int, a: Place, b: Place)
    requires
        place_at(spans, frame, a),
        place_at(spans, frame, b),
    ensures
        a == b,
{
    let na = span_number(spans, a);
    let nb = span_number(spans, b);
    lemma_place_bounds(spans, frame, a);
    lemma_place_bounds(spans, frame, b);
    if na < nb {
        lemma_prefix_order(spans, na + 1, nb);
    }
    if nb < na {
        lemma_prefix_order(spans, nb + 1, na);
    }
}

/// The number of spans that lie before a place.
spec fn span_number(spans: Seq<WarpSpan>, place: Place) -> int {
    match place {
        Place::Normal { seg, .. } => seg as int,
        Place::Stretched { seg, .. } => seg as int,
        Place::Tail { .. } => spans.len() as int,
    }
}

proof fn lemma_place_bounds(spans: Seq<WarpSpan>, frame: int, place: Place)
    requires
        place_at(spans, frame, place),
    ensures
        ({
            let n = span_number(spans, place);
            &&& 0 <= n <= spans.len()
            &&& warp_len(spans.take(n)) <= frame
            &&& n < spans.len() ==> frame < warp_len(spans.take(n + 1))
        }),
{
    let n = span_number(spans, place);
    lemma_warp_len_monotone(spans, n);
    if n == spans.len() {
        assert(spans.take(n) =~= spans);
    }
}

proof fn lemma_prefix_order(spans: Seq<WarpSpan>, a: int, b: int)
    requires
        0 <= a <= b <= spans.len(),
    ensures
        warp_len(spans.take(a)) <= warp_len(spans.take(b)),
{
    lemma_warp_len_monotone(spans.take(b), a);
    assert(spans.take(b).take(a) =~= spans.take(a));
}

/// The number of a part, counting the unstretched part before each segment and the segment
/// itself; the tail comes last.
pub open spec fn part_number(spans: Seq<WarpSpan>, place: Place) -> int {
    match place {
        Place::Normal { seg, .. } => 2 * seg,
        Place::Stretched { seg, .. } => 2 * seg + 1,
        Place::Tail { .. } => 2 * spans.len() as int,
    }
}

/// How many frames into its part a place lies.
pub open spec fn part_offset(place: Place) -> usize {
    match place {
        Place::Normal { offset, .. } => offset,
        Place::Stretched { offset, .. } => offset,
        Place::Tail { offset } => offset,
    }
}

/// The length of a part before the tail, in frames.
pub open spec fn part_len(spans: Seq<WarpSpan>, part: int) -> int {
    if part % 2 == 0 {
        spans[part / 2].normal as int
    } else {
        spans[part / 2].warped as int
    }
}

/// The warped frame at which a part begins.
pub open spec fn part_start(spans: Seq<WarpSpan>, part: int) -> int {
    if part % 2 == 0 {
        warp_len(spans.take(part / 2))
    } else {
        warp_len(spans.take(part / 2)) + spans[part / 2].normal
    }
}

impl OriginalPlace {
    /// The number of the part.
    pub open spec fn part(self, n_segs: int) -> int {
        match self {
            OriginalPlace::Normal { seg, .. } => 2 * seg,
            OriginalPlace::Stretched { seg, .. } => 2 * seg + 1,
            OriginalPlace::Tail { .. } => 2 * n_segs,
        }
    }

    /// `offset` frames into the part, as a place of a warped frame.
    pub open spec fn at(self, offset: usize) -> Place {
        match self {
            OriginalPlace::Normal { seg, .. } => Place::Normal { seg, offset },
            OriginalPlace::Stretched { seg, .. } => Place::Stretched { seg, offset },
            OriginalPlace::Tail { .. } => Place::Tail { offset },
        }
    }

    /// An offset that does not lead past the end of the part. The tail has no end.
    pub open spec fn reaches(self, spans: Seq<WarpSpan>, offset: int) -> bool {
        &&& 0 <= offset
        &&& self !is Tail ==> offset <= part_len(spans, self.part(spans.len() as int))
    }
}

proof fn lemma_part_step(spans: Seq<WarpSpan>, part: int)
    requires
        0 <= part < 2 * spans.len(),
    ensures
        part_start(spans, part + 1) == part_start(spans, part) + part_len(spans, part),
        part_len(spans, part) >= 0,
{
    let k = part / 2;
    lemma_warp_len_monotone(spans, k);
    if part % 2 == 0 {
        assert((part + 1) % 2 == 1 && (part + 1) / 2 == k);
    } else {
        assert((part + 1) % 2 == 0 && (part + 1) / 2 == k + 1);
    }
}

proof fn lemma_parts_ascend(spans: Seq<WarpSpan>, a: int, b: int)
    requires
        0 <= a <= b <= 2 * spans.len(),
    ensures
        part_start(spans, a) <= part_start(spans, b),
        part_start(spans, a) == part_start(spans, b) ==> forall|m: int|
            a <= m < b ==> #[trigger] part_len(spans, m) == 0,
    decreases b - a,
{
    if a < b {
        lemma_part_step(spans, b - 1);
        lemma_parts_ascend(spans, a, b - 1);
        if part_start(spans, a) == part_start(spans, b) {
            assert forall|m: int| a <= m < b implies #[trigger] part_len(spans, m) == 0 by {
                if m == b - 1 {
                    assert(part_len(spans, b - 1) == 0);
                }
            }
        }
    }
}

/// A place lies in its part.
proof fn lemma_place_in_part(spans: Seq<WarpSpan>, frame: int, place: Place)
    requires
        place_at(spans, frame, place),
    ensures
        0 <= part_number(spans, place) <= 2 * spans.len(),
        frame == part_start(spans, part_number(spans, place)) + part_offset(place),
        place !is Tail ==> part_number(spans, place) < 2 * spans.len() && part_offset(place)
            < part_len(spans, part_number(spans, place)),
{
    let part = part_number(spans, place);
    match place {
        Place::Normal { seg, .. } => {
            assert(part % 2 == 0 && part / 2 == seg);
        },
        Place::Stretched { seg, .. } => {
            assert(part % 2 == 1 && part / 2 == seg);
        },
        Place::Tail { .. } => {
            assert(part % 2 == 0 && part / 2 == spans.len());
            assert(spans.take(spans.len() as int) =~= spans);
        },
    }
}

/// The part that a time was mapped to begins at its base.
proof fn lemma_original_part(
    t: u64,
    segs: Seq<StretchSeg>,
    spans: Seq<WarpSpan>,
    place: OriginalPlace,
)
    requires
        spans.len() == segs.len(),
        original_place(t, segs, spans, place),
    ensures
        0 <= place.part(spans.len() as int) <= 2 * spans.len(),
        place !is Tail ==> place.part(spans.len() as int) < 2 * spans.len(),
        place.start_frame() == part_start(spans, place.part(spans.len() as int)),
{
    let part = place.part(spans.len() as int);
    match place {
        OriginalPlace::Normal { seg, .. } => {
            assert(part % 2 == 0 && part / 2 == seg);
        },
        OriginalPlace::Stretched { seg, .. } => {
            assert(part % 2 == 1 && part / 2 == seg);
        },
        OriginalPlace::Tail { .. } => {
            assert(part % 2 == 0 && part / 2 == spans.len());
            assert(spans.take(spans.len() as int) =~= spans);
        },
    }
}

/// Mapping a time to its part and coming back finds the same part, at the same distance from
/// where it begins. At the very end of a part, the frame is found at the start of the next part
/// that is not empty.
pub proof fn law_located_part_is_found_again(
    t: u64,
    segs: Seq<StretchSeg>,
    spans: Seq<WarpSpan>,
    place: OriginalPlace,
    offset: usize,
    found: Place,
)
    requires
        spans.len() == segs.len(),
        original_place(t, segs, spans, place),
        place.reaches(spans, offset as int),
        place_at(spans, place.start_frame() + offset, found),
    ensures
        ({
            let part = place.part(spans.len() as int);
            let next = part_number(spans, found);
            if place is Tail || offset < part_len(spans, part) {
                found == place.at(offset)
            } else {
                &&& part < next <= 2 * spans.len()
                &&& part_offset(found) == 0
                &&& found !is Tail ==> part_len(spans, next) > 0
                &&& forall|m: int| part < m < next ==> #[trigger] part_len(spans, m) == 0
            }
        }),
{
    let part = place.part(spans.len() as int);
    let next = part_number(spans, found);
    let frame = place.start_frame() + offset;
    lemma_original_part(t, segs, spans, place);
    if place is Tail || offset < part_len(spans, part) {
        match place {
            OriginalPlace::Normal { seg, .. } => {
                assert(part % 2 == 0 && part / 2 == seg);
            },
            OriginalPlace::Stretched { seg, .. } => {
                assert(part % 2 == 1 && part / 2 == seg);
            },
            OriginalPlace::Tail { .. } => {},
        }
        law_place_is_unique(spans, frame, found, place.at(offset));
    } else {
        lemma_place_in_part(spans, frame, found);
        lemma_part_step(spans, part);
        if next <= part {
            lemma_part_step(spans, next);
            lemma_parts_ascend(spans, next + 1, part + 1);
            assert(false);
        }
        lemma_parts_ascend(spans, part + 1, next);
    }
}

/// The way to a warped frame and back loses less than one frame: the offset at which a time is
/// found again, in the part it was mapped to, is the exact one without its fraction.
pub proof fn law_time_is_found_again_within_a_frame(
    t: u64,
    segs: Seq<StretchSeg>,
    spans: Seq<WarpSpan>,
    place: OriginalPlace,
    offset: u64,
    found: Place,
)
    requires
        spans.len() == segs.len(),
        original_place(t, segs, spans, place),
        bits::le64(0, offset),
        convert::floor_of(offset) <= usize::MAX,
        place.reaches(spans, convert::floor_of(offset)),
        place_at(
            spans,
            place.start_frame() + convert::truncated(offset, usize::MAX as int),
            found,
        ),
    ensures
        ({
            let part = place.part(spans.len() as int);
            let whole = convert::floor_of(offset);
            // The part is found again, or the start of what follows its end.
            &&& if place is Tail || whole < part_len(spans, part) {
                found == place.at(whole as usize)
            } else {
                &&& part < part_number(spans, found)
                &&& part_offset(found) == 0
                &&& part_start(spans, part_number(spans, found)) == part_start(spans, part) + whole
            }
            // And the exact offset lies less than a frame further on.
            &&& whole * convert::one() <= bits::f64_units(offset) < (whole + 1) * convert::one()
        }),
{
    let whole = convert::floor_of(offset);
    convert::law_floor_and_ceil_enclose(offset);
    law_located_part_is_found_again(t, segs, spans, place, whole as usize, found);
    lemma_original_part(t, segs, spans, place);
    lemma_place_in_part(spans, place.start_frame() + whole, found);
}

/// A later time is mapped to no earlier frame, as long as no offset leads past the end of its
/// part and later times of one part have no smaller offsets.
pub proof fn law_later_times_map_to_later_frames(
    t1: u64,
    t2: u64,
    segs: Seq<StretchSeg>,
    spans: Seq<WarpSpan>,
    place1: OriginalPlace,
    place2: OriginalPlace,
    offset1: u64,
    offset2: u64,
)
    requires
        bits::le64(t1, t2),
        spans.len() == segs.len(),
        original_place(t1, segs, spans, place1),
        original_place(t2, segs, spans, place2),
        place1.reaches(spans, convert::truncated(offset1, usize::MAX as int)),
        place1.part(spans.len() as int) == place2.part(spans.len() as int) ==> bits::le64(
            offset1,
            offset2,
        ),
    ensures
        place1.part(spans.len() as int) <= place2.part(spans.len() as int),
        place1.start_frame() + convert::truncated(offset1, usize::MAX as int)
            <= place2.start_frame() + convert::truncated(offset2, usize::MAX as int),
{
    let n = spans.len() as int;
    lemma_original_part(t1, segs, spans, place1);
    lemma_original_part(t2, segs, spans, place2);
    lemma_later_part(t1, t2, segs, spans, place1, place2);
    if place1.part(n) == place2.part(n) {
        convert::law_conversion_is_monotone(offset1, offset2, usize::MAX as int);
    } else {
        lemma_part_step(spans, place1.part(n));
        lemma_parts_ascend(spans, place1.part(n) + 1, place2.part(n));
    }
}

/// What a time is past, a later time is past.
proof fn lemma_later_part(
    t1: u64,
    t2: u64,
    segs: Seq<StretchSeg>,
    spans: Seq<WarpSpan>,
    place1: OriginalPlace,
    place2: OriginalPlace,
)
    requires
        bits::le64(t1, t2),
        spans.len() == segs.len(),
        original_place(t1, segs, spans, place1),
        original_place(t2, segs, spans, place2),
    ensures
        place1.part(spans.len() as int) <= place2.part(spans.len() as int),
{
    let k1 = place1.part(spans.len() as int) / 2;
    let k2 = place2.part(spans.len() as int) / 2;
    if k2 < k1 {
        assert(past(t1, segs[k2]));
        assert(false);
    }
}

/// Times before the first frame are mapped to the first frame, whether or not there are
/// segments: their offset is not above zero.
pub proof fn law_times_before_the_start_map_to_the_start(
    t: u64,
    segs: Seq<StretchSeg>,
    spans: Seq<WarpSpan>,
    place: OriginalPlace,
    offset: u64,
)
    requires
        bits::le64(t, 0),
        segs.len() > 0 ==> bits::le64(0, segs[0].start),
        spans.len() == segs.len(),
        original_place(t, segs, spans, place),
        bits::le64(offset, 0),
    ensures
        place.start_frame() + convert::truncated(offset, usize::MAX as int) == 0,
{
    convert::law_conversion_is_monotone(offset, 0, usize::MAX as int);
    convert::lemma_zero();
    if segs.len() > 0 {
        assert(!past(t, segs[0]));
        assert(spans.take(0) =~= Seq::<WarpSpan>::empty());
    } else {
        assert(spans =~= Seq::<WarpSpan>::empty());
    }
}

/// Without segments, a time is mapped to its own frame: the offset without its fraction.
pub proof fn law_without_segments_frames_are_those_of_the_original(
    t: u64,
    place: OriginalPlace,
    offset: u64,
)
    requires
        original_place(t, Seq::empty(), Seq::empty(), place),
    ensures
        place.start_frame() + convert::truncated(offset, usize::MAX as int) == convert::truncated(
            offset,
            usize::MAX as int,
        ),
{
}

/// Spans add up: each accounts for its unstretched and its stretched frames.
pub proof fn law_spans_add_up(spans: Seq<WarpSpan>, span: WarpSpan)
    ensures
        warp_len(Seq::empty()) == 0,
        warp_len(spans.push(span)) == warp_len(spans) + span.normal + span.warped,
{
    assert(spans.push(span).drop_last() =~= spans);
}

/// A place tells its frame: what the spans before it account for, then, within its own span, the
/// unstretched frames before the stretched ones, then its offset, which stays within its part.
pub proof fn law_place_tells_its_frame(spans: Seq<WarpSpan>, frame: int, seg: usize, offset: usize)
    ensures
        place_at(spans, frame, Place::Normal { seg, offset }) <==> seg < spans.len() && offset
            < spans[seg as int].normal && frame - offset == warp_len(spans.take(seg as int)),
        place_at(spans, frame, Place::Stretched { seg, offset }) <==> seg < spans.len() && offset
            < spans[seg as int].warped && frame - offset == warp_len(spans.take(seg as int))
            + spans[seg as int].normal,
        place_at(spans, frame, Place::Tail { offset }) <==> frame - offset == warp_len(spans),
{
}

/// Segments in order that do not overlap.
pub open spec fn in_order(segs: Seq<StretchSeg>) -> bool {
    &&& forall|i: int|
        0 <= i < segs.len() ==> bits::le64((#[trigger] segs[i]).start, segs[i].end)
    &&& forall|i: int, j: int|
        0 <= i < j < segs.len() ==> bits::le64((#[trigger] segs[i]).end, (#[trigger] segs[j]).start)
}

/// Where segments are in order, a time lies where it should: within a segment after its start up
/// to its end, before a segment from the end of the one before up to its start, and in the tail
/// after all of them. The part begins after all frames that come before it.
pub proof fn law_times_lie_in_their_part(
    t: u64,
    segs: Seq<StretchSeg>,
    spans: Seq<WarpSpan>,
    place: OriginalPlace,
    k: int,
)
    requires
        in_order(segs),
        spans.len() == segs.len(),
        original_place(t, segs, spans, place),
    ensures
        0 <= k < segs.len() && bits::lt64(segs[k].start, t) && bits::le64(t, segs[k].end) ==> (
        place matches OriginalPlace::Stretched { seg, base } && seg == k && base == warp_len(
            spans.take(k),
        ) + spans[k].normal),
        0 <= k < segs.len() && bits::le64(t, segs[k].start) && (k == 0 || bits::lt64(
            segs[k - 1].end,
            t,
        )) ==> (place matches OriginalPlace::Normal { seg, base } && seg == k && base == warp_len(
            spans.take(k),
        )),
        !bits::f64_nan(t) && segs.len() > 0 && bits::lt64(segs.last().end, t) ==> (
        place matches OriginalPlace::Tail { base } && base == warp_len(spans)),
        segs.len() == 0 ==> (place matches OriginalPlace::Tail { base } && base == 0),
{
    if 0 <= k < segs.len() {
        lemma_earlier_are_past(t, segs, k);
    }
    if segs.len() > 0 {
        lemma_earlier_are_past(t, segs, segs.len() - 1);
    }
    if 0 <= k < segs.len() && bits::lt64(segs[k].start, t) && bits::le64(t, segs[k].end) {
        assert(!past(t, segs[k]));
    }
    if 0 <= k < segs.len() && bits::le64(t, segs[k].start) {
        assert(!past(t, segs[k]));
    }
    match place {
        OriginalPlace::Normal { seg, .. } => {
            assert(!past(t, segs[seg as int]));
        },
        OriginalPlace::Stretched { seg, .. } => {
            assert(!past(t, segs[seg as int]));
        },
        OriginalPlace::Tail { .. } => {},
    }
    assert(segs.len() == 0 ==> spans =~= Seq::<WarpSpan>::empty());
}

/// A time that comes after the end of the segment before `k`, or after the start of `k`, is past
/// all segments before `k`; one that comes after the end of `k` is past `k` too.
proof fn lemma_earlier_are_past(t: u64, segs: Seq<StretchSeg>, k: int)
    requires
        in_order(segs),
        0 <= k < segs.len(),
    ensures
        bits::lt64(segs[k].start, t) ==> forall|i: int|
            0 <= i < k ==> past(t, #[trigger] segs[i]),
        k > 0 && bits::lt64(segs[k - 1].end, t) ==> forall|i: int|
            0 <= i < k ==> past(t, #[trigger] segs[i]),
        bits::lt64(segs[k].end, t) ==> forall|i: int| 0 <= i <= k ==> past(t, #[trigger] segs[i]),
{
    assert forall|i: int| 0 <= i < k && bits::lt64(segs[k].start, t) implies past(
        t,
        #[trigger] segs[i],
    ) by {
        assert(bits::le64(segs[i].start, segs[i].end));
        assert(bits::le64(segs[i].end, segs[k].start));
    }
    assert forall|i: int| 0 <= i < k && bits::lt64(segs[k - 1].end, t) implies past(
        t,
        #[trigger] segs[i],
    ) by {
        assert(bits::le64(segs[i].start, segs[i].end));
        if i < k - 1 {
            assert(bits::le64(segs[i].end, segs[k - 1].start));
            assert(bits::le64(segs[k - 1].start, segs[k - 1].end));
        }
    }
    assert forall|i: int| 0 <= i <= k && bits::lt64(segs[k].end, t) implies past(
        t,
        #[trigger] segs[i],
    ) by {
        assert(bits::le64(segs[i].start, segs[i].end));
        if i < k {
            assert(bits::le64(segs[i].end, segs[k].start));
            assert(bits::le64(segs[k].start, segs[k].end));
        }
    }
}

} // verus!
