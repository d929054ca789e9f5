//! A scene: the notes of a clip, laid out so that a frame finds what it has to draw.

use vstd::prelude::*;
use crate::bits;
use crate::convert;
use crate::lists;
use crate::order;
use crate::order::{pick, sort_times, times_order};

verus! {

/// A note. Times are seconds from the first frame, as bit patterns of doubles; `vel` is the bit
/// pattern of a single.
#[derive(Clone, Copy)]
pub struct SceneNote {
    pub start: u64,
    pub end: u64,
    pub pitch: u8,
    pub vel: u32,
    pub track: usize,
}

/// A track.
#[derive(Clone, Copy)]
pub struct SceneTrack {
    pub color: [u8; 3],
    pub is_piano: bool,
}

/// When a note is drawn: at times from `first` to `last`; its beam until `beam_end`. All three
/// are bit patterns of doubles.
#[derive(Clone, Copy)]
pub struct NoteSpan {
    pub first: u64,
    pub last: u64,
    pub beam_end: u64,
}

impl NoteSpan {
    /// The first second during which the note is drawn.
    pub open spec fn from(self) -> int {
        convert::truncated(self.first, usize::MAX as int)
    }

    /// The last second during which the note is drawn.
    pub open spec fn to(self) -> int {
        convert::raised(self.last, usize::MAX as int)
    }
}

/// 6.5 as the bit pattern of a double.
pub const LOOKAHEAD_HORIZONTAL: u64 = 0x401a_0000_0000_0000;

/// 3.4 as the bit pattern of a double.
pub const LOOKAHEAD_VERTICAL: u64 = 0x400b_3333_3333_3333;

/// How many seconds ahead of the hit line are shown: more where notes come from the side.
pub fn lookahead(horizontal: bool) -> (secs: u64)
    ensures
        secs == (if horizontal { LOOKAHEAD_HORIZONTAL } else { LOOKAHEAD_VERTICAL }),
{
    if horizontal {
        LOOKAHEAD_HORIZONTAL
    } else {
        LOOKAHEAD_VERTICAL
    }
}

/// All notes have a track.
pub open spec fn tracks_known(notes: Seq<SceneNote>, tracks: Seq<SceneTrack>) -> bool {
    forall|i: int| 0 <= i < notes.len() ==> (#[trigger] notes[i]).track < tracks.len()
}

/// Start or end of a note of the orchestra.
#[derive(Clone, Copy)]
pub struct OrchestraEvent {
    pub time: u64,
    pub vel: u32,
    pub rising: bool,
}

/// The starts and ends of the orchestra's notes, note by note.
pub open spec fn events_of(notes: Seq<SceneNote>, tracks: Seq<SceneTrack>) -> Seq<OrchestraEvent>
    decreases notes.len(),
{
    if notes.len() == 0 {
        Seq::empty()
    } else {
        let before = events_of(notes.drop_last(), tracks);
        let n = notes.last();
        if tracks[n.track as int].is_piano {
            before
        } else {
            before.push(OrchestraEvent { time: n.start, vel: n.vel, rising: true }).push(
                OrchestraEvent { time: n.end, vel: n.vel, rising: false },
            )
        }
    }
}

/// The times of some events.
pub open spec fn event_times(events: Seq<OrchestraEvent>) -> Seq<u64> {
    Seq::new(events.len(), |i: int| events[i].time)
}

/// The onset of a note of the piano.
pub open spec fn piano_start(tracks: Seq<SceneTrack>) -> spec_fn(SceneNote) -> Option<u64> {
    |n: SceneNote|
        if tracks[n.track as int].is_piano {
            Some(n.start)
        } else {
            None
        }
}

/// The onsets of the piano's notes, note by note.
pub open spec fn piano_starts(notes: Seq<SceneNote>, tracks: Seq<SceneTrack>) -> Seq<u64> {
    notes.filter_map(piano_start(tracks))
}

/// The times without those that are close to the last one kept before them.
pub open spec fn thinned(times: Seq<u64>, close: spec_fn(u64, u64) -> bool) -> Seq<u64>
    decreases times.len(),
{
    if times.len() == 0 {
        Seq::empty()
    } else {
        let before = thinned(times.drop_last(), close);
        if before.len() > 0 && close(times.last(), before.last()) {
            before
        } else {
            before.push(times.last())
        }
    }
}

/// The numbers of `n` notes.
pub open spec fn numbers(n: nat) -> Seq<u32> {
    Seq::new(n, |i: int| i as u32)
}

/// Whether a note is drawn during a second.
pub open spec fn drawn_during(spans: Seq<NoteSpan>, second: int) -> spec_fn(u32) -> bool {
    |ni: u32| spans[ni as int].from() <= second <= spans[ni as int].to()
}

/// The first `n` notes that are drawn during a second, ascending.
pub open spec fn drawn_in(spans: Seq<NoteSpan>, second: int, n: nat) -> Seq<u32> {
    numbers(n).filter(drawn_during(spans, second))
}

/// A scene.
pub struct Scene {
    pub width: u32,
    pub height: u32,
    pub horizontal: bool,
    pub notes: Vec<SceneNote>,
    pub tracks: Vec<SceneTrack>,
    /// Beats, ascending.
    pub beats: Vec<u64>,
    /// Per second, the notes drawn during it.
    pub buckets: Vec<Vec<u32>>,
    /// Per note, until when its beam is seen.
    pub beam_ends: Vec<u64>,
    pub beat_pulse: bool,
    pub orchestra_bars: bool,
    pub tempo_pendulum: bool,
    pub progress_bar: bool,
    pub next_note_cue: bool,
    pub countdown_pips: bool,
    pub clip_dur: u64,
    /// Distinct onsets of the piano, ascending.
    pub piano_onsets: Vec<u64>,
    /// The frames go on top of a video.
    pub transparent_bg: bool,
}

impl Scene {
    pub open spec fn inv(&self) -> bool {
        &&& tracks_known(self.notes@, self.tracks@)
        &&& order::ascending(self.beats@)
        &&& order::ascending(self.piano_onsets@)
        &&& self.beam_ends@.len() == self.notes@.len()
        &&& forall|b: int|
            0 <= b < self.buckets@.len() ==> known(
                (#[trigger] self.buckets@[b])@,
                self.notes@.len() as int,
            )
    }

    /// The notes drawn during a second; none after the last one.
    pub open spec fn active_in(&self, second: int) -> Seq<u32> {
        if 0 <= second < self.buckets@.len() {
            self.buckets@[second]@
        } else {
            Seq::empty()
        }
    }

    /// A scene from its notes, tracks and beats. `clip_dur` is the length of the clip in seconds,
    /// `spans` says when each note is drawn, and `close` says which piano onsets count as one.
    pub fn new<F: Fn(u64, u64) -> bool>(
        notes: Vec<SceneNote>,
        tracks: Vec<SceneTrack>,
        beats: Vec<u64>,
        width: u32,
        height: u32,
        horizontal: bool,
        clip_dur: u64,
        beat_pulse: bool,
        orchestra_bars: bool,
        tempo_pendulum: bool,
        progress_bar: bool,
        next_note_cue: bool,
        countdown_pips: bool,
        transparent_bg: bool,
        spans: &[NoteSpan],
        close: F,
    ) -> (scene: Scene)
        requires
            tracks_known(notes@, tracks@),
            order::comparable(beats@),
            order::comparable(piano_starts(notes@, tracks@)),
            spans@.len() == notes@.len(),
            notes@.len() <= u32::MAX,
            convert::raised(clip_dur, usize::MAX as int) + 2 <= usize::MAX,
            forall|a: u64, b: u64| #[trigger] close.requires((a, b)),
            forall|a: u64, b: u64|
                !(#[trigger] close.ensures((a, b), true) && close.ensures((a, b), false)),
        ensures
            scene.inv(),
            scene.width == width,
            scene.height == height,
            scene.horizontal == horizontal,
            scene.notes == notes,
            scene.tracks == tracks,
            scene.beats@ == order::picked(
                beats@,
                order::order_of(order::time_keys(beats@)),
            ),
            scene.beats@.to_multiset() == beats@.to_multiset(),
            scene.buckets@.len() == convert::raised(clip_dur, usize::MAX as int) + 2,
            forall|b: int|
                0 <= b < scene.buckets@.len() ==> (#[trigger] scene.buckets@[b])@ == drawn_in(
                    spans@,
                    b,
                    notes@.len(),
                ),
            scene.beam_ends@ == Seq::new(spans@.len(), |i: int| spans@[i].beam_end),
            scene.beat_pulse == beat_pulse,
            scene.orchestra_bars == orchestra_bars,
            scene.tempo_pendulum == tempo_pendulum,
            scene.progress_bar == progress_bar,
            scene.next_note_cue == next_note_cue,
            scene.countdown_pips == countdown_pips,
            scene.clip_dur == clip_dur,
            scene.transparent_bg == transparent_bg,
            scene.piano_onsets@ == thinned(
                order::picked(
                    piano_starts(notes@, tracks@),
                    order::order_of(order::time_keys(piano_starts(notes@, tracks@))),
                ),
                |a: u64, b: u64| close.ensures((a, b), true),
            ),
    {
        let sorted_beats: Vec<u64> = sort_times(beats.as_slice());
        let starts: Vec<u64> = collect_piano_starts(notes.as_slice(), tracks.as_slice());
        let sorted_starts: Vec<u64> = sort_times(starts.as_slice());
        let piano_onsets: Vec<u64> = thin(sorted_starts.as_slice(), close);
        let buckets: Vec<Vec<u32>> = fill_buckets(spans, convert::ceil_len(clip_dur) + 2);
        let mut beam_ends: Vec<u64> = Vec::with_capacity(spans.len());
        let mut i: usize = 0;
        while i < spans.len()
            invariant
                i <= spans@.len(),
                beam_ends@ == Seq::new(spans@.len(), |k: int| spans@[k].beam_end).take(i as int),
            decreases spans@.len() - i,
        {
            beam_ends.push(spans[i].beam_end);
            assert(beam_ends@ =~= Seq::new(spans@.len(), |k: int| spans@[k].beam_end).take(i + 1));
            i += 1;
        }
        assert(beam_ends@ =~= Seq::new(spans@.len(), |k: int| spans@[k].beam_end));
        proof {
            assert forall|b: int| 0 <= b < buckets@.len() implies known(
                (#[trigger] buckets@[b])@,
                notes@.len() as int,
            ) by {
                lemma_drawn_known(spans@, b, notes@.len());
            }
        }
        Scene {
            width,
            height,
            horizontal,
            notes,
            tracks,
            beats: sorted_beats,
            buckets,
            beam_ends,
            beat_pulse,
            orchestra_bars,
            tempo_pendulum,
            progress_bar,
            next_note_cue,
            countdown_pips,
            clip_dur,
            piano_onsets,
            transparent_bg,
        }
    }

    /// The notes that may have to be drawn at time `t`: those of its second. Times before the
    /// first frame belong to the first second.
    pub fn active(&self, t: u64) -> (notes: Vec<u32>)
        ensures
            notes@ == self.active_in(convert::truncated(t, usize::MAX as int)),
            self.inv() ==> known(notes@, self.notes@.len() as int),
    {
        let second: usize = convert::trunc(t);
        if second < self.buckets.len() {
            vstd::slice::slice_to_vec(self.buckets[second].as_slice())
        } else {
            Vec::new()
        }
    }
}

/// Note numbers that stand for notes.
pub open spec fn known(active: Seq<u32>, n_notes: int) -> bool {
    forall|i: int| 0 <= i < active.len() ==> #[trigger] active[i] < n_notes
}

/// The starts and ends of the orchestra's notes by time, equal times in the order of the notes.
pub fn orchestra_events(notes: &[SceneNote], tracks: &[SceneTrack]) -> (events: Vec<OrchestraEvent>)
    requires
        tracks_known(notes@, tracks@),
        order::comparable(event_times(events_of(notes@, tracks@))),
    ensures
        events@ == order::picked(
            events_of(notes@, tracks@),
            order::order_of(order::time_keys(event_times(events_of(notes@, tracks@)))),
        ),
        events@.to_multiset() == events_of(notes@, tracks@).to_multiset(),
        order::ascending(event_times(events@)),
{
    let mut events: Vec<OrchestraEvent> = Vec::new();
    let mut times: Vec<u64> = Vec::new();
    let mut i: usize = 0;
    assert(notes@.take(0) =~= Seq::<SceneNote>::empty());
    while i < notes.len()
        invariant
            i <= notes@.len(),
            tracks_known(notes@, tracks@),
            events@ == events_of(notes@.take(i as int), tracks@),
            times@ == event_times(events@),
        decreases notes@.len() - i,
    {
        let n: SceneNote = notes[i];
        assert(notes@.take(i + 1).drop_last() =~= notes@.take(i as int));
        assert(notes@[i as int].track < tracks@.len());
        if !tracks[n.track].is_piano {
            events.push(OrchestraEvent { time: n.start, vel: n.vel, rising: true });
            events.push(OrchestraEvent { time: n.end, vel: n.vel, rising: false });
            times.push(n.start);
            times.push(n.end);
            assert(times@ =~= event_times(events@));
        }
        i += 1;
    }
    assert(notes@.take(i as int) =~= notes@);
    let order: Vec<usize> = times_order(times.as_slice());
    let sorted: Vec<OrchestraEvent> = pick(events.as_slice(), order.as_slice());
    proof {
        assert(events.len() <= usize::MAX);
        order::law_sorting_rearranges(order::time_keys(times@), events@);
        let keys = order::time_keys(times@);
        assert forall|a: int, b: int| 0 <= a < b < sorted@.len() implies bits::le64(
            #[trigger] event_times(sorted@)[a],
            #[trigger] event_times(sorted@)[b],
        ) by {
            assert(order::before(keys, order@[a] as int, order@[b] as int));
            assert(!bits::f64_nan(times@[order@[a] as int]));
            assert(!bits::f64_nan(times@[order@[b] as int]));
        }
    }
    sorted
}

fn collect_piano_starts(notes: &[SceneNote], tracks: &[SceneTrack]) -> (starts: Vec<u64>)
    requires
        tracks_known(notes@, tracks@),
    ensures
        starts@ == piano_starts(notes@, tracks@),
{
    let mut starts: Vec<u64> = Vec::new();
    let mut i: usize = 0;
    assert(notes@.take(0) =~= Seq::<SceneNote>::empty());
    while i < notes.len()
        invariant
            i <= notes@.len(),
            tracks_known(notes@, tracks@),
            starts@ == piano_starts(notes@.take(i as int), tracks@),
        decreases notes@.len() - i,
    {
        let n: SceneNote = notes[i];
        proof {
            lists::lemma_filter_map_step(notes@, piano_start(tracks@), i as int);
        }
        assert(notes@[i as int].track < tracks@.len());
        if tracks[n.track].is_piano {
            starts.push(n.start);
        }
        i += 1;
    }
    assert(notes@.take(i as int) =~= notes@);
    starts
}

/// Drops each time that is close to the last one kept before it.
pub fn thin<F: Fn(u64, u64) -> bool>(times: &[u64], close: F) -> (kept: Vec<u64>)
    requires
        order::ascending(times@),
        forall|a: u64, b: u64| #[trigger] close.requires((a, b)),
        forall|a: u64, b: u64|
            !(#[trigger] close.ensures((a, b), true) && close.ensures((a, b), false)),
    ensures
        kept@ == thinned(times@, |a: u64, b: u64| close.ensures((a, b), true)),
        order::ascending(kept@),
{
    let ghost same = |a: u64, b: u64| close.ensures((a, b), true);
    let mut kept: Vec<u64> = Vec::new();
    let mut i: usize = 0;
    assert(times@.take(0) =~= Seq::<u64>::empty());
    while i < times.len()
        invariant
            i <= times@.len(),
            forall|a: u64, b: u64| #[trigger] close.requires((a, b)),
            forall|a: u64, b: u64|
                !(#[trigger] close.ensures((a, b), true) && close.ensures((a, b), false)),
            same == (|a: u64, b: u64| close.ensures((a, b), true)),
            kept@ == thinned(times@.take(i as int), same),
        decreases times@.len() - i,
    {
        let t: u64 = times[i];
        assert(times@.take(i + 1).drop_last() =~= times@.take(i as int));
        let drop: bool = if kept.len() > 0 {
            close(t, kept[kept.len() - 1])
        } else {
            false
        };
        if !drop {
            kept.push(t);
        }
        i += 1;
    }
    assert(times@.take(i as int) =~= times@);
    proof {
        lemma_thinned_ascending(times@, same);
    }
    kept
}

/// Only given times are kept.
pub proof fn law_kept_times_are_given(times: Seq<u64>, close: spec_fn(u64, u64) -> bool)
    ensures
        forall|i: int| 0 <= i < thinned(times, close).len() ==> times.contains(#[trigger] thinned(times, close)[i]),
    decreases times.len(),
{
    if times.len() > 0 {
        let rest = times.drop_last();
        law_kept_times_are_given(rest, close);
        let before = thinned(rest, close);
        let all = thinned(times, close);
        assert forall|i: int| 0 <= i < all.len() implies times.contains(#[trigger] all[i]) by {
            if i < before.len() {
                assert(all[i] == before[i]);
                let j = choose|j: int| 0 <= j < rest.len() && rest[j] == before[i];
                assert(times[j] == all[i]);
            } else {
                assert(times[times.len() - 1] == all[i]);
            }
        }
    }
}

proof fn lemma_thinned_ascending(times: Seq<u64>, close: spec_fn(u64, u64) -> bool)
    requires
        order::ascending(times),
    ensures
        order::ascending(thinned(times, close)),
    decreases times.len(),
{
    if times.len() > 0 {
        let rest = times.drop_last();
        lemma_thinned_ascending(rest, close);
        law_kept_times_are_given(rest, close);
        let before = thinned(rest, close);
        let all = thinned(times, close);
        assert forall|a: int, b: int| 0 <= a < b < all.len() implies bits::le64(
            #[trigger] all[a],
            #[trigger] all[b],
        ) by {
            assert(all[a] == before[a]);
            if b < before.len() {
                assert(all[b] == before[b]);
            } else {
                let j = choose|j: int| 0 <= j < rest.len() && rest[j] == before[a];
                assert(rest.contains(before[a]));
                assert(bits::le64(times[j], times[times.len() - 1]));
            }
        }
    }
}

fn fill_buckets(spans: &[NoteSpan], n_buckets: usize) -> (buckets: Vec<Vec<u32>>)
    requires
        n_buckets > 0,
        spans@.len() <= u32::MAX,
    ensures
        buckets@.len() == n_buckets,
        forall|b: int|
            0 <= b < n_buckets ==> (#[trigger] buckets@[b])@ == drawn_in(
                spans@,
                b,
                spans@.len(),
            ),
{
    let mut buckets: Vec<Vec<u32>> = Vec::new();
    let mut k: usize = 0;
    while k < n_buckets
        invariant
            k <= n_buckets,
            buckets@.len() == k,
            forall|b: int| 0 <= b < k ==> (#[trigger] buckets@[b])@ == Seq::<u32>::empty(),
        decreases n_buckets - k,
    {
        buckets.push(Vec::new());
        k += 1;
    }
    let mut i: usize = 0;
    proof {
        assert forall|b: int| 0 <= b < n_buckets implies (#[trigger] buckets@[b])@ == drawn_in(
            spans@,
            b,
            0,
        ) by {
            reveal(Seq::filter);
        }
    }
    while i < spans.len()
        invariant
            i <= spans@.len() <= u32::MAX,
            n_buckets > 0,
            buckets@.len() == n_buckets,
            forall|b: int|
                0 <= b < n_buckets ==> (#[trigger] buckets@[b])@ == drawn_in(spans@, b, i as nat),
        decreases spans@.len() - i,
    {
        let from: usize = convert::trunc(spans[i].first);
        let last: usize = convert::ceil_len(spans[i].last);
        let to: usize = if last < n_buckets - 1 {
            last
        } else {
            n_buckets - 1
        };
        if from <= to {
            let mut b: usize = from;
            while b <= to
                invariant
                    i < spans@.len() <= u32::MAX,
                    from <= b <= to + 1 <= n_buckets,
                    buckets@.len() == n_buckets,
                    from == spans@[i as int].from(),
                    to <= spans@[i as int].to(),
                    forall|k: int|
                        from <= k < b ==> (#[trigger] buckets@[k])@ == drawn_in(
                            spans@,
                            k,
                            (i + 1) as nat,
                        ),
                    forall|k: int|
                        0 <= k < n_buckets && !(from <= k < b) ==> (#[trigger] buckets@[k])@
                            == drawn_in(spans@, k, i as nat),
                decreases to + 1 - b,
            {
                buckets[b].push(i as u32);
                proof {
                    lemma_drawn_step(spans@, b as int, i as nat);
                }
                b += 1;
            }
        }
        proof {
            assert forall|k: int| 0 <= k < n_buckets implies (#[trigger] buckets@[k])@ == drawn_in(
                spans@,
                k,
                (i + 1) as nat,
            ) by {
                lemma_drawn_step(spans@, k, i as nat);
            }
        }
        i += 1;
    }
    buckets
}

proof fn lemma_drawn_step(spans: Seq<NoteSpan>, second: int, n: nat)
    requires
        n < u32::MAX,
    ensures
        drawn_in(spans, second, n + 1) == (if spans[n as int].from() <= second
            <= spans[n as int].to() {
            drawn_in(spans, second, n).push(n as u32)
        } else {
            drawn_in(spans, second, n)
        }),
{
    let all = numbers(n + 1);
    lists::lemma_filter_step(all, drawn_during(spans, second), n as int);
    assert(all.take(n as int) =~= numbers(n));
    assert(all.take(n as int + 1) =~= all);
}

proof fn lemma_drawn_known(spans: Seq<NoteSpan>, second: int, n: nat)
    requires
        n <= u32::MAX,
    ensures
        known(drawn_in(spans, second, n), n as int),
{
    let all = drawn_in(spans, second, n);
    assert forall|i: int| 0 <= i < all.len() implies #[trigger] all[i] < n by {
        assert(all.contains(all[i]));
        lists::lemma_filter_elements(numbers(n), drawn_during(spans, second), all[i]);
    }
}

/// Of the times that are kept, none is close to the one kept before it.
pub proof fn law_thinned_times_are_apart(times: Seq<u64>, close: spec_fn(u64, u64) -> bool, i: int)
    requires
        0 <= i,
        i + 1 < thinned(times, close).len(),
    ensures
        !close(thinned(times, close)[i + 1], thinned(times, close)[i]),
    decreases times.len(),
{
    let before = thinned(times.drop_last(), close);
    if i + 1 < before.len() {
        law_thinned_times_are_apart(times.drop_last(), close, i);
    }
}

/// What is kept of the first times is kept of all of them, at the same places.
proof fn lemma_thinned_prefix(times: Seq<u64>, close: spec_fn(u64, u64) -> bool, n: int)
    requires
        0 <= n <= times.len(),
    ensures
        thinned(times.take(n), close).len() <= thinned(times, close).len(),
        forall|i: int|
            0 <= i < thinned(times.take(n), close).len() ==> #[trigger] thinned(
                times.take(n),
                close,
            )[i] == thinned(times, close)[i],
    decreases times.len(),
{
    if n == times.len() {
        assert(times.take(n) =~= times);
    } else {
        let rest = times.drop_last();
        lemma_thinned_prefix(rest, close, n);
        assert(rest.take(n) =~= times.take(n));
        let before = thinned(times.take(n), close);
        assert forall|i: int| 0 <= i < before.len() implies #[trigger] before[i] == thinned(
            times,
            close,
        )[i] by {
            assert(before[i] == thinned(rest, close)[i]);
        }
    }
}

/// A time that stands for another: the same time, or one that the other is close to.
pub open spec fn stands_for(
    kept: Seq<u64>,
    k: int,
    t: u64,
    close: spec_fn(u64, u64) -> bool,
) -> bool {
    0 <= k < kept.len() && (kept[k] == t || close(t, kept[k]))
}

/// Some kept time stands for `t`.
pub open spec fn represented(kept: Seq<u64>, t: u64, close: spec_fn(u64, u64) -> bool) -> bool {
    exists|k: int| stands_for(kept, k, t, close)
}

/// No time is lost: each is kept, or close to the last one kept before it.
pub proof fn law_every_time_is_kept_or_close(
    times: Seq<u64>,
    close: spec_fn(u64, u64) -> bool,
    i: int,
)
    requires
        0 <= i < times.len(),
    ensures
        ({
            let kept = thinned(times, close);
            let n = thinned(times.take(i), close).len() as int;
            ||| n < kept.len() && kept[n] == times[i]
            ||| n > 0 && close(times[i], kept[n - 1])
        }),
        represented(thinned(times, close), times[i], close),
{
    let kept = thinned(times, close);
    let first = times.take(i);
    let more = times.take(i + 1);
    assert(more.drop_last() =~= first);
    assert(more.last() == times[i]);
    lemma_thinned_prefix(times, close, i);
    lemma_thinned_prefix(times, close, i + 1);
    let n = thinned(first, close).len() as int;
    if n > 0 && close(times[i], thinned(first, close).last()) {
        assert(thinned(first, close)[n - 1] == kept[n - 1]);
        assert(stands_for(kept, n - 1, times[i], close));
    } else {
        assert(thinned(more, close)[n] == times[i]);
        assert(kept[n] == times[i]);
        assert(stands_for(kept, n, times[i], close));
    }
}

/// The onsets of a scene, which are the sorted starts of the piano's notes thinned out, are
/// starts of the piano's notes, and each such start has an onset that stands for it.
pub proof fn law_onsets_stand_for_all_starts(starts: Seq<u64>, close: spec_fn(u64, u64) -> bool)
    requires
        starts.len() <= usize::MAX,
    ensures
        ({
            let onsets = thinned(
                order::picked(starts, order::order_of(order::time_keys(starts))),
                close,
            );
            &&& forall|i: int| 0 <= i < onsets.len() ==> starts.contains(#[trigger] onsets[i])
            &&& forall|i: int|
                0 <= i < starts.len() ==> represented(onsets, #[trigger] starts[i], close)
        }),
{
    let keys = order::time_keys(starts);
    let sorted = order::picked(starts, order::order_of(keys));
    let onsets = thinned(sorted, close);
    order::law_sorting_rearranges(keys, starts);
    law_kept_times_are_given(sorted, close);
    assert forall|i: int| 0 <= i < onsets.len() implies starts.contains(#[trigger] onsets[i]) by {
        assert(sorted.contains(onsets[i]));
    }
    assert forall|i: int| 0 <= i < starts.len() implies represented(
        onsets,
        #[trigger] starts[i],
        close,
    ) by {
        assert(starts.contains(starts[i]));
        assert(sorted.contains(starts[i]));
        let j = choose|j: int| 0 <= j < sorted.len() && sorted[j] == starts[i];
        law_every_time_is_kept_or_close(sorted, close, j);
    }
}

/// A second lists exactly the notes that are drawn during it.
pub proof fn law_second_lists_its_notes(spans: Seq<NoteSpan>, second: int, n: nat, note: u32)
    requires
        n <= u32::MAX,
        note < n,
    ensures
        drawn_in(spans, second, n).contains(note) <==> spans[note as int].from() <= second
            <= spans[note as int].to(),
{
    assert(numbers(n)[note as int] == note);
    lists::lemma_filter_elements(numbers(n), drawn_during(spans, second), note);
}

/// No note is missed: the second of a time at which a note is drawn lists that note.
pub proof fn law_no_drawn_note_is_missed(spans: Seq<NoteSpan>, t: u64, n: nat, note: u32)
    requires
        n <= u32::MAX,
        note < n,
        bits::le64(spans[note as int].first, t),
        bits::le64(t, spans[note as int].last),
    ensures
        drawn_in(spans, convert::truncated(t, usize::MAX as int), n).contains(note),
{
    let max = usize::MAX as int;
    convert::law_conversion_is_monotone(spans[note as int].first, t, max);
    convert::law_truncated_is_below_raised(t, max);
    convert::law_conversion_is_monotone(t, spans[note as int].last, max);
    law_second_lists_its_notes(spans, convert::truncated(t, max), n, note);
}

/// A second lists its notes in the order in which they were given, each once.
pub proof fn law_second_lists_notes_in_order(spans: Seq<NoteSpan>, second: int, n: nat)
    requires
        n <= u32::MAX,
    ensures
        forall|i: int, j: int|
            0 <= i < j < drawn_in(spans, second, n).len() ==> #[trigger] drawn_in(
                spans,
                second,
                n,
            )[i] < #[trigger] drawn_in(spans, second, n)[j],
    decreases n,
{
    reveal(Seq::filter);
    if n > 0 {
        law_second_lists_notes_in_order(spans, second, (n - 1) as nat);
        lemma_drawn_known(spans, second, (n - 1) as nat);
        lemma_drawn_step(spans, second, (n - 1) as nat);
        let before = drawn_in(spans, second, (n - 1) as nat);
        let all = drawn_in(spans, second, n);
        assert forall|i: int, j: int| 0 <= i < j < all.len() implies #[trigger] all[i]
            < #[trigger] all[j] by {
            assert(all[i] == before[i]);
            if j < before.len() {
                assert(all[j] == before[j]);
            }
        }
    }
}

/// A second lists a note no earlier and no later than it has to: only if the note is drawn before
/// the second is over, and not more than a second after it was last drawn.
pub proof fn law_notes_are_listed_around_their_time(
    spans: Seq<NoteSpan>,
    second: int,
    n: nat,
    note: u32,
)
    requires
        n <= u32::MAX,
        note < n,
        0 <= second < usize::MAX,
        drawn_in(spans, second, n).contains(note),
        !bits::f64_nan(spans[note as int].first),
        !bits::f64_nan(spans[note as int].last),
    ensures
        bits::f64_units(spans[note as int].first) < (second + 1) * convert::one(),
        second > 0 ==> (second - 1) * convert::one() < bits::f64_units(spans[note as int].last),
{
    let span = spans[note as int];
    law_second_lists_its_notes(spans, second, n, note);
    convert::law_floor_and_ceil_enclose(span.first);
    convert::law_floor_and_ceil_enclose(span.last);
    convert::lemma_one_is_positive();
    let (f, c, o) = (convert::floor_of(span.first), convert::ceil_of(span.last), convert::one());
    assert(f <= second);
    assert((f + 1) * o <= (second + 1) * o) by (nonlinear_arith)
        requires
            f <= second,
            o > 0,
    ;
    if second > 0 {
        assert(second <= c);
        assert((second - 1) * o <= (c - 1) * o) by (nonlinear_arith)
            requires
                second <= c,
                o > 0,
        ;
    }
}

/// Every note of the orchestra rises at its start and falls at its end; the piano's notes do
/// neither, and there are no other events.
pub proof fn law_events_are_starts_and_ends(
    notes: Seq<SceneNote>,
    tracks: Seq<SceneTrack>,
    e: OrchestraEvent,
)
    ensures
        events_of(notes, tracks).contains(e) <==> exists|i: int|
            0 <= i < notes.len() && !tracks[(#[trigger] notes[i]).track as int].is_piano && e.vel
                == notes[i].vel && e.time == (if e.rising { notes[i].start } else { notes[i].end }),
    decreases notes.len(),
{
    let all = events_of(notes, tracks);
    if notes.len() == 0 {
        assert(!all.contains(e));
    } else {
        let rest = notes.drop_last();
        let before = events_of(rest, tracks);
        let n = notes.last();
        law_events_are_starts_and_ends(rest, tracks, e);
        let last = notes.len() - 1;
        if before.contains(e) {
            let k = choose|k: int| 0 <= k < before.len() && before[k] == e;
            assert(all[k] == e);
            let i = choose|i: int|
                0 <= i < rest.len() && !tracks[(#[trigger] rest[i]).track as int].is_piano && e.vel
                    == rest[i].vel && e.time == (if e.rising { rest[i].start } else {
                    rest[i].end
                });
            assert(notes[i] == rest[i]);
        }
        if !tracks[n.track as int].is_piano {
            assert(all[all.len() - 2] == OrchestraEvent { time: n.start, vel: n.vel, rising: true });
            assert(all[all.len() - 1] == OrchestraEvent { time: n.end, vel: n.vel, rising: false });
            assert(notes[last] == n);
        }
        if all.contains(e) && !before.contains(e) {
            let k = choose|k: int| 0 <= k < all.len() && all[k] == e;
            if k < before.len() {
                assert(before[k] == e);
            }
            assert(!tracks[notes[last].track as int].is_piano);
        }
        if exists|i: int|
            0 <= i < notes.len() && !tracks[(#[trigger] notes[i]).track as int].is_piano && e.vel
                == notes[i].vel && e.time == (if e.rising { notes[i].start } else {
                notes[i].end
            }) {
            let i = choose|i: int|
                0 <= i < notes.len() && !tracks[(#[trigger] notes[i]).track as int].is_piano
                    && e.vel == notes[i].vel && e.time == (if e.rising { notes[i].start } else {
                    notes[i].end
                });
            if i < last {
                assert(rest[i] == notes[i]);
            }
        }
    }
}

/// The events of a note of the orchestra come after those of the notes before it, its start before
/// its end; their times are told one for one.
pub proof fn law_events_come_in_pairs(
    notes: Seq<SceneNote>,
    tracks: Seq<SceneTrack>,
    n: SceneNote,
    i: int,
)
    ensures
        tracks[n.track as int].is_piano ==> events_of(notes.push(n), tracks) == events_of(
            notes,
            tracks,
        ),
        !tracks[n.track as int].is_piano ==> events_of(notes.push(n), tracks).len() == events_of(
            notes,
            tracks,
        ).len() + 2 && events_of(notes.push(n), tracks).last() == (OrchestraEvent {
            time: n.end,
            vel: n.vel,
            rising: false,
        }),
        event_times(events_of(notes, tracks)).len() == events_of(notes, tracks).len(),
        0 <= i < events_of(notes, tracks).len() ==> event_times(events_of(notes, tracks))[i]
            == events_of(notes, tracks)[i].time,
{
    assert(notes.push(n).drop_last() =~= notes);
}

/// The onsets of the piano are the starts of its notes, of all of them and of no others.
pub proof fn law_piano_starts_are_its_notes(
    notes: Seq<SceneNote>,
    tracks: Seq<SceneTrack>,
    t: u64,
)
    ensures
        piano_starts(notes, tracks).contains(t) <==> exists|i: int|
            0 <= i < notes.len() && tracks[(#[trigger] notes[i]).track as int].is_piano
                && notes[i].start == t,
{
    lists::lemma_filter_map_elements(notes, piano_start(tracks), t);
    if piano_starts(notes, tracks).contains(t) {
        let i = choose|i: int|
            0 <= i < notes.len() && piano_start(tracks)(#[trigger] notes[i]) == Some(t);
        assert(tracks[notes[i].track as int].is_piano);
    }
    if exists|i: int|
        0 <= i < notes.len() && tracks[(#[trigger] notes[i]).track as int].is_piano
            && notes[i].start == t {
        let i = choose|i: int|
            0 <= i < notes.len() && tracks[(#[trigger] notes[i]).track as int].is_piano
                && notes[i].start == t;
        assert(piano_start(tracks)(notes[i]) == Some(t));
    }
}

/// The notes that are active in a second are those listed for it; after the last second there are
/// none.
pub proof fn law_active_notes_are_those_listed(scene: Scene, second: int)
    ensures
        0 <= second < scene.buckets@.len() ==> scene.active_in(second) == scene.buckets@[second]@,
        second >= scene.buckets@.len() ==> scene.active_in(second).len() == 0,
{
}

} // verus!
