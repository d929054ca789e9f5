//! What a frame at time `t` shows: the order of drawing, and the notes, beats and cues of each
//! step. Times are bit patterns of doubles.

use vstd::prelude::*;
use crate::bits;
use crate::bits::{f32_key, f32_max, f64_is_finite, f64_le, f64_lt, F64_INF};
use crate::lists;
use crate::order;
use crate::order::count_until;
use crate::video::keyboard;
use crate::video::keyboard::{HI_PITCH, LO_PITCH};
use crate::video::rng::shard_seed;
use crate::video::scene;
use crate::video::scene::{Scene, SceneNote};

verus! {

/// A step of drawing a frame.
#[derive(Clone, Copy, PartialEq, Eq, Structural)]
pub enum Pass {
    Background,
    BeatLines,
    OrchestraNotes,
    PianoBeams,
    PianoNotes,
    HitLine,
    Keyboard,
    Particles,
    Conductor,
    OrchestraBars,
    TempoPendulum,
    NextNoteCue,
    CountdownPips,
    BeatPulse,
    ProgressBar,
}

/// A step, if it is wanted.
pub open spec fn maybe(pass: Pass, wanted: bool) -> Seq<Pass> {
    if wanted {
        seq![pass]
    } else {
        Seq::empty()
    }
}

/// A note that is seen, and whether it sounds.
#[derive(Clone, Copy, PartialEq, Eq, Structural)]
pub struct SeenNote {
    pub note: u32,
    pub sounding: bool,
}

/// A note that casts a beam, and whether it has been released.
#[derive(Clone, Copy, PartialEq, Eq, Structural)]
pub struct BeamNote {
    pub note: u32,
    pub released: bool,
}

/// The beats around a time.
#[derive(Clone, Copy, PartialEq, Eq, Structural)]
pub enum Swing {
    /// Before the first beat.
    Before,
    /// From beat number `beat` to the next.
    Between { beat: usize },
    /// After the last beat.
    After,
}

/// The beats left until the piano comes in again.
#[derive(Clone, Copy, PartialEq, Eq, Structural)]
pub struct Pips {
    /// How many are shown.
    pub shown: usize,
    /// The next beat, if there is one.
    pub next_beat: Option<u64>,
}

/// What bursts from a note's hit point: embers while it is held if it belongs to the piano,
/// which also gets a second ring; shards with this seed.
#[derive(Clone, Copy, PartialEq, Eq, Structural)]
pub struct Burst {
    pub note: u32,
    pub embers: bool,
    pub rings: u32,
    pub seed: u64,
}

/// At most this many pips are shown.
pub const MAX_PIPS: usize = 8;

/// With more beats than this to go no pips are shown.
pub const MAX_BEATS_LEFT: usize = 12;

/// A note sounds from its start to its end, both counted.
pub open spec fn sounds(n: SceneNote, t: u64) -> bool {
    bits::le64(n.start, t) && bits::le64(t, n.end)
}

/// Whether a note sounds.
fn note_sounds(n: SceneNote, t: u64) -> (yes: bool)
    ensures
        yes == sounds(n, t),
{
    f64_le(n.start, t) && f64_le(t, n.end)
}

impl Scene {
    /// The note with a number.
    pub open spec fn note(&self, ni: u32) -> SceneNote {
        self.notes@[ni as int]
    }

    /// Whether a note belongs to the piano.
    pub open spec fn plays_piano(&self, ni: u32) -> bool {
        self.tracks@[self.note(ni).track as int].is_piano
    }

    /// The order of drawing. Notes of the orchestra come before those of the piano, which are
    /// always seen; the cues come last, on top. Where the frames go on top of a video, the field
    /// stays transparent.
    pub open spec fn pass_list(&self) -> Seq<Pass> {
        maybe(Pass::Background, !self.transparent_bg) + seq![
            Pass::BeatLines,
            Pass::OrchestraNotes,
            Pass::PianoBeams,
            Pass::PianoNotes,
            Pass::HitLine,
            Pass::Keyboard,
            Pass::Particles,
            Pass::Conductor,
        ] + maybe(Pass::OrchestraBars, self.orchestra_bars) + maybe(
            Pass::TempoPendulum,
            self.tempo_pendulum,
        ) + maybe(Pass::NextNoteCue, self.next_note_cue) + maybe(
            Pass::CountdownPips,
            self.countdown_pips,
        ) + maybe(Pass::BeatPulse, self.beat_pulse) + maybe(Pass::ProgressBar, self.progress_bar)
    }

    /// The steps of drawing a frame, in order.
    pub fn passes(&self) -> (passes: Vec<Pass>)
        ensures
            passes@ == self.pass_list(),
    {
        let mut passes: Vec<Pass> = Vec::new();
        push_if(&mut passes, Pass::Background, !self.transparent_bg);
        passes.push(Pass::BeatLines);
        passes.push(Pass::OrchestraNotes);
        passes.push(Pass::PianoBeams);
        passes.push(Pass::PianoNotes);
        passes.push(Pass::HitLine);
        passes.push(Pass::Keyboard);
        passes.push(Pass::Particles);
        passes.push(Pass::Conductor);
        assert(passes@ =~= maybe(Pass::Background, !self.transparent_bg) + seq![
            Pass::BeatLines,
            Pass::OrchestraNotes,
            Pass::PianoBeams,
            Pass::PianoNotes,
            Pass::HitLine,
            Pass::Keyboard,
            Pass::Particles,
            Pass::Conductor,
        ]);
        push_if(&mut passes, Pass::OrchestraBars, self.orchestra_bars);
        push_if(&mut passes, Pass::TempoPendulum, self.tempo_pendulum);
        push_if(&mut passes, Pass::NextNoteCue, self.next_note_cue);
        push_if(&mut passes, Pass::CountdownPips, self.countdown_pips);
        push_if(&mut passes, Pass::BeatPulse, self.beat_pulse);
        push_if(&mut passes, Pass::ProgressBar, self.progress_bar);
        passes
    }

    /// A note is seen until it has been consumed, from `horizon` (the time plus how far ahead is
    /// shown) on.
    pub open spec fn in_sight(&self, ni: u32, t: u64, horizon: u64) -> bool {
        !bits::lt64(self.note(ni).end, t) && !bits::lt64(horizon, self.note(ni).start)
    }

    /// A note as it is seen, if it is in sight and belongs to the piano, or to the orchestra.
    pub open spec fn seeing(&self, t: u64, horizon: u64, piano: bool) -> spec_fn(u32) -> Option<
        SeenNote,
    > {
        |ni: u32|
            if self.plays_piano(ni) == piano && self.in_sight(ni, t, horizon) {
                Some(SeenNote { note: ni, sounding: sounds(self.note(ni), t) })
            } else {
                None
            }
    }

    /// The notes seen of the piano, or of the orchestra.
    pub open spec fn seen_of(&self, active: Seq<u32>, t: u64, horizon: u64, piano: bool) -> Seq<
        SeenNote,
    > {
        active.filter_map(self.seeing(t, horizon, piano))
    }

    /// The notes to draw: those of the piano or those of the orchestra.
    pub fn seen_notes(&self, active: &[u32], t: u64, horizon: u64, piano: bool) -> (seen: Vec<
        SeenNote,
    >)
        requires
            self.inv(),
            scene::known(active@, self.notes@.len() as int),
        ensures
            seen@ == self.seen_of(active@, t, horizon, piano),
    {
        let mut seen: Vec<SeenNote> = Vec::new();
        let mut i: usize = 0;
        assert(active@.take(0) =~= Seq::<u32>::empty());
        while i < active.len()
            invariant
                i <= active@.len(),
                self.inv(),
                scene::known(active@, self.notes@.len() as int),
                seen@ == self.seen_of(active@.take(i as int), t, horizon, piano),
            decreases active@.len() - i,
        {
            let ni: u32 = active[i];
            proof {
                lists::lemma_filter_map_step(active@, self.seeing(t, horizon, piano), i as int);
            }
            assert(active@[i as int] < self.notes@.len());
            let n: SceneNote = self.notes[ni as usize];
            assert(self.notes@[ni as int].track < self.tracks@.len());
            if self.tracks[n.track].is_piano == piano && !f64_lt(n.end, t) && !f64_lt(
                horizon,
                n.start,
            ) {
                seen.push(SeenNote { note: ni, sounding: note_sounds(n, t) });
            }
            i += 1;
        }
        assert(active@.take(i as int) =~= active@);
        seen
    }

    /// A piano note casts a beam from its start until a while after its end.
    pub open spec fn beaming(&self, t: u64) -> spec_fn(u32) -> Option<BeamNote> {
        |ni: u32|
            if self.plays_piano(ni) && !bits::lt64(t, self.note(ni).start) && !bits::lt64(
                self.beam_ends@[ni as int],
                t,
            ) {
                Some(BeamNote { note: ni, released: bits::lt64(self.note(ni).end, t) })
            } else {
                None
            }
    }

    /// The piano notes that cast a beam.
    pub open spec fn beams_of(&self, active: Seq<u32>, t: u64) -> Seq<BeamNote> {
        active.filter_map(self.beaming(t))
    }

    /// The piano notes that cast a beam.
    pub fn beams(&self, active: &[u32], t: u64) -> (beams: Vec<BeamNote>)
        requires
            self.inv(),
            scene::known(active@, self.notes@.len() as int),
        ensures
            beams@ == self.beams_of(active@, t),
    {
        let mut beams: Vec<BeamNote> = Vec::new();
        let mut i: usize = 0;
        assert(active@.take(0) =~= Seq::<u32>::empty());
        while i < active.len()
            invariant
                i <= active@.len(),
                self.inv(),
                scene::known(active@, self.notes@.len() as int),
                beams@ == self.beams_of(active@.take(i as int), t),
            decreases active@.len() - i,
        {
            let ni: u32 = active[i];
            proof {
                lists::lemma_filter_map_step(active@, self.beaming(t), i as int);
            }
            assert(active@[i as int] < self.notes@.len());
            let n: SceneNote = self.notes[ni as usize];
            assert(self.notes@[ni as int].track < self.tracks@.len());
            if self.tracks[n.track].is_piano && !f64_lt(t, n.start) && !f64_lt(
                self.beam_ends[ni as usize],
                t,
            ) {
                beams.push(BeamNote { note: ni, released: f64_lt(n.end, t) });
            }
            i += 1;
        }
        assert(active@.take(i as int) =~= active@);
        beams
    }

    /// Whether a note belongs to the orchestra and sounds.
    pub open spec fn in_orchestra(&self, t: u64) -> spec_fn(u32) -> bool {
        |ni: u32|
            !self.plays_piano(ni) && !bits::lt64(t, self.note(ni).start) && !bits::lt64(
                self.note(ni).end,
                t,
            )
    }

    /// The notes of the orchestra that sound.
    pub open spec fn orchestra_of(&self, active: Seq<u32>, t: u64) -> Seq<u32> {
        active.filter(self.in_orchestra(t))
    }

    /// The notes of the orchestra that sound.
    pub fn orchestra(&self, active: &[u32], t: u64) -> (notes: Vec<u32>)
        requires
            self.inv(),
            scene::known(active@, self.notes@.len() as int),
        ensures
            notes@ == self.orchestra_of(active@, t),
    {
        let mut notes: Vec<u32> = Vec::new();
        let mut i: usize = 0;
        proof {
            reveal(Seq::filter);
            assert(active@.take(0) =~= Seq::<u32>::empty());
        }
        while i < active.len()
            invariant
                i <= active@.len(),
                self.inv(),
                scene::known(active@, self.notes@.len() as int),
                notes@ == self.orchestra_of(active@.take(i as int), t),
            decreases active@.len() - i,
        {
            let ni: u32 = active[i];
            proof {
                lists::lemma_filter_step(active@, self.in_orchestra(t), i as int);
            }
            assert(active@[i as int] < self.notes@.len());
            let n: SceneNote = self.notes[ni as usize];
            assert(self.notes@[ni as int].track < self.tracks@.len());
            if !self.tracks[n.track].is_piano && !f64_lt(t, n.start) && !f64_lt(n.end, t) {
                notes.push(ni);
            }
            i += 1;
        }
        assert(active@.take(i as int) =~= active@);
        notes
    }

    /// A piano note that lights up a key.
    pub open spec fn lights(&self, ni: u32, t: u64, pitch: int) -> bool {
        self.note(ni).pitch == pitch && self.plays_piano(ni) && !bits::lt64(
            t,
            self.note(ni).start,
        ) && !bits::lt64(self.note(ni).end, t)
    }

    /// The velocity of the loudest piano note that lights up a key.
    pub open spec fn light_of(&self, active: Seq<u32>, t: u64, pitch: int) -> Option<u32>
        decreases active.len(),
    {
        if active.len() == 0 {
            None
        } else {
            let before = self.light_of(active.drop_last(), t, pitch);
            let ni = active.last();
            if self.lights(ni, t, pitch) {
                match before {
                    None => Some(self.note(ni).vel),
                    Some(vel) => Some(bits::max32(vel, self.note(ni).vel)),
                }
            } else {
                before
            }
        }
    }

    /// The velocity of the loudest piano note that sounds on a key. Only the piano lights up
    /// the keyboard.
    pub fn key_light(&self, t: u64, active: &[u32], pitch: i32) -> (vel: Option<u32>)
        requires
            self.inv(),
            scene::known(active@, self.notes@.len() as int),
        ensures
            vel == self.light_of(active@, t, pitch as int),
    {
        let mut best: Option<u32> = None;
        let mut i: usize = 0;
        assert(active@.take(0) =~= Seq::<u32>::empty());
        while i < active.len()
            invariant
                i <= active@.len(),
                self.inv(),
                scene::known(active@, self.notes@.len() as int),
                best == self.light_of(active@.take(i as int), t, pitch as int),
            decreases active@.len() - i,
        {
            let ni: u32 = active[i];
            assert(active@.take(i + 1).drop_last() =~= active@.take(i as int));
            assert(active@[i as int] < self.notes@.len());
            let n: SceneNote = self.notes[ni as usize];
            assert(self.notes@[ni as int].track < self.tracks@.len());
            if n.pitch as i32 == pitch && self.tracks[n.track].is_piano && !f64_lt(t, n.start)
                && !f64_lt(n.end, t) {
                best = match best {
                    None => Some(n.vel),
                    Some(vel) => Some(f32_max(vel, n.vel)),
                };
            }
            i += 1;
        }
        assert(active@.take(i as int) =~= active@);
        best
    }

    /// A key that is lit, with its velocity.
    pub open spec fn lit(&self, active: Seq<u32>, t: u64) -> spec_fn(i32) -> Option<(i32, u32)> {
        |p: i32|
            match self.light_of(active, t, p as int) {
                Some(vel) => Some((p, vel)),
                None => None,
            }
    }

    /// The keys that are lit, ascending, with their velocities.
    pub fn lit_keys(&self, t: u64, active: &[u32]) -> (keys: Vec<(i32, u32)>)
        requires
            self.inv(),
            scene::known(active@, self.notes@.len() as int),
        ensures
            keys@ == keyboard::all_keys().filter_map(self.lit(active@, t)),
    {
        let mut keys: Vec<(i32, u32)> = Vec::new();
        let mut p: i32 = LO_PITCH;
        assert(keyboard::all_keys().take(0) =~= Seq::<i32>::empty());
        while p <= HI_PITCH
            invariant
                LO_PITCH <= p <= HI_PITCH + 1,
                self.inv(),
                scene::known(active@, self.notes@.len() as int),
                keys@ == keyboard::all_keys().take(p - LO_PITCH).filter_map(self.lit(active@, t)),
            decreases HI_PITCH + 1 - p,
        {
            proof {
                lists::lemma_filter_map_step(
                    keyboard::all_keys(),
                    self.lit(active@, t),
                    p - LO_PITCH,
                );
            }
            if let Some(vel) = self.key_light(t, active, p) {
                keys.push((p, vel));
            }
            p += 1;
        }
        assert(keyboard::all_keys().take(p - LO_PITCH) =~= keyboard::all_keys());
        keys
    }

    /// What bursts from a note.
    pub open spec fn burst_of(&self, ni: u32) -> Burst {
        let piano = self.plays_piano(ni);
        Burst {
            note: ni,
            embers: piano,
            rings: if piano { 2 } else { 1 },
            seed: (ni * 0x2_0000 + self.note(ni).pitch) as u64,
        }
    }

    /// What bursts from some notes, in order.
    pub fn bursts(&self, active: &[u32]) -> (bursts: Vec<Burst>)
        requires
            self.inv(),
            scene::known(active@, self.notes@.len() as int),
        ensures
            bursts@ == Seq::new(active@.len(), |i: int| self.burst_of(active@[i])),
    {
        let mut bursts: Vec<Burst> = Vec::with_capacity(active.len());
        let ghost all = Seq::new(active@.len(), |i: int| self.burst_of(active@[i]));
        let mut i: usize = 0;
        while i < active.len()
            invariant
                i <= active@.len(),
                self.inv(),
                scene::known(active@, self.notes@.len() as int),
                all == Seq::new(active@.len(), |i: int| self.burst_of(active@[i])),
                bursts@ == all.take(i as int),
            decreases active@.len() - i,
        {
            let ni: u32 = active[i];
            assert(active@[i as int] < self.notes@.len());
            let n: SceneNote = self.notes[ni as usize];
            assert(self.notes@[ni as int].track < self.tracks@.len());
            let piano: bool = self.tracks[n.track].is_piano;
            let rings: u32 = if piano {
                2
            } else {
                1
            };
            bursts.push(Burst { note: ni, embers: piano, rings, seed: shard_seed(ni, n.pitch) });
            assert(bursts@ =~= all.take(i + 1));
            i += 1;
        }
        assert(bursts@ =~= all);
        bursts
    }

    /// The earliest onset of the piano at or after `since`, as far as notes are drawn.
    pub open spec fn next_onset_of(&self, active: Seq<u32>, since: u64) -> u64
        decreases active.len(),
    {
        if active.len() == 0 {
            F64_INF
        } else {
            let before = self.next_onset_of(active.drop_last(), since);
            let start = self.note(active.last()).start;
            if self.plays_piano(active.last()) && bits::le64(since, start) && bits::lt64(
                start,
                before,
            ) {
                start
            } else {
                before
            }
        }
    }

    /// The onset that the next-note cue points at.
    pub fn next_onset(&self, active: &[u32], since: u64) -> (next: Option<u64>)
        requires
            self.inv(),
            scene::known(active@, self.notes@.len() as int),
        ensures
            ({
                let onset = self.next_onset_of(active@, since);
                next == (if bits::f64_magnitude(onset) < F64_INF { Some(onset) } else { None })
            }),
    {
        let mut next: u64 = F64_INF;
        let mut i: usize = 0;
        assert(active@.take(0) =~= Seq::<u32>::empty());
        while i < active.len()
            invariant
                i <= active@.len(),
                self.inv(),
                scene::known(active@, self.notes@.len() as int),
                next == self.next_onset_of(active@.take(i as int), since),
            decreases active@.len() - i,
        {
            let ni: u32 = active[i];
            assert(active@.take(i + 1).drop_last() =~= active@.take(i as int));
            assert(active@[i as int] < self.notes@.len());
            let n: SceneNote = self.notes[ni as usize];
            assert(self.notes@[ni as int].track < self.tracks@.len());
            if self.tracks[n.track].is_piano && f64_le(since, n.start) && f64_lt(n.start, next) {
                next = n.start;
            }
            i += 1;
        }
        assert(active@.take(i as int) =~= active@);
        if f64_is_finite(next) {
            Some(next)
        } else {
            None
        }
    }

    /// Whether a note belongs to the piano.
    pub open spec fn of_piano(&self) -> spec_fn(u32) -> bool {
        |ni: u32| self.plays_piano(ni)
    }

    /// The piano notes among some notes.
    pub fn piano_notes(&self, active: &[u32]) -> (notes: Vec<u32>)
        requires
            self.inv(),
            scene::known(active@, self.notes@.len() as int),
        ensures
            notes@ == active@.filter(self.of_piano()),
    {
        let mut notes: Vec<u32> = Vec::new();
        let mut i: usize = 0;
        proof {
            reveal(Seq::filter);
            assert(active@.take(0) =~= Seq::<u32>::empty());
        }
        while i < active.len()
            invariant
                i <= active@.len(),
                self.inv(),
                scene::known(active@, self.notes@.len() as int),
                notes@ == active@.take(i as int).filter(self.of_piano()),
            decreases active@.len() - i,
        {
            let ni: u32 = active[i];
            proof {
                lists::lemma_filter_step(active@, self.of_piano(), i as int);
            }
            assert(active@[i as int] < self.notes@.len());
            assert(self.notes@[ni as int].track < self.tracks@.len());
            if self.tracks[self.notes[ni as usize].track].is_piano {
                notes.push(ni);
            }
            i += 1;
        }
        assert(active@.take(i as int) =~= active@);
        notes
    }

    /// Some piano note sounds.
    pub open spec fn piano_sounds(&self, active: Seq<u32>, t: u64) -> bool {
        exists|i: int|
            0 <= i < active.len() && self.plays_piano(#[trigger] active[i]) && sounds(
                self.note(active[i]),
                t,
            )
    }

    /// The onset at which the piano comes in again: `None` while it plays, or if it does not.
    pub fn next_entrance(&self, active: &[u32], t: u64) -> (next: Option<u64>)
        requires
            self.inv(),
            scene::known(active@, self.notes@.len() as int),
        ensures
            self.piano_sounds(active@, t) ==> next is None,
            !self.piano_sounds(active@, t) ==> exists|p: int|
                #[trigger] order::splits(self.piano_onsets@, t, p) && next == (if p
                    < self.piano_onsets@.len() {
                    Some(self.piano_onsets@[p])
                } else {
                    None
                }),
    {
        let mut i: usize = 0;
        while i < active.len()
            invariant
                i <= active@.len(),
                self.inv(),
                scene::known(active@, self.notes@.len() as int),
                forall|k: int|
                    0 <= k < i ==> !(self.plays_piano(#[trigger] active@[k]) && sounds(
                        self.note(active@[k]),
                        t,
                    )),
            decreases active@.len() - i,
        {
            let ni: u32 = active[i];
            assert(active@[i as int] < self.notes@.len());
            let n: SceneNote = self.notes[ni as usize];
            assert(self.notes@[ni as int].track < self.tracks@.len());
            if self.tracks[n.track].is_piano && note_sounds(n, t) {
                assert(self.plays_piano(active@[i as int]));
                return None;
            }
            i += 1;
        }
        let p: usize = count_until(self.piano_onsets.as_slice(), t);
        assert(order::splits(self.piano_onsets@, t, p as int));
        if p < self.piano_onsets.len() {
            Some(self.piano_onsets[p])
        } else {
            None
        }
    }

    /// The pips for `left` beats to go, the next of which is number `at`.
    pub open spec fn pips_of(&self, left: int, at: int) -> Option<Pips> {
        if left <= 0 || left > MAX_BEATS_LEFT {
            None
        } else {
            Some(
                Pips {
                    shown: if left < MAX_PIPS { left as usize } else { MAX_PIPS },
                    next_beat: if at < self.beats@.len() { Some(self.beats@[at]) } else { None },
                },
            )
        }
    }

    /// The pips for the beats after `t`, up to and with `entrance`.
    pub fn pips(&self, t: u64, entrance: u64) -> (pips: Option<Pips>)
        requires
            self.inv(),
        ensures
            exists|p: int, q: int|
                #[trigger] order::splits(self.beats@, t, p) && #[trigger] order::splits(
                    self.beats@,
                    entrance,
                    q,
                ) && pips == self.pips_of(q - p, p),
    {
        let from: usize = count_until(self.beats.as_slice(), t);
        let to: usize = count_until(self.beats.as_slice(), entrance);
        assert(order::splits(self.beats@, t, from as int));
        assert(order::splits(self.beats@, entrance, to as int));
        if to <= from || to - from > MAX_BEATS_LEFT {
            return None;
        }
        let left: usize = to - from;
        let shown: usize = if left < MAX_PIPS {
            left
        } else {
            MAX_PIPS
        };
        let next_beat: Option<u64> = if from < self.beats.len() {
            Some(self.beats[from])
        } else {
            None
        };
        Some(Pips { shown, next_beat })
    }

    /// The beat at or before `t` and the one after it.
    pub fn beats_around(&self, t: u64) -> (around: (Option<u64>, Option<u64>))
        requires
            self.inv(),
        ensures
            exists|p: int|
                #[trigger] order::splits(self.beats@, t, p) && around.0 == (if p > 0 {
                    Some(self.beats@[p - 1])
                } else {
                    None
                }) && around.1 == (if p < self.beats@.len() { Some(self.beats@[p]) } else { None }),
    {
        let p: usize = count_until(self.beats.as_slice(), t);
        assert(order::splits(self.beats@, t, p as int));
        let last: Option<u64> = if p > 0 {
            Some(self.beats[p - 1])
        } else {
            None
        };
        let next: Option<u64> = if p < self.beats.len() {
            Some(self.beats[p])
        } else {
            None
        };
        (last, next)
    }

    /// The swing after the first `p` beats.
    pub open spec fn swing_past(&self, p: int) -> Swing {
        if p == 0 {
            Swing::Before
        } else if p >= self.beats@.len() {
            Swing::After
        } else {
            Swing::Between { beat: (p - 1) as usize }
        }
    }

    /// Where the pendulum and the baton are in their swing; `None` with fewer than two beats.
    pub fn swing(&self, t: u64) -> (swing: Option<Swing>)
        requires
            self.inv(),
        ensures
            self.beats@.len() < 2 ==> swing is None,
            self.beats@.len() >= 2 ==> exists|p: int|
                #[trigger] order::splits(self.beats@, t, p) && swing == Some(self.swing_past(p)),
    {
        if self.beats.len() < 2 {
            return None;
        }
        let p: usize = count_until(self.beats.as_slice(), t);
        assert(order::splits(self.beats@, t, p as int));
        if p == 0 {
            Some(Swing::Before)
        } else if p >= self.beats.len() {
            Some(Swing::After)
        } else {
            Some(Swing::Between { beat: p - 1 })
        }
    }

    /// The number of the beat that a swing starts from; the one that leads up to the first beat
    /// starts from a beat before it.
    pub open spec fn swing_beat(&self, swing: Swing) -> int {
        match swing {
            Swing::Before => -1,
            Swing::Between { beat } => beat as int,
            Swing::After => self.beats@.len() - 1,
        }
    }

    /// Whether a swing goes forward: from beats with an even number it does.
    pub open spec fn forward(&self, swing: Swing) -> bool {
        self.swing_beat(swing) % 2 == 0
    }

    /// The swing that ends at a beat.
    pub open spec fn swing_to(&self, beat: int) -> Swing {
        if beat == 0 {
            Swing::Before
        } else {
            Swing::Between { beat: (beat - 1) as usize }
        }
    }

    /// The swing that starts at a beat.
    pub open spec fn swing_from(&self, beat: int) -> Swing {
        if beat == self.beats@.len() - 1 {
            Swing::After
        } else {
            Swing::Between { beat: beat as usize }
        }
    }

    /// Tells whether a swing goes forward.
    pub fn swings_forward(&self, swing: &Swing) -> (forward: bool)
        requires
            self.beats@.len() >= 2,
        ensures
            forward == self.forward(*swing),
    {
        match swing {
            Swing::Before => false,
            Swing::Between { beat } => *beat % 2 == 0,
            Swing::After => (self.beats.len() - 1) % 2 == 0,
        }
    }
}

/// The first of the loudest sections: none is louder, and those before it are softer.
pub open spec fn is_dominant(loudness: Seq<u32>, k: int) -> bool {
    &&& 0 <= k < loudness.len()
    &&& forall|i: int|
        0 <= i < loudness.len() ==> bits::f32_key_of(#[trigger] loudness[i]) <= bits::f32_key_of(
            loudness[k],
        )
    &&& forall|i: int|
        0 <= i < k ==> bits::f32_key_of(#[trigger] loudness[i]) < bits::f32_key_of(loudness[k])
}

/// Finds the loudest section, the first of several, from the loudness of each (bit patterns of
/// singles); `None` where there are no sections.
pub fn dominant(loudness: &[u32]) -> (section: Option<usize>)
    ensures
        match section {
            Some(k) => is_dominant(loudness@, k as int),
            None => loudness@.len() == 0,
        },
{
    if loudness.len() == 0 {
        return None;
    }
    let mut best: usize = 0;
    let mut i: usize = 1;
    while i < loudness.len()
        invariant
            1 <= i <= loudness@.len(),
            best < i,
            is_dominant(loudness@.take(i as int), best as int),
        decreases loudness@.len() - i,
    {
        proof {
            let now = loudness@.take(i as int);
            let then = loudness@.take(i + 1);
            assert forall|k: int| 0 <= k < i implies now[k] == #[trigger] then[k] by {}
            assert(then[i as int] == loudness@[i as int]);
        }
        if f32_key(loudness[best]) < f32_key(loudness[i]) {
            best = i;
        }
        i += 1;
    }
    assert(loudness@.take(i as int) =~= loudness@);
    Some(best)
}

/// The directions alternate: at every beat, the first and the last too, the swing that ends
/// there and the one that starts there go opposite ways.
pub proof fn law_swings_alternate(scene: Scene, beat: int)
    requires
        scene.beats@.len() >= 2,
        0 <= beat < scene.beats@.len(),
    ensures
        scene.forward(scene.swing_to(beat)) != scene.forward(scene.swing_from(beat)),
{
    assert(scene.beats.len() <= usize::MAX);
    assert(scene.swing_beat(scene.swing_to(beat)) == beat - 1);
    assert(scene.swing_beat(scene.swing_from(beat)) == beat);
}

/// After `p` beats, the swing is the one that starts at the last of them and the one that ends at
/// the beat that follows.
pub proof fn law_swing_runs_from_beat_to_beat(scene: Scene, p: int)
    requires
        scene.beats@.len() >= 2,
        0 <= p <= scene.beats@.len(),
    ensures
        p > 0 ==> scene.swing_past(p) == scene.swing_from(p - 1),
        p < scene.beats@.len() ==> scene.swing_past(p) == scene.swing_to(p),
{
}

fn push_if(passes: &mut Vec<Pass>, pass: Pass, wanted: bool)
    ensures
        final(passes)@ == old(passes)@ + maybe(pass, wanted),
{
    if wanted {
        passes.push(pass);
    }
    assert(passes@ =~= old(passes)@ + maybe(pass, wanted));
}

/// The place of a step in the order of drawing: lower ones lie underneath.
pub open spec fn layer(pass: Pass) -> int {
    match pass {
        Pass::Background => 0,
        Pass::BeatLines => 1,
        Pass::OrchestraNotes => 2,
        Pass::PianoBeams => 3,
        Pass::PianoNotes => 4,
        Pass::HitLine => 5,
        Pass::Keyboard => 6,
        Pass::Particles => 7,
        Pass::Conductor => 8,
        Pass::OrchestraBars => 9,
        Pass::TempoPendulum => 10,
        Pass::NextNoteCue => 11,
        Pass::CountdownPips => 12,
        Pass::BeatPulse => 13,
        Pass::ProgressBar => 14,
    }
}

/// Steps that lie on top of one another, all below `top`.
spec fn stacked(passes: Seq<Pass>, top: int) -> bool {
    &&& forall|i: int| 0 <= i < passes.len() ==> layer(#[trigger] passes[i]) < top
    &&& forall|i: int, j: int|
        0 <= i < j < passes.len() ==> layer(#[trigger] passes[i]) < layer(#[trigger] passes[j])
}

proof fn lemma_stack(passes: Seq<Pass>, pass: Pass, wanted: bool)
    requires
        stacked(passes, layer(pass)),
    ensures
        stacked(passes + maybe(pass, wanted), layer(pass) + 1),
{
    let all = passes + maybe(pass, wanted);
    assert forall|i: int| 0 <= i < all.len() implies layer(#[trigger] all[i]) < layer(pass)
        + 1 by {
        if i < passes.len() {
            assert(all[i] == passes[i]);
        }
    }
    assert forall|i: int, j: int| 0 <= i < j < all.len() implies layer(#[trigger] all[i]) < layer(
        #[trigger] all[j],
    ) by {
        assert(all[i] == passes[i]);
        if j < passes.len() {
            assert(all[j] == passes[j]);
        }
    }
}

/// Whatever cues are on, the steps come in one fixed order, each at most once: what belongs to
/// the piano lies over what belongs to the orchestra, and the cues lie over both.
pub proof fn law_steps_lie_on_top_of_one_another(scene: &Scene, i: int, j: int)
    requires
        0 <= i < j < scene.pass_list().len(),
    ensures
        layer(scene.pass_list()[i]) < layer(scene.pass_list()[j]),
{
    let ground = maybe(Pass::Background, !scene.transparent_bg) + seq![
        Pass::BeatLines,
        Pass::OrchestraNotes,
        Pass::PianoBeams,
        Pass::PianoNotes,
        Pass::HitLine,
        Pass::Keyboard,
        Pass::Particles,
        Pass::Conductor,
    ];
    assert(stacked(ground, 9));
    lemma_stack(ground, Pass::OrchestraBars, scene.orchestra_bars);
    let s = ground + maybe(Pass::OrchestraBars, scene.orchestra_bars);
    lemma_stack(s, Pass::TempoPendulum, scene.tempo_pendulum);
    let s = s + maybe(Pass::TempoPendulum, scene.tempo_pendulum);
    lemma_stack(s, Pass::NextNoteCue, scene.next_note_cue);
    let s = s + maybe(Pass::NextNoteCue, scene.next_note_cue);
    lemma_stack(s, Pass::CountdownPips, scene.countdown_pips);
    let s = s + maybe(Pass::CountdownPips, scene.countdown_pips);
    lemma_stack(s, Pass::BeatPulse, scene.beat_pulse);
    let s = s + maybe(Pass::BeatPulse, scene.beat_pulse);
    lemma_stack(s, Pass::ProgressBar, scene.progress_bar);
}

/// A key is lit exactly while some piano note sounds on it.
pub proof fn law_key_is_lit_while_played(scene: &Scene, active: Seq<u32>, t: u64, pitch: int)
    ensures
        scene.light_of(active, t, pitch) is Some <==> exists|i: int|
            0 <= i < active.len() && scene.lights(#[trigger] active[i], t, pitch),
    decreases active.len(),
{
    if active.len() > 0 {
        let rest = active.drop_last();
        law_key_is_lit_while_played(scene, rest, t, pitch);
        if scene.lights(active.last(), t, pitch) {
            assert(scene.lights(active[active.len() - 1], t, pitch));
        }
        if scene.light_of(rest, t, pitch) is Some {
            let i = choose|i: int|
                0 <= i < rest.len() && scene.lights(#[trigger] rest[i], t, pitch);
            assert(scene.lights(active[i], t, pitch));
        }
        if exists|i: int| 0 <= i < active.len() && scene.lights(#[trigger] active[i], t, pitch) {
            let i = choose|i: int|
                0 <= i < active.len() && scene.lights(#[trigger] active[i], t, pitch);
            if i < rest.len() {
                assert(scene.lights(rest[i], t, pitch));
            }
        }
    }
}

/// Every note drawn belongs to the piano or to the orchestra, never to both: what is seen in
/// one step is not seen in the other.
pub proof fn law_notes_are_drawn_once(
    scene: &Scene,
    active: Seq<u32>,
    t: u64,
    horizon: u64,
    i: int,
    j: int,
)
    requires
        0 <= i < scene.seen_of(active, t, horizon, true).len(),
        0 <= j < scene.seen_of(active, t, horizon, false).len(),
    ensures
        scene.seen_of(active, t, horizon, true)[i].note != scene.seen_of(
            active,
            t,
            horizon,
            false,
        )[j].note,
{
    let piano = scene.seen_of(active, t, horizon, true);
    let orchestra = scene.seen_of(active, t, horizon, false);
    assert(piano.contains(piano[i]));
    assert(orchestra.contains(orchestra[j]));
    active.lemma_filter_map_contains(scene.seeing(t, horizon, true), piano[i]);
    active.lemma_filter_map_contains(scene.seeing(t, horizon, false), orchestra[j]);
}

proof fn lemma_next_onset(scene: &Scene, active: Seq<u32>, since: u64)
    ensures
        ({
            let onset = scene.next_onset_of(active, since);
            &&& !bits::f64_nan(onset)
            &&& onset == F64_INF || exists|i: int|
                0 <= i < active.len() && scene.plays_piano(#[trigger] active[i]) && bits::le64(
                    since,
                    scene.note(active[i]).start,
                ) && scene.note(active[i]).start == onset
            &&& forall|i: int|
                0 <= i < active.len() && scene.plays_piano(#[trigger] active[i]) && bits::le64(
                    since,
                    scene.note(active[i]).start,
                ) ==> bits::le64(onset, scene.note(active[i]).start)
        }),
    decreases active.len(),
{
    if active.len() > 0 {
        let rest = active.drop_last();
        lemma_next_onset(scene, rest, since);
        let before = scene.next_onset_of(rest, since);
        let onset = scene.next_onset_of(active, since);
        if onset != before {
            assert(scene.plays_piano(active[active.len() - 1]));
        } else if onset != F64_INF {
            let i = choose|i: int|
                0 <= i < rest.len() && scene.plays_piano(#[trigger] rest[i]) && bits::le64(
                    since,
                    scene.note(rest[i]).start,
                ) && scene.note(rest[i]).start == onset;
            assert(scene.plays_piano(active[i]));
        }
        assert forall|i: int|
            0 <= i < active.len() && scene.plays_piano(#[trigger] active[i]) && bits::le64(
                since,
                scene.note(active[i]).start,
            ) implies bits::le64(onset, scene.note(active[i]).start) by {
            if i < rest.len() {
                assert(scene.plays_piano(rest[i]));
            }
        }
    }
}

/// The onset that the cue points at is the earliest: a piano note starts there, and none that is
/// drawn starts between `since` and it. There is none only if no such note starts at all, or not
/// before the end of time.
pub proof fn law_next_onset_is_earliest(scene: &Scene, active: Seq<u32>, since: u64, i: int)
    requires
        0 <= i < active.len(),
        scene.plays_piano(active[i]),
        bits::le64(since, scene.note(active[i]).start),
    ensures
        bits::le64(scene.next_onset_of(active, since), scene.note(active[i]).start),
        scene.next_onset_of(active, since) == F64_INF || exists|k: int|
            0 <= k < active.len() && scene.plays_piano(#[trigger] active[k])
                && scene.note(active[k]).start == scene.next_onset_of(active, since),
{
    lemma_next_onset(scene, active, since);
    if scene.next_onset_of(active, since) != F64_INF {
        let k = choose|k: int|
            0 <= k < active.len() && scene.plays_piano(#[trigger] active[k]) && bits::le64(
                since,
                scene.note(active[k]).start,
            ) && scene.note(active[k]).start == scene.next_onset_of(active, since);
        assert(scene.plays_piano(active[k]));
    }
}

/// A note is seen exactly while it is in the picture: an active note of the wanted kind that has
/// not ended before `t` and starts no later than the horizon is seen, whether or not it sounds
/// yet, and no other. It counts as sounding from its start to its end. Piano and orchestra are
/// treated alike.
pub proof fn law_notes_are_seen_from_the_horizon_to_their_end(
    scene: &Scene,
    active: Seq<u32>,
    t: u64,
    horizon: u64,
    piano: bool,
    ni: u32,
)
    requires
        active.contains(ni),
        !bits::f64_nan(t),
        !bits::f64_nan(horizon),
        !bits::f64_nan(scene.notes@[ni as int].start),
        !bits::f64_nan(scene.notes@[ni as int].end),
    ensures
        ({
            let n = scene.notes@[ni as int];
            let wanted = scene.tracks@[n.track as int].is_piano == piano && bits::f64_units(t)
                <= bits::f64_units(n.end) && bits::f64_units(n.start) <= bits::f64_units(horizon);
            let sounding = bits::f64_units(n.start) <= bits::f64_units(t) <= bits::f64_units(
                n.end,
            );
            &&& wanted ==> scene.seen_of(active, t, horizon, piano).contains(
                SeenNote { note: ni, sounding },
            )
            &&& forall|k: int|
                0 <= k < scene.seen_of(active, t, horizon, piano).len() && (
                #[trigger] scene.seen_of(active, t, horizon, piano)[k]).note == ni ==> wanted
                    && scene.seen_of(active, t, horizon, piano)[k].sounding == sounding
        }),
{
    let n = scene.notes@[ni as int];
    let f = scene.seeing(t, horizon, piano);
    let seen = scene.seen_of(active, t, horizon, piano);
    bits::law_f64_key_orders_by_value(t, n.end);
    bits::law_f64_key_orders_by_value(n.start, horizon);
    bits::law_f64_key_orders_by_value(n.start, t);
    let sounding = bits::f64_units(n.start) <= bits::f64_units(t) <= bits::f64_units(n.end);
    let i = choose|i: int| 0 <= i < active.len() && active[i] == ni;
    if f(ni) is Some {
        assert(f(active[i]) == Some(SeenNote { note: ni, sounding }));
        lists::lemma_filter_map_elements(active, f, SeenNote { note: ni, sounding });
    }
    assert forall|k: int| 0 <= k < seen.len() && (#[trigger] seen[k]).note == ni implies f(ni)
        == Some(seen[k]) by {
        assert(seen.contains(seen[k]));
        lists::lemma_filter_map_elements(active, f, seen[k]);
    }
}

/// Only active notes are seen, in their order.
pub proof fn law_seen_notes_are_active(
    scene: &Scene,
    active: Seq<u32>,
    t: u64,
    horizon: u64,
    piano: bool,
    j: int,
    k: int,
)
    requires
        0 <= j < k < scene.seen_of(active, t, horizon, piano).len(),
    ensures
        exists|a: int, b: int|
            0 <= a < b < active.len() && #[trigger] active[a] == scene.seen_of(
                active,
                t,
                horizon,
                piano,
            )[j].note && #[trigger] active[b] == scene.seen_of(active, t, horizon, piano)[k].note,
{
    lists::lemma_filter_map_order(active, scene.seeing(t, horizon, piano), j, k);
}

/// A piano note casts a beam from its start until its beam ends, and counts as released after its
/// end; notes of the orchestra cast none.
pub proof fn law_beams_last_from_the_start_to_their_end(
    scene: &Scene,
    active: Seq<u32>,
    t: u64,
    ni: u32,
)
    requires
        active.contains(ni),
        !bits::f64_nan(t),
        !bits::f64_nan(scene.notes@[ni as int].start),
        !bits::f64_nan(scene.notes@[ni as int].end),
        !bits::f64_nan(scene.beam_ends@[ni as int]),
    ensures
        ({
            let n = scene.notes@[ni as int];
            let now = bits::f64_units(t);
            let wanted = scene.tracks@[n.track as int].is_piano && bits::f64_units(n.start) <= now
                <= bits::f64_units(scene.beam_ends@[ni as int]);
            let released = bits::f64_units(n.end) < now;
            &&& wanted ==> scene.beams_of(active, t).contains(BeamNote { note: ni, released })
            &&& forall|k: int|
                0 <= k < scene.beams_of(active, t).len() && (#[trigger] scene.beams_of(
                    active,
                    t,
                )[k]).note == ni ==> wanted && scene.beams_of(active, t)[k].released == released
        }),
{
    let n = scene.notes@[ni as int];
    let f = scene.beaming(t);
    let beams = scene.beams_of(active, t);
    bits::law_f64_key_orders_by_value(n.start, t);
    bits::law_f64_key_orders_by_value(t, scene.beam_ends@[ni as int]);
    bits::law_f64_key_orders_by_value(n.end, t);
    let released = bits::f64_units(n.end) < bits::f64_units(t);
    let i = choose|i: int| 0 <= i < active.len() && active[i] == ni;
    if f(ni) is Some {
        assert(f(active[i]) == Some(BeamNote { note: ni, released }));
        lists::lemma_filter_map_elements(active, f, BeamNote { note: ni, released });
    }
    assert forall|k: int| 0 <= k < beams.len() && (#[trigger] beams[k]).note == ni implies f(ni)
        == Some(beams[k]) by {
        assert(beams.contains(beams[k]));
        lists::lemma_filter_map_elements(active, f, beams[k]);
    }
}

/// The orchestra that sounds is every active note that does not belong to the piano, from its
/// start to its end; and of the piano's notes, all active ones are listed.
pub proof fn law_orchestra_sounds_from_start_to_end(
    scene: &Scene,
    active: Seq<u32>,
    t: u64,
    ni: u32,
)
    requires
        !bits::f64_nan(t),
        !bits::f64_nan(scene.notes@[ni as int].start),
        !bits::f64_nan(scene.notes@[ni as int].end),
    ensures
        ({
            let n = scene.notes@[ni as int];
            let piano = scene.tracks@[n.track as int].is_piano;
            &&& scene.orchestra_of(active, t).contains(ni) <==> active.contains(ni) && !piano
                && bits::f64_units(n.start) <= bits::f64_units(t) <= bits::f64_units(n.end)
            &&& active.filter(scene.of_piano()).contains(ni) <==> active.contains(ni) && piano
        }),
{
    let n = scene.notes@[ni as int];
    bits::law_f64_key_orders_by_value(n.start, t);
    bits::law_f64_key_orders_by_value(t, n.end);
    lists::lemma_filter_elements(active, scene.in_orchestra(t), ni);
    lists::lemma_filter_elements(active, scene.of_piano(), ni);
}

/// A piano note lights its own key from its start to its end, and a lit key shows the loudest
/// such note: its velocity is not exceeded, and belongs to one of them.
pub proof fn law_lit_key_shows_the_loudest_note(
    scene: &Scene,
    active: Seq<u32>,
    t: u64,
    pitch: int,
    i: int,
)
    requires
        !bits::f64_nan(t),
        0 <= i < active.len(),
        !bits::f64_nan(scene.notes@[active[i] as int].start),
        !bits::f64_nan(scene.notes@[active[i] as int].end),
    ensures
        ({
            let n = scene.notes@[active[i] as int];
            let plays = n.pitch == pitch && scene.tracks@[n.track as int].is_piano
                && bits::f64_units(n.start) <= bits::f64_units(t) <= bits::f64_units(n.end);
            let light = scene.light_of(active, t, pitch);
            &&& plays ==> light is Some
            &&& plays && !bits::f32_nan(n.vel) ==> !bits::f32_nan(light->0) && bits::f32_units(
                n.vel,
            ) <= bits::f32_units(light->0)
            &&& scene.lights(active[i], t, pitch) <==> plays
        }),
        scene.light_of(active, t, pitch) is Some ==> exists|k: int|
            0 <= k < active.len() && scene.lights(#[trigger] active[k], t, pitch)
                && scene.notes@[active[k] as int].vel == scene.light_of(active, t, pitch)->0,
    decreases active.len(),
{
    let n = scene.notes@[active[i] as int];
    bits::law_f64_key_orders_by_value(n.start, t);
    bits::law_f64_key_orders_by_value(t, n.end);
    lemma_light(scene, active, t, pitch);
    if scene.lights(active[i], t, pitch) {
        bits::law_f32_key_orders_by_value(n.vel, scene.light_of(active, t, pitch)->0);
    }
}

proof fn lemma_light(scene: &Scene, active: Seq<u32>, t: u64, pitch: int)
    ensures
        ({
            let light = scene.light_of(active, t, pitch);
            &&& forall|i: int|
                0 <= i < active.len() && scene.lights(#[trigger] active[i], t, pitch) ==> {
                    &&& light is Some
                    &&& !bits::f32_nan(scene.note(active[i]).vel) ==> !bits::f32_nan(light->0)
                        && bits::f32_key_of(scene.note(active[i]).vel) <= bits::f32_key_of(light->0)
                }
            &&& light is Some ==> exists|k: int|
                0 <= k < active.len() && scene.lights(#[trigger] active[k], t, pitch)
                    && scene.note(active[k]).vel == light->0
        }),
    decreases active.len(),
{
    if active.len() > 0 {
        let rest = active.drop_last();
        lemma_light(scene, rest, t, pitch);
        let before = scene.light_of(rest, t, pitch);
        let light = scene.light_of(active, t, pitch);
        let last = active.len() - 1;
        assert forall|i: int|
            0 <= i < active.len() && scene.lights(#[trigger] active[i], t, pitch) implies {
            &&& light is Some
            &&& !bits::f32_nan(scene.note(active[i]).vel) ==> !bits::f32_nan(light->0)
                && bits::f32_key_of(scene.note(active[i]).vel) <= bits::f32_key_of(light->0)
        } by {
            if i < last {
                assert(scene.lights(rest[i], t, pitch));
            }
        }
        if light is Some {
            if before is Some && light == before {
                let k = choose|k: int|
                    0 <= k < rest.len() && scene.lights(#[trigger] rest[k], t, pitch) && scene.note(
                        rest[k],
                    ).vel == before->0;
                assert(scene.lights(active[k], t, pitch));
            } else {
                assert(scene.lights(active[last], t, pitch));
            }
        }
    }
}

/// The lit keys are listed with their light, each key of the keyboard that is lit and no other.
pub proof fn law_lit_keys_are_listed(scene: &Scene, active: Seq<u32>, t: u64, pitch: i32, vel: u32)
    ensures
        keyboard::all_keys().filter_map(scene.lit(active, t)).contains((pitch, vel)) <==> 21
            <= pitch <= 108 && scene.light_of(active, t, pitch as int) == Some(vel),
{
    let keys = keyboard::all_keys();
    let f = scene.lit(active, t);
    lists::lemma_filter_map_elements(keys, f, (pitch, vel));
    if 21 <= pitch <= 108 {
        assert(keys[pitch - 21] == pitch);
    }
    if keys.filter_map(f).contains((pitch, vel)) {
        let i = choose|i: int| 0 <= i < keys.len() && f(#[trigger] keys[i]) == Some((pitch, vel));
        assert(keys[i] == 21 + i);
    }
}

/// Each note bursts in its own way: with embers and a second ring if it belongs to the piano, and
/// with a seed that no other note and no other pitch has.
pub proof fn law_bursts_tell_notes_apart(scene: &Scene, a: u32, b: u32)
    ensures
        ({
            let burst = scene.burst_of(a);
            let piano = scene.tracks@[scene.notes@[a as int].track as int].is_piano;
            &&& burst.note == a
            &&& burst.embers == piano
            &&& burst.rings == (if piano { 2int } else { 1int })
        }),
        scene.burst_of(a).seed == scene.burst_of(b).seed ==> a == b,
{
}

/// The pips count down: with one to twelve beats to go, one pip is shown for each, but no more
/// than eight; otherwise none. The next beat is the first that has not passed.
pub proof fn law_pips_count_the_beats_left(scene: &Scene, left: int, at: int)
    requires
        at >= 0,
    ensures
        scene.pips_of(left, at) is Some <==> 1 <= left <= 12,
        scene.pips_of(left, at) matches Some(pips) ==> {
            &&& pips.shown == left || (left > 8 && pips.shown == 8)
            &&& pips.next_beat is Some <==> at < scene.beats@.len()
            &&& pips.next_beat matches Some(beat) ==> beat == scene.beats@[at]
        },
{
}

/// A pass is drawn exactly if it is wanted: the ground unless the frames go on top of a video,
/// each cue if it is switched on, and everything else always.
pub proof fn law_wanted_steps_are_drawn(scene: &Scene, pass: Pass)
    ensures
        scene.pass_list().contains(pass) <==> match pass {
            Pass::Background => !scene.transparent_bg,
            Pass::OrchestraBars => scene.orchestra_bars,
            Pass::TempoPendulum => scene.tempo_pendulum,
            Pass::NextNoteCue => scene.next_note_cue,
            Pass::CountdownPips => scene.countdown_pips,
            Pass::BeatPulse => scene.beat_pulse,
            Pass::ProgressBar => scene.progress_bar,
            _ => true,
        },
{
    let field = seq![
        Pass::BeatLines,
        Pass::OrchestraNotes,
        Pass::PianoBeams,
        Pass::PianoNotes,
        Pass::HitLine,
        Pass::Keyboard,
        Pass::Particles,
        Pass::Conductor,
    ];
    assert(field[0] == Pass::BeatLines);
    assert(field[1] == Pass::OrchestraNotes);
    assert(field[2] == Pass::PianoBeams);
    assert(field[3] == Pass::PianoNotes);
    assert(field[4] == Pass::HitLine);
    assert(field[5] == Pass::Keyboard);
    assert(field[6] == Pass::Particles);
    assert(field[7] == Pass::Conductor);
    let ground = maybe(Pass::Background, !scene.transparent_bg);
    let a = ground + field;
    let b = a + maybe(Pass::OrchestraBars, scene.orchestra_bars);
    let c = b + maybe(Pass::TempoPendulum, scene.tempo_pendulum);
    let d = c + maybe(Pass::NextNoteCue, scene.next_note_cue);
    let e = d + maybe(Pass::CountdownPips, scene.countdown_pips);
    let f = e + maybe(Pass::BeatPulse, scene.beat_pulse);
    lemma_in_both(ground, field, pass);
    lemma_in_both(a, maybe(Pass::OrchestraBars, scene.orchestra_bars), pass);
    lemma_in_both(b, maybe(Pass::TempoPendulum, scene.tempo_pendulum), pass);
    lemma_in_both(c, maybe(Pass::NextNoteCue, scene.next_note_cue), pass);
    lemma_in_both(d, maybe(Pass::CountdownPips, scene.countdown_pips), pass);
    lemma_in_both(e, maybe(Pass::BeatPulse, scene.beat_pulse), pass);
    lemma_in_both(f, maybe(Pass::ProgressBar, scene.progress_bar), pass);
    lemma_maybe(Pass::Background, !scene.transparent_bg, pass);
    lemma_maybe(Pass::OrchestraBars, scene.orchestra_bars, pass);
    lemma_maybe(Pass::TempoPendulum, scene.tempo_pendulum, pass);
    lemma_maybe(Pass::NextNoteCue, scene.next_note_cue, pass);
    lemma_maybe(Pass::CountdownPips, scene.countdown_pips, pass);
    lemma_maybe(Pass::BeatPulse, scene.beat_pulse, pass);
    lemma_maybe(Pass::ProgressBar, scene.progress_bar, pass);
}

proof fn lemma_in_both(a: Seq<Pass>, b: Seq<Pass>, pass: Pass)
    ensures
        (a + b).contains(pass) <==> a.contains(pass) || b.contains(pass),
{
    let all = a + b;
    if a.contains(pass) {
        let i = choose|i: int| 0 <= i < a.len() && a[i] == pass;
        assert(all[i] == pass);
    }
    if b.contains(pass) {
        let i = choose|i: int| 0 <= i < b.len() && b[i] == pass;
        assert(all[a.len() + i] == pass);
    }
    if all.contains(pass) {
        let i = choose|i: int| 0 <= i < all.len() && all[i] == pass;
        if i < a.len() {
            assert(a[i] == pass);
        } else {
            assert(b[i - a.len()] == pass);
        }
    }
}

proof fn lemma_maybe(pass: Pass, wanted: bool, other: Pass)
    ensures
        maybe(pass, wanted).contains(other) <==> wanted && pass == other,
{
    if wanted {
        assert(maybe(pass, wanted)[0] == pass);
    }
}

/// The piano lies over the orchestra, the keyboard over both, and the cues over all of them.
pub proof fn law_layers_are_in_order()
    ensures
        layer(Pass::Background) < layer(Pass::BeatLines) < layer(Pass::OrchestraNotes) < layer(
            Pass::PianoBeams,
        ) < layer(Pass::PianoNotes) < layer(Pass::HitLine) < layer(Pass::Keyboard) < layer(
            Pass::Particles,
        ) < layer(Pass::Conductor) < layer(Pass::OrchestraBars) < layer(Pass::TempoPendulum)
            < layer(Pass::NextNoteCue) < layer(Pass::CountdownPips) < layer(Pass::BeatPulse) < layer(
            Pass::ProgressBar,
        ),
{
}

/// The swing at a time lies between the beats around it: before the first, between two that
/// follow one another, or after the last; and it goes forward from every other beat.
pub proof fn law_swing_lies_between_its_beats(scene: &Scene, p: int)
    requires
        scene.beats@.len() >= 2,
        0 <= p <= scene.beats@.len(),
    ensures
        p == 0 <==> scene.swing_past(p) == Swing::Before,
        p == scene.beats@.len() <==> scene.swing_past(p) == Swing::After,
        0 < p < scene.beats@.len() ==> scene.swing_past(p) == (Swing::Between {
            beat: (p - 1) as usize,
        }),
        scene.forward(scene.swing_past(p)) <==> p % 2 == 1,
{
    assert(scene.beats.len() <= usize::MAX);
}

/// The piano sounds exactly while one of its notes does, from its start to its end.
pub proof fn law_piano_sounds_while_a_note_does(scene: &Scene, active: Seq<u32>, t: u64)
    ensures
        scene.piano_sounds(active, t) <==> exists|i: int|
            0 <= i < active.len() && scene.tracks@[scene.notes@[#[trigger] active[i] as
            int].track as int].is_piano && bits::le64(scene.notes@[active[i] as int].start, t)
                && bits::le64(t, scene.notes@[active[i] as int].end),
{
    if scene.piano_sounds(active, t) {
        let i = choose|i: int|
            0 <= i < active.len() && scene.plays_piano(#[trigger] active[i]) && sounds(
                scene.note(active[i]),
                t,
            );
        assert(scene.tracks@[scene.notes@[active[i] as int].track as int].is_piano);
    }
    if exists|i: int|
        0 <= i < active.len() && scene.tracks@[scene.notes@[#[trigger] active[i] as int].track as
        int].is_piano && bits::le64(scene.notes@[active[i] as int].start, t) && bits::le64(
            t,
            scene.notes@[active[i] as int].end,
        ) {
        let i = choose|i: int|
            0 <= i < active.len() && scene.tracks@[scene.notes@[#[trigger] active[i] as
            int].track as int].is_piano && bits::le64(scene.notes@[active[i] as int].start, t)
                && bits::le64(t, scene.notes@[active[i] as int].end);
        assert(scene.plays_piano(active[i]) && sounds(scene.note(active[i]), t));
    }
}

/// The next onset, told from the notes themselves: none of the piano's active notes that start at
/// or after `since` starts before it, and where there is one, it is the start of such a note.
pub proof fn law_next_onset_starts_a_note(scene: &Scene, active: Seq<u32>, since: u64)
    ensures
        ({
            let onset = scene.next_onset_of(active, since);
            &&& forall|i: int|
                0 <= i < active.len() && scene.tracks@[scene.notes@[#[trigger] active[i] as
                int].track as int].is_piano && bits::le64(
                    since,
                    scene.notes@[active[i] as int].start,
                ) ==> bits::le64(onset, scene.notes@[active[i] as int].start)
            &&& onset == 0x7ff0_0000_0000_0000 || exists|k: int|
                0 <= k < active.len() && scene.tracks@[scene.notes@[#[trigger] active[k] as
                int].track as int].is_piano && bits::le64(
                    since,
                    scene.notes@[active[k] as int].start,
                ) && scene.notes@[active[k] as int].start == onset
        }),
{
    lemma_next_onset(scene, active, since);
    let onset = scene.next_onset_of(active, since);
    assert forall|i: int|
        0 <= i < active.len() && scene.tracks@[scene.notes@[#[trigger] active[i] as int].track as
        int].is_piano && bits::le64(since, scene.notes@[active[i] as int].start) implies bits::le64(
        onset,
        scene.notes@[active[i] as int].start,
    ) by {
        assert(scene.plays_piano(active[i]));
    }
    if onset != F64_INF {
        let k = choose|k: int|
            0 <= k < active.len() && scene.plays_piano(#[trigger] active[k]) && bits::le64(
                since,
                scene.note(active[k]).start,
            ) && scene.note(active[k]).start == onset;
        assert(scene.tracks@[scene.notes@[active[k] as int].track as int].is_piano);
    }
}

/// The dominant section is the first of the loudest.
pub proof fn law_dominant_section_is_loudest(loudness: Seq<u32>, k: int, i: int)
    requires
        is_dominant(loudness, k),
        0 <= i < loudness.len(),
    ensures
        0 <= k < loudness.len(),
        bits::f32_units(loudness[i]) <= bits::f32_units(loudness[k]),
        i < k ==> bits::f32_units(loudness[i]) < bits::f32_units(loudness[k]),
{
    bits::law_f32_key_orders_by_value(loudness[i], loudness[k]);
    bits::law_f32_key_orders_by_value(loudness[k], loudness[i]);
}

} // verus!
