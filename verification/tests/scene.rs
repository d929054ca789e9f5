use beats::video::canvas::finish_frame;
use beats::video::frame::{dominant, Pass, Swing};
use beats::video::scene::{lookahead, orchestra_events, thin, NoteSpan, Scene, SceneNote, SceneTrack};

const LOOKAHEAD: f64 = 3.4;

fn note(start: f64, end: f64, pitch: u8, vel: f32, track: usize) -> SceneNote {
    SceneNote { start: start.to_bits(), end: end.to_bits(), pitch, vel: vel.to_bits(), track }
}

fn span(n: &SceneNote) -> NoteSpan {
    let (start, end) = (f64::from_bits(n.start), f64::from_bits(n.end));
    NoteSpan {
        first: (start - LOOKAHEAD - 0.5).to_bits(),
        last: (end + 0.85 + 0.5).to_bits(),
        beam_end: (end + 0.35).to_bits(),
    }
}

fn close(a: u64, b: u64) -> bool {
    (f64::from_bits(a) - f64::from_bits(b)).abs() < 0.03
}

fn tracks() -> Vec<SceneTrack> {
    vec![
        SceneTrack { color: [255, 255, 255], is_piano: true },
        SceneTrack { color: [80, 160, 255], is_piano: false },
    ]
}

fn notes() -> Vec<SceneNote> {
    vec![
        note(4.2, 5.0, 60, 0.85, 0),
        note(4.0, 9.0, 43, 0.6, 1),
        note(4.21, 4.9, 64, 0.5, 0),
        note(5.6, 6.0, 70, 0.7, 1),
        note(4.2, 6.0, 60, 0.9, 1),
        note(4.5, 5.5, 60, 0.95, 0),
        note(9.0, 10.0, 60, 0.9, 0),
    ]
}

fn scene_with(cues: [bool; 6], transparent: bool) -> Scene {
    let notes = notes();
    let spans: Vec<NoteSpan> = notes.iter().map(span).collect();
    let mut beats: Vec<u64> = (0..20).map(|i| (i as f64 * 0.55).to_bits()).collect();
    beats.reverse();
    Scene::new(
        notes, tracks(), beats, 1280, 720, false, 11.6f64.to_bits(), cues[0], cues[1], cues[2],
        cues[3], cues[4], cues[5], transparent, &spans, close,
    )
}

fn scene() -> Scene {
    scene_with([true; 6], false)
}

fn at(t: f64) -> u64 {
    t.to_bits()
}

#[test]
fn beats_and_onsets_are_sorted() {
    let scene = scene();
    let beats: Vec<f64> = scene.beats.iter().map(|b| f64::from_bits(*b)).collect();
    assert_eq!(beats, (0..20).map(|i| i as f64 * 0.55).collect::<Vec<f64>>());
    let onsets: Vec<f64> = scene.piano_onsets.iter().map(|b| f64::from_bits(*b)).collect();
    assert_eq!(onsets, vec![4.2, 4.5, 9.0]);
}

#[test]
fn more_is_shown_from_the_side() {
    assert_eq!(f64::from_bits(lookahead(true)), 6.5);
    assert_eq!(f64::from_bits(lookahead(false)), LOOKAHEAD);
}

#[test]
fn close_times_are_thinned_out() {
    let times: Vec<u64> = [0.0, 0.02, 0.04, 0.06, 0.2].iter().map(|t| at(*t)).collect();
    let kept: Vec<f64> = thin(&times, close).iter().map(|b| f64::from_bits(*b)).collect();
    assert_eq!(kept, vec![0.0, 0.04, 0.2]);
    assert!(thin(&[], close).is_empty());
}

#[test]
fn seconds_list_their_notes() {
    let scene = scene();
    assert_eq!(scene.buckets.len(), 14);
    assert_eq!(scene.active(at(0.0)), vec![0, 1, 2, 4, 5]);
    assert_eq!(scene.active(at(4.0)), vec![0, 1, 2, 3, 4, 5]);
    assert_eq!(scene.active(at(9.0)), vec![1, 6]);
    assert_eq!(scene.active(at(9.999)), vec![1, 6]);
    assert_eq!(scene.active(at(-3.0)), vec![0, 1, 2, 4, 5]);
    assert_eq!(scene.active(at(13.0)), Vec::<u32>::new());
    assert_eq!(scene.active(at(1000.0)), Vec::<u32>::new());
    for (b, bucket) in scene.buckets.iter().enumerate() {
        for (i, n) in notes().iter().enumerate() {
            let s = span(n);
            let from = f64::from_bits(s.first).floor().max(0.0) as usize;
            let to = f64::from_bits(s.last).ceil() as usize;
            assert_eq!(bucket.contains(&(i as u32)), from <= b && b <= to);
        }
    }
}

#[test]
fn no_drawn_note_is_missed() {
    let scene = scene();
    for step in 0..1200 {
        let t = step as f64 * 0.01;
        let active = scene.active(at(t));
        for (i, n) in notes().iter().enumerate() {
            let s = span(n);
            if f64::from_bits(s.first) <= t && t <= f64::from_bits(s.last) {
                assert!(active.contains(&(i as u32)));
            }
        }
    }
}

#[test]
fn orchestra_events_come_by_time() {
    let events = orchestra_events(&notes(), &tracks());
    let shown: Vec<(f64, f32, bool)> = events
        .iter()
        .map(|e| (f64::from_bits(e.time), f32::from_bits(e.vel), e.rising))
        .collect();
    assert_eq!(
        shown,
        vec![
            (4.0, 0.6, true),
            (4.2, 0.9, true),
            (5.6, 0.7, true),
            (6.0, 0.7, false),
            (6.0, 0.9, false),
            (9.0, 0.6, false),
        ],
    );
}

#[test]
fn passes_in_order() {
    let all = scene().passes();
    assert!(
        all == vec![
            Pass::Background,
            Pass::BeatLines,
            Pass::OrchestraNotes,
            Pass::PianoBeams,
            Pass::PianoNotes,
            Pass::HitLine,
            Pass::Keyboard,
            Pass::Particles,
            Pass::Conductor,
            Pass::OrchestraBars,
            Pass::TempoPendulum,
            Pass::NextNoteCue,
            Pass::CountdownPips,
            Pass::BeatPulse,
            Pass::ProgressBar,
        ],
    );
    let bare = scene_with([false; 6], true).passes();
    assert_eq!(bare.len(), 8);
    assert!(bare[0] == Pass::BeatLines);
    let one = scene_with([true, false, false, false, false, false], false).passes();
    assert!(one[9] == Pass::BeatPulse);
    let progress = scene_with([false, false, false, true, false, false], false).passes();
    assert!(progress[9] == Pass::ProgressBar);
}

#[test]
fn notes_in_sight() {
    let scene = scene();
    let active = scene.active(at(5.0));
    let t = 5.05;
    let seen = scene.seen_notes(&active, at(t), at(t + LOOKAHEAD), true);
    let shown: Vec<(u32, bool)> = seen.iter().map(|s| (s.note, s.sounding)).collect();
    assert_eq!(shown, vec![(5, true)]);
    let seen = scene.seen_notes(&active, at(t), at(t + LOOKAHEAD), false);
    let shown: Vec<(u32, bool)> = seen.iter().map(|s| (s.note, s.sounding)).collect();
    assert_eq!(shown, vec![(1, true), (3, false), (4, true)]);
    let ahead = scene.seen_notes(&scene.active(at(0.0)), at(0.5), at(0.5 + LOOKAHEAD), true);
    assert!(ahead.is_empty());
}

#[test]
fn beams_linger_after_the_release() {
    let scene = scene();
    let beams = scene.beams(&scene.active(at(5.0)), at(5.05));
    let shown: Vec<(u32, bool)> = beams.iter().map(|b| (b.note, b.released)).collect();
    assert_eq!(shown, vec![(0, true), (2, true), (5, false)]);
    let later = scene.beams(&scene.active(at(5.0)), at(5.3));
    let shown: Vec<(u32, bool)> = later.iter().map(|b| (b.note, b.released)).collect();
    assert_eq!(shown, vec![(0, true), (5, false)]);
}

#[test]
fn the_orchestra_that_sounds() {
    let scene = scene();
    assert_eq!(scene.orchestra(&scene.active(at(5.0)), at(5.7)), vec![1, 3, 4]);
    assert_eq!(scene.orchestra(&scene.active(at(5.0)), at(6.0)), vec![1, 3, 4]);
    assert_eq!(scene.orchestra(&scene.active(at(6.0)), at(6.5)), vec![1]);
}

#[test]
fn keys_light_up_for_the_piano_only() {
    let scene = scene();
    let active = scene.active(at(4.0));
    let light = |t: f64, p: i32| scene.key_light(at(t), &active, p).map(f32::from_bits);
    assert_eq!(light(4.3, 60), Some(0.85));
    assert_eq!(light(4.6, 60), Some(0.95));
    assert_eq!(light(4.6, 64), Some(0.5));
    assert_eq!(light(4.6, 43), None);
    assert_eq!(light(4.1, 60), None);
    let lit: Vec<(i32, f32)> = scene
        .lit_keys(at(4.6), &active)
        .iter()
        .map(|(p, v)| (*p, f32::from_bits(*v)))
        .collect();
    assert_eq!(lit, vec![(60, 0.95), (64, 0.5)]);
}

#[test]
fn bursts_of_notes() {
    let scene = scene();
    let bursts = scene.bursts(&[0, 1]);
    assert_eq!((bursts[0].note, bursts[0].embers, bursts[0].rings), (0, true, 2));
    assert_eq!(bursts[0].seed, 60);
    assert_eq!((bursts[1].note, bursts[1].embers, bursts[1].rings), (1, false, 1));
    assert_eq!(bursts[1].seed, (1 << 17) | 43);
}

#[test]
fn the_next_onset() {
    let scene = scene();
    let active = scene.active(at(4.0));
    let next = |since: f64| scene.next_onset(&active, at(since)).map(f64::from_bits);
    assert_eq!(next(4.0), Some(4.2));
    assert_eq!(next(4.2), Some(4.2));
    assert_eq!(next(4.3), Some(4.5));
    assert_eq!(next(4.6), None);
    assert_eq!(scene.piano_notes(&active), vec![0, 2, 5]);
}

#[test]
fn counting_back_in_after_a_rest() {
    let scene = scene();
    let entrance = |t: f64| {
        scene.next_entrance(&scene.active(at(t)), at(t)).map(f64::from_bits)
    };
    assert_eq!(entrance(7.5), Some(9.0));
    assert_eq!(entrance(4.6), None);
    assert_eq!(entrance(9.5), None);
    assert_eq!(entrance(10.5), None);
    let pips = scene.pips(at(7.5), at(9.0 + 1e-6)).unwrap();
    assert_eq!(pips.shown, 3);
    assert_eq!(pips.next_beat.map(f64::from_bits), Some(14.0 * 0.55));
    assert_eq!(scene.pips(at(3.0), at(9.0 + 1e-6)).unwrap().shown, 8);
    assert!(scene.pips(at(0.0), at(9.0)).is_none());
    assert!(scene.pips(at(8.9), at(9.0)).is_none());
    assert!(scene.pips(at(9.0), at(8.0)).is_none());
}

#[test]
fn beats_around_a_time() {
    let scene = scene();
    let around = |t: f64| {
        let (a, b) = scene.beats_around(at(t));
        (a.map(f64::from_bits), b.map(f64::from_bits))
    };
    assert_eq!(around(-0.1), (None, Some(0.0)));
    assert_eq!(around(0.0), (Some(0.0), Some(0.55)));
    assert_eq!(around(100.0), (Some(19.0 * 0.55), None));
}

#[test]
fn the_pendulum_swings_both_ways() {
    let scene = scene();
    assert!(scene.swing(at(-1.0)) == Some(Swing::Before));
    assert!(scene.swing(at(0.6)) == Some(Swing::Between { beat: 1 }));
    assert!(scene.swing(at(50.0)) == Some(Swing::After));
    assert!(!scene.swings_forward(&Swing::Before));
    assert!(scene.swings_forward(&Swing::Between { beat: 0 }));
    assert!(scene.swings_forward(&Swing::Between { beat: 4 }));
    assert!(!scene.swings_forward(&Swing::Between { beat: 1 }));
    assert!(!scene.swings_forward(&Swing::After));
    let lone = Scene::new(
        vec![], tracks(), vec![at(1.0)], 64, 64, true, at(1.0), false, false, false, false, false,
        false, false, &[], close,
    );
    assert!(lone.swing(at(0.0)).is_none());
}

#[test]
fn frames_start_transparent_and_end_as_bytes() {
    let mut pixmap = scene().begin_frame().unwrap();
    assert_eq!((pixmap.width(), pixmap.height()), (1280, 720));
    pixmap.data_mut()[5] = 200;
    let data = finish_frame(pixmap);
    assert_eq!(data.len(), 1280 * 720 * 4);
    assert_eq!(data[5], 200);
    assert!(data.iter().enumerate().all(|(i, b)| i == 5 || *b == 0));
}

#[test]
fn some_sizes_cannot_be_drawn() {
    let empty = |width: u32, height: u32| {
        Scene::new(
            vec![], tracks(), vec![], width, height, true, at(1.0), false, false, false, false,
            false, false, false, &[], close,
        )
    };
    assert!(empty(0, 10).begin_frame().is_none());
    assert!(empty(10, 0).begin_frame().is_none());
    assert!(empty(536870912, 1).begin_frame().is_none());
    assert!(empty(3, 2).begin_frame().is_some());
}

#[test]
fn directions_alternate_at_every_beat() {
    let scene = scene();
    let forward = |t: f64| scene.swings_forward(&scene.swing(at(t)).unwrap());
    for beat in scene.beats.iter().map(|b| f64::from_bits(*b)) {
        assert_ne!(forward(beat - 0.1), forward(beat));
        assert_eq!(forward(beat), forward(beat + 0.1));
    }
}

#[test]
fn the_loudest_section_dominates() {
    let of = |loudness: &[f32]| {
        dominant(&loudness.iter().map(|l| l.to_bits()).collect::<Vec<u32>>())
    };
    assert_eq!(of(&[]), None);
    assert_eq!(of(&[0.0]), Some(0));
    assert_eq!(of(&[0.0, 0.6, 1.5, 0.7]), Some(2));
    assert_eq!(of(&[-1.0, 0.5, 0.5]), Some(1));
}

#[test]
fn onsets_stand_for_all_starts() {
    let scene = scene();
    let starts: Vec<u64> =
        notes().iter().filter(|n| tracks()[n.track].is_piano).map(|n| n.start).collect();
    assert!(scene.piano_onsets.iter().all(|o| starts.contains(o)));
    for start in starts {
        assert!(scene.piano_onsets.iter().any(|o| *o == start || close(start, *o)));
    }
}
