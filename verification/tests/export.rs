use beats::project::{BeatsProject, PROJECT_VERSION};
use beats::video::export::{
    beats_near_clip, clip_frames, known_notes, scene_tracks, ExportRun, VideoNote, VideoOptions, VideoTrack,
};

fn options(orientation: &str, fps: u32, bg: Option<&str>) -> VideoOptions {
    VideoOptions {
        orientation: orientation.to_string(),
        start: 0,
        end: 0,
        fps,
        width: 1280,
        height: 720,
        beat_pulse: false,
        orchestra_bars: false,
        tempo_pendulum: false,
        progress_bar: false,
        next_note_cue: false,
        countdown_pips: false,
        speed: 1.0f64.to_bits(),
        bg_video_path: bg.map(|s| s.to_string()),
        bg_brightness: 1.0f64.to_bits(),
    }
}

#[test]
fn options_are_read() {
    assert!(options("horizontal", 30, None).horizontal());
    assert!(!options("vertical", 30, None).horizontal());
    assert!(!options("Horizontal", 30, None).horizontal());
    assert_eq!(options("vertical", 0, None).frame_rate(), 1);
    assert_eq!(options("vertical", 60, None).frame_rate(), 60);
    assert!(!options("vertical", 30, None).transparent());
    assert!(!options("vertical", 30, Some("")).transparent());
    assert!(options("vertical", 30, Some("a.mov")).transparent());
    assert_eq!(options("vertical", 30, None).background(), None);
    assert_eq!(options("vertical", 30, Some("")).background(), None);
    assert_eq!(options("vertical", 30, Some("a.mov")).background(), Some("a.mov".to_string()));
}

#[test]
fn notes_without_a_track_are_left_out() {
    let note = |track: usize| VideoNote { start: 0, dur: 0, pitch: 60, vel: 0, track };
    let kept = known_notes(&[note(0), note(2), note(1), note(usize::MAX), note(1)], 2);
    assert_eq!(kept.iter().map(|n| n.track).collect::<Vec<usize>>(), vec![0, 1, 1]);
}

#[test]
fn tracks_are_taken_over() {
    let tracks = scene_tracks(&[
        VideoTrack { color: [1, 2, 3], is_piano: true },
        VideoTrack { color: [4, 5, 6], is_piano: false },
    ]);
    assert_eq!(tracks.len(), 2);
    assert_eq!(tracks[0].color, [1, 2, 3]);
    assert!(tracks[0].is_piano && !tracks[1].is_piano);
}

#[test]
fn clips_stay_within_the_audio() {
    assert_eq!(clip_frames(10.7f64.to_bits(), 20.2f64.to_bits(), 100), (10, 20));
    assert_eq!(clip_frames(10.0f64.to_bits(), 200.0f64.to_bits(), 100), (10, 100));
    assert_eq!(clip_frames(150.0f64.to_bits(), 200.0f64.to_bits(), 100), (100, 100));
}

#[test]
fn chunks_cover_all_frames() {
    let mut run = ExportRun::new(59.2f64.to_bits());
    let mut chunks = Vec::new();
    while let Some((from, to)) = run.next_chunk() {
        chunks.push((from, to));
        run.chunk_written(to);
    }
    assert_eq!(chunks, vec![(0, 24), (24, 48), (48, 60)]);
    assert_eq!(run.outcome(true, "exit status: 0", ""), Ok(()));
    assert!(ExportRun::new(0.0f64.to_bits()).next_chunk().is_none());
}

#[test]
fn failures_are_told_in_order() {
    let mut run = ExportRun::new(59.2f64.to_bits());
    assert_eq!(run.outcome(true, "s", "t").unwrap_err(), "export ended early");
    assert_eq!(
        run.outcome(false, "exit status: 1", "a\nb").unwrap_err(),
        "ffmpeg exited with status exit status: 1\na\nb",
    );
    run.write_failed("broken pipe");
    assert!(run.next_chunk().is_none());
    assert_eq!(
        run.outcome(false, "exit status: 1", "a\nb").unwrap_err(),
        "ffmpeg pipe closed: broken pipe\na\nb",
    );
}

#[test]
fn projects_carry_the_current_version() {
    let project = BeatsProject::new("a.mp3".to_string(), vec![1], vec![], None);
    assert_eq!(project.version, PROJECT_VERSION);
    assert_eq!(project.version, 1);
    assert_eq!(project.mp3_path, "a.mp3");
    assert_eq!(project.beats, vec![1]);
    assert!(project.stretches.is_empty() && project.baked_wav_path.is_none());
}

#[test]
fn options_are_limited() {
    let mut o = options("vertical", 30, None);
    o.start = (-2.5f64).to_bits();
    assert_eq!(o.clip_start(), 0.0f64.to_bits());
    o.start = 3.5f64.to_bits();
    assert_eq!(o.clip_start(), 3.5f64.to_bits());
    o.end = 90.0f64.to_bits();
    let end = |o: &VideoOptions, audio: f64, earliest: f64| {
        f64::from_bits(o.clip_end(audio.to_bits(), earliest.to_bits()))
    };
    assert_eq!(end(&o, 100.0, 3.6), 90.0);
    assert_eq!(end(&o, 60.0, 3.6), 60.0);
    assert_eq!(end(&o, 2.0, 3.6), 3.6);
    for (speed, limited) in [(0.1f64, 0.25f64), (0.8, 0.8), (9.0, 4.0)] {
        o.speed = speed.to_bits();
        assert_eq!(o.limited_speed(), limited.to_bits());
    }
    for (b, limited) in [(0.0f64, 0.05f64), (0.4, 0.4), (1.5, 1.0)] {
        o.bg_brightness = b.to_bits();
        assert_eq!(o.limited_brightness(), limited.to_bits());
    }
    let held = |dur: f64| VideoNote { start: 0, dur: dur.to_bits(), pitch: 0, vel: 0, track: 0 }.held();
    assert_eq!(held(0.01), 0.05f64.to_bits());
    assert_eq!(held(2.0), 2.0f64.to_bits());
}

#[test]
fn beats_far_from_the_clip_are_dropped() {
    let beats: Vec<u64> =
        [-30.5f64, -30.0, -29.9, 0.0, 41.9, 42.0, f64::NAN].iter().map(|b| b.to_bits()).collect();
    let kept: Vec<f64> = beats_near_clip(&beats, 42.0f64.to_bits())
        .into_iter()
        .map(f64::from_bits)
        .collect();
    assert_eq!(kept, vec![-29.9, 0.0, 41.9]);
}
