use beats::audio::decode::{SpecLayer, SpectrogramData};
use beats::audio::engine::{
    cancelled_message, limited_rate, AudioEngine, LoadResult, PcmStep, PlayRequest, RateStep,
    SetStretchesResult, RATE_ONE,
};
use beats::audio::playback::position_at;
use beats::audio::stretch::StretchSeg;
use std::sync::Arc;

fn seg() -> StretchSeg {
    StretchSeg { start: 1.0f64.to_bits(), end: 2.0f64.to_bits(), factor: 1.5f64.to_bits() }
}

fn loaded() -> AudioEngine<f32> {
    let mut engine = AudioEngine::new();
    engine.begin_load();
    engine.loaded_full(
        "song.mp3".to_string(),
        48000,
        2,
        3.0f64.to_bits(),
        vec![vec![7], vec![8]],
        Arc::new(vec![0.5f32; 20]),
    );
    engine
}

#[test]
fn a_new_engine_is_empty() {
    let engine: AudioEngine<f32> = AudioEngine::new();
    assert_eq!(engine.sample_rate, 44100);
    assert_eq!(engine.channels, 2);
    assert_eq!(engine.source_path, "");
    assert_eq!(engine.playback_rate, 1.0f64.to_bits());
    assert_eq!(engine.position_fp, 0);
    assert!(!engine.is_playing && !engine.pcm_ready && !engine.pcm_signal);
    assert!(engine.play_request() == PlayRequest::NoAudio);
    assert_eq!(engine.stretch_source().unwrap_err(), "no audio loaded");
}

#[test]
fn a_single_pass_makes_the_samples_usable() {
    let engine = loaded();
    assert_eq!(engine.source_path, "song.mp3");
    assert_eq!((engine.sample_rate, engine.channels), (48000, 2));
    assert_eq!(engine.original.len(), 20);
    assert_eq!(engine.warped.len(), 20);
    assert_eq!(engine.warped_duration_secs, 3.0f64.to_bits());
    assert_eq!(engine.warped_peaks, vec![vec![7], vec![8]]);
    assert!(engine.pcm_ready && engine.pcm_signal);
    assert!(engine.play_request() == PlayRequest::Start);
    assert_eq!(engine.stretch_source().unwrap().len(), 20);
}

#[test]
fn a_scan_leaves_the_samples_for_later() {
    let mut engine = loaded();
    engine.is_playing = true;
    engine.begin_load();
    assert!(!engine.is_playing && !engine.pcm_signal);
    engine.loaded_scan("long.mp3".to_string(), 44100, 1, 9.0f64.to_bits(), vec![vec![]]);
    assert_eq!(engine.original.len(), 0);
    assert!(!engine.pcm_ready);
    assert!(engine.play_request() == PlayRequest::Wait);
    let step = engine.pcm_decoded(&"long.mp3".to_string(), Arc::new(vec![0.25; 6]));
    assert!(step == PcmStep::Ready);
    assert!(engine.pcm_ready && engine.pcm_signal);
    assert_eq!(engine.warped.len(), 6);
}

#[test]
fn samples_of_another_file_are_dropped() {
    let mut engine = loaded();
    let step = engine.pcm_decoded(&"other.mp3".to_string(), Arc::new(vec![0.25; 6]));
    assert!(step == PcmStep::Stale);
    assert_eq!(engine.original.len(), 20);
    engine.restretched(&"other.mp3".to_string(), Arc::new(vec![0.0; 2]));
    assert_eq!(engine.warped.len(), 20);
    assert!(engine.pcm_signal);
}

#[test]
fn stretches_set_before_the_samples_are_applied_to_them() {
    let mut engine: AudioEngine<f32> = AudioEngine::new();
    engine.loaded_scan("long.mp3".to_string(), 44100, 1, 9.0f64.to_bits(), vec![vec![]]);
    engine.stretches = vec![seg()];
    let step = engine.pcm_decoded(&"long.mp3".to_string(), Arc::new(vec![0.25; 6]));
    assert!(step == PcmStep::Restretch);
    assert!(!engine.pcm_signal);
    engine.restretched(&"long.mp3".to_string(), Arc::new(vec![0.25; 9]));
    assert!(engine.pcm_signal);
    assert_eq!((engine.original.len(), engine.warped.len()), (6, 9));
}

#[test]
fn new_stretches_move_the_position() {
    let mut engine = loaded();
    let restart = engine.commit_stretches(
        vec![seg()],
        Arc::new(vec![0.0; 30]),
        4.5f64.to_bits(),
        vec![vec![1], vec![2]],
        12,
    );
    assert_eq!(restart, None);
    assert_eq!(engine.position_fp, position_at(12));
    assert_eq!(engine.warped.len(), 30);
    assert_eq!(engine.original.len(), 20);
    assert!(engine.stretches == vec![seg()]);
    assert_eq!(engine.warped_duration_secs, 4.5f64.to_bits());
    assert_eq!(engine.original_duration_secs, 3.0f64.to_bits());
    let answer = SetStretchesResult::new(&engine, vec![vec![7]], 2.5f64.to_bits());
    assert_eq!(answer.peaks, vec![vec![1], vec![2]]);
    assert_eq!(answer.bass_peaks, vec![vec![7]]);
    assert_eq!(answer.warped_duration, 4.5f64.to_bits());
    assert_eq!(answer.cursor_orig, 2.5f64.to_bits());
    engine.stream_started();
    let restart = engine.commit_stretches(vec![], Arc::new(vec![0.0; 20]), 0, vec![], 3);
    assert_eq!(restart, Some(3));
    assert!(!engine.is_playing);
}

#[test]
fn rate_changes() {
    let mut engine = loaded();
    assert!(engine.set_rate(RATE_ONE, true) == RateStep::Unchanged);
    assert!(engine.set_rate(0.5f64.to_bits(), false) == RateStep::Stored);
    assert_eq!(engine.playback_rate, 0.5f64.to_bits());
    engine.stream_started();
    engine.seek(6);
    assert!(engine.set_rate(7.0f64.to_bits(), false) == RateStep::Restart { frame: 6 });
    assert!(!engine.is_playing);
    assert_eq!(engine.playback_rate, 2.0f64.to_bits());
    assert_eq!(limited_rate(0.01f64.to_bits()), 0.1f64.to_bits());
    assert_eq!(limited_rate(0.75f64.to_bits()), 0.75f64.to_bits());
}

#[test]
fn playing_resumes_and_rewinds() {
    let mut engine = loaded();
    engine.seek(4);
    assert_eq!(engine.start_frame(), 4);
    engine.stream_started();
    assert!(engine.play_request() == PlayRequest::AlreadyPlaying);
    assert_eq!(engine.pause(), 4);
    assert!(!engine.is_playing);
    assert_eq!(engine.start_frame(), 4);
    engine.seek(10);
    assert_eq!(engine.start_frame(), 0);
    assert_eq!(engine.position_fp, 0);
}

#[test]
fn loading_forgets_the_file_before() {
    let mut engine = loaded();
    engine.commit_stretches(vec![seg()], Arc::new(vec![0.0; 30]), 0, vec![], 12);
    engine.set_rate(0.5f64.to_bits(), false);
    engine.loaded_full("b.mp3".to_string(), 8000, 1, 0, vec![], Arc::new(vec![0.0; 3]));
    assert!(engine.stretches.is_empty());
    assert_eq!(engine.playback_rate, RATE_ONE);
    assert_eq!(engine.position_fp, 0);
}

#[test]
fn waiting_in_vain() {
    assert_eq!(cancelled_message(), "Audio loading was cancelled");
}

#[test]
fn spectrograms_travel_as_base64() {
    let spec = SpectrogramData {
        cols: 1,
        cols_per_sec: 20.0f32.to_bits(),
        midi_lo: 21,
        midi_hi: 108,
        raw: SpecLayer { bytes: vec![77, 97, 110], bins: 3 },
        salience: SpecLayer { bytes: vec![77], bins: 1 },
    };
    let result = LoadResult::new(vec![], vec![vec![1]], 5, 44100, 2, &spec);
    assert_eq!(result.spec_raw.data, "TWFu");
    assert_eq!(result.spec_raw.bins, 3);
    assert_eq!(result.spec_salience.data, "TQ==");
    assert_eq!(result.spec_cols, 1);
    assert_eq!(result.spec_cols_per_sec, 20.0f32.to_bits());
    assert_eq!((result.spec_midi_lo, result.spec_midi_hi), (21, 108));
    assert_eq!((result.duration, result.sample_rate, result.channels), (5, 44100, 2));
    assert_eq!(result.bass_peaks, vec![vec![1]]);
}

#[test]
fn the_last_stretches_count() {
    let set = |engine: &mut AudioEngine<f32>, stretches: Vec<StretchSeg>, frame: usize| {
        let source = engine.stretch_source().unwrap();
        let warped: Vec<f32> = source.iter().map(|s| s + stretches.len() as f32).collect();
        engine.commit_stretches(stretches, Arc::new(warped), 0, vec![vec![9]], frame);
    };
    let (mut twice, mut once) = (loaded(), loaded());
    set(&mut twice, vec![seg(), seg()], 3);
    set(&mut twice, vec![seg()], 5);
    set(&mut once, vec![seg()], 5);
    assert_eq!(twice.warped, once.warped);
    assert_eq!(twice.original, once.original);
    assert_eq!(twice.warped_peaks, once.warped_peaks);
    assert_eq!(twice.position_fp, once.position_fp);
    assert!(twice.stretches == once.stretches);
}
