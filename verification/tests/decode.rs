use beats::audio::decode::{
    cache_path, cache_tmp_path, estimated_pcm_bytes, needs_buffer, on_decoded, on_packet,
    pcm_cache_is_fresh, peaks_cache_is_fresh, peaks_cache_path, peaks_cache_tmp_path,
    track_params, use_single_pass, DecodeEvent, PacketEvent, RunStep, TrackInfo,
    SINGLE_PASS_THRESHOLD,
};

#[test]
fn cache_files_stand_next_to_the_source() {
    assert_eq!(cache_path("/m/a.mp3"), "/m/a.mp3.f32pcm");
    assert_eq!(cache_tmp_path("/m/a.mp3"), "/m/a.mp3.f32pcm.tmp");
    assert_eq!(peaks_cache_path("/m/a.mp3"), "/m/a.mp3.peaks");
    assert_eq!(peaks_cache_tmp_path("/m/a.mp3"), "/m/a.mp3.peaks.tmp");
}

#[test]
fn caches_are_fresh_if_newer() {
    for f in [pcm_cache_is_fresh, peaks_cache_is_fresh] {
        assert!(f(Some(10), Some(11)));
        assert!(!f(Some(10), Some(10)));
        assert!(!f(Some(11), Some(10)));
        assert!(!f(None, Some(10)));
        assert!(!f(Some(10), None));
        assert!(!f(None, None));
        assert!(f(Some(-5), Some(0)));
    }
}

fn info(channels: Option<usize>, sample_rate: Option<u32>, n_frames: Option<u64>) -> TrackInfo {
    TrackInfo { id: 3, channels, sample_rate, n_frames }
}

#[test]
fn missing_track_parameters_are_told_in_order() {
    let error = |t: Option<TrackInfo>| track_params(&t).err().unwrap();
    assert_eq!(error(None), "no audio track");
    assert_eq!(error(Some(info(None, None, None))), "no channel info");
    assert_eq!(error(Some(info(None, Some(44100), None))), "no channel info");
    assert_eq!(error(Some(info(Some(2), None, None))), "no sample rate");
    let params = track_params(&Some(info(Some(2), Some(44100), None))).ok().unwrap();
    assert_eq!((params.id, params.channels, params.sample_rate), (3, 2, 44100));
}

#[test]
fn size_estimates() {
    assert_eq!(estimated_pcm_bytes(&Some(info(Some(2), None, Some(1000)))), Some(8000));
    assert_eq!(estimated_pcm_bytes(&Some(info(None, None, Some(1000)))), None);
    assert_eq!(estimated_pcm_bytes(&Some(info(Some(2), None, None))), None);
    assert_eq!(estimated_pcm_bytes(&None), None);
    assert_eq!(SINGLE_PASS_THRESHOLD, 500 * 1024 * 1024);
    assert!(use_single_pass(Some(SINGLE_PASS_THRESHOLD - 1)));
    assert!(!use_single_pass(Some(SINGLE_PASS_THRESHOLD)));
    assert!(!use_single_pass(None));
}

#[test]
fn decoding_goes_on_past_damage() {
    let packet = |e: PacketEvent| on_packet(&e, 3);
    assert!(matches!(packet(PacketEvent::Packet { track_id: 3 }), RunStep::Use));
    assert!(matches!(packet(PacketEvent::Packet { track_id: 4 }), RunStep::Skip));
    assert!(matches!(packet(PacketEvent::ResetRequired), RunStep::Skip));
    assert!(matches!(packet(PacketEvent::IoError), RunStep::Finish));
    assert!(matches!(packet(PacketEvent::Failed), RunStep::Fail));
    assert!(matches!(on_decoded(&DecodeEvent::Decoded), RunStep::Use));
    assert!(matches!(on_decoded(&DecodeEvent::DecodeError), RunStep::Skip));
    assert!(matches!(on_decoded(&DecodeEvent::Failed), RunStep::Fail));
}

#[test]
fn buffers_grow_when_needed() {
    assert!(needs_buffer(None, 0));
    assert!(!needs_buffer(Some(1152), 1152));
    assert!(needs_buffer(Some(1152), 1153));
}
