use beats::audio::playback::{
    callback_mode, frame_at, keep_reporting, play_direct, position_at, prime_frames, whole_frames,
    CallbackMode, RtCursor, RtStep,
};

#[test]
fn positions_read_back() {
    for frame in [0usize, 1, 44100, 158_760_000, (1 << 48) - 1] {
        assert_eq!(position_at(frame), (frame as u64) << 16);
        assert_eq!(frame_at(position_at(frame)), frame);
    }
    assert_eq!(position_at(1 << 48), 0);
    assert_eq!(frame_at(65535), 0);
    assert_eq!(frame_at(65536), 1);
}

#[test]
fn callback_modes() {
    assert!(callback_mode(false, 10, false, true) == CallbackMode::Silence);
    assert!(callback_mode(true, 0, false, true) == CallbackMode::Silence);
    assert!(callback_mode(true, 10, false, false) == CallbackMode::Direct);
    assert!(callback_mode(true, 10, true, true) == CallbackMode::Stretched);
    assert!(callback_mode(true, 10, true, false) == CallbackMode::Silence);
}

#[test]
fn frames_in_a_buffer() {
    assert_eq!(whole_frames(7, 2), 3);
    assert_eq!(whole_frames(7, 0), 7);
}

#[test]
fn direct_playback_copies_and_advances() {
    let buf = [1, 2, 3, 4, 5, 6];
    let mut data = [9; 4];
    assert_eq!(play_direct(&mut data, &buf, 2, 0, 0), (2, false));
    assert_eq!(data, [1, 2, 3, 4]);
    assert_eq!(play_direct(&mut data, &buf, 2, 2, 0), (3, true));
    assert_eq!(data, [5, 6, 0, 0]);
    assert_eq!(play_direct(&mut data, &buf, 2, 7, 0), (7, true));
    assert_eq!(data, [0, 0, 0, 0]);
}

#[test]
fn blocks_join_without_gaps() {
    let buf: Vec<u16> = (0..30).collect();
    let mut frame = 0;
    let mut played = Vec::new();
    for len in [4usize, 6, 8, 2] {
        let mut data = vec![0; len];
        let (next, _) = play_direct(&mut data, &buf, 2, frame, 0);
        frame = next;
        played.extend(data);
    }
    assert_eq!(played, buf[..20].to_vec());
}

#[test]
fn stretched_playback_takes_before_it_feeds() {
    let cursor = RtCursor::new(5);
    assert!(cursor.step(300, 10, 100, 50) == RtStep::Retrieve { frames: 90 });
    assert!(cursor.step(20, 10, 100, 50) == RtStep::Retrieve { frames: 20 });
    assert!(cursor.step(0, 10, 100, 50) == RtStep::Feed);
    assert!(cursor.step(0, 10, 100, 5) == RtStep::Silence { stop: false });
    assert!(cursor.step(-1, 10, 100, 5) == RtStep::Silence { stop: true });
}

#[test]
fn feeding_reaches_the_end_once() {
    let mut cursor = RtCursor::new(0);
    assert_eq!(cursor.next_block(40, 100), (0, 40, false));
    assert_eq!(cursor.next_block(0, 100), (40, 41, false));
    assert_eq!(cursor.next_block(usize::MAX, 100), (41, 100, true));
    assert!(cursor.done);
    assert!(cursor.step(0, 0, 10, 100) == RtStep::Silence { stop: false });
    assert_eq!(prime_frames(0), 1);
    assert_eq!(prime_frames(1024), 1024);
}

#[test]
fn one_pause_is_reported() {
    let mut was_playing = true;
    let mut reports = Vec::new();
    for playing in [true, false, true, false, false, true] {
        let keep = keep_reporting(playing, was_playing);
        was_playing = playing;
        reports.push(keep);
        if !keep {
            break;
        }
    }
    assert_eq!(reports, vec![true, true, true, true, false]);
}
