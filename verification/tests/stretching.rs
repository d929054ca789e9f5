use beats::audio::layout::{deinterleave, drain_request, interleave_into, push_all};
use beats::audio::stretch::{
    apply_stretches, assemble, frame_range, plan_pieces, seg_frames, sort_segments, tail_frames,
    Piece, SegFrames, SegTimes, StretchSeg,
};
use beats::audio::warp::{
    locate_original, locate_warped, warped_total, OriginalPlace, Place, WarpSpan,
};

fn seg(start: f64, end: f64, factor: f64) -> StretchSeg {
    StretchSeg { start: start.to_bits(), end: end.to_bits(), factor: factor.to_bits() }
}

fn frames(gap: Option<(usize, usize)>, start: usize, end: usize) -> SegFrames {
    SegFrames { gap, start, end }
}

#[test]
fn segments_are_sorted_by_start() {
    let sorted = sort_segments(&[seg(3.0, 4.0, 1.2), seg(1.0, 2.0, 0.8), seg(3.0, 5.0, 2.0)]);
    assert!(sorted == vec![seg(1.0, 2.0, 0.8), seg(3.0, 4.0, 1.2), seg(3.0, 5.0, 2.0)]);
}

#[test]
fn pieces_alternate_between_copies_and_stretches() {
    let pieces = plan_pieces(
        &[frames(Some((0, 10)), 10, 20), frames(None, 20, 30), frames(Some((30, 90)), 90, 120)],
        Some((120, 130)),
        100,
    );
    let shown: Vec<(bool, usize, usize)> = pieces
        .iter()
        .map(|p| match *p {
            Piece::Copy { start, end } => (false, start, end),
            Piece::Stretch { start, end, .. } => (true, start, end),
        })
        .collect();
    assert_eq!(
        shown,
        vec![
            (false, 0, 10),
            (true, 10, 20),
            (true, 20, 30),
            (false, 30, 90),
            (true, 90, 100),
            (false, 100, 100),
        ],
    );
}

#[test]
fn empty_segments_are_left_out() {
    assert_eq!(plan_pieces(&[frames(None, 5, 5)], None, 100).len(), 0);
    assert_eq!(plan_pieces(&[frames(None, 200, 300)], None, 100).len(), 0);
    assert_eq!(plan_pieces(&[frames(None, 9, 3)], None, 100).len(), 0);
}

#[test]
fn stretched_audio_is_put_together() {
    let samples: Vec<i32> = (0..12).collect();
    let out = apply_stretches(
        &samples,
        2,
        &[frames(Some((0, 1)), 1, 3)],
        Some((3, 6)),
        &vec![vec![-1, -2]],
    );
    assert_eq!(out, vec![0, 1, -1, -2, 6, 7, 8, 9, 10, 11]);
}

#[test]
fn without_segments_audio_is_unchanged() {
    let samples = vec![1, 2, 3, 4, 5];
    assert_eq!(apply_stretches(&samples, 2, &[], None, &vec![]), samples);
}

#[test]
fn unstretched_segments_give_the_audio_back() {
    let samples: Vec<u8> = (0..40).collect();
    let segs = [frames(Some((0, 3)), 3, 7), frames(None, 7, 7), frames(Some((7, 12)), 12, 15)];
    let stretched =
        vec![samples[6..14].to_vec(), vec![], samples[24..30].to_vec()];
    let out = apply_stretches(&samples, 2, &segs, Some((15, 20)), &stretched);
    assert_eq!(out, samples);
}

#[test]
fn assembles_given_pieces() {
    let samples = ['a', 'b', 'c', 'd'];
    let pieces = [Piece::Stretch { seg: 1, start: 0, end: 1 }, Piece::Copy { start: 2, end: 4 }];
    assert_eq!(assemble(&samples, 1, &pieces, &vec![vec![], vec!['x']]), vec!['x', 'c', 'd']);
}

#[test]
fn channels_split_and_join() {
    let samples: Vec<u32> = (0..12).collect();
    let rows = deinterleave(&samples, 3, 1, 4);
    assert_eq!(rows, vec![vec![3, 6, 9], vec![4, 7, 10], vec![5, 8, 11]]);
    let mut out = vec![99];
    interleave_into(&mut out, &rows, 3);
    assert_eq!(out, vec![99, 3, 4, 5, 6, 7, 8, 9, 10, 11]);
    let mut first = Vec::new();
    interleave_into(&mut first, &rows, 1);
    assert_eq!(first, vec![3, 4, 5]);
    push_all(&mut first, &[7]);
    assert_eq!(first, vec![3, 4, 5, 7]);
}

#[test]
fn draining_stops_when_nothing_is_left() {
    assert_eq!(drain_request(0), None);
    assert_eq!(drain_request(-1), None);
    assert_eq!(drain_request(512), Some(512));
}

const SPANS: [WarpSpan; 2] =
    [WarpSpan { normal: 100, warped: 40 }, WarpSpan { normal: 0, warped: 60 }];

#[test]
fn warped_frames_are_located() {
    let at = |frame| match locate_warped(frame, &SPANS) {
        Place::Normal { seg, offset } => ('n', seg, offset),
        Place::Stretched { seg, offset } => ('s', seg, offset),
        Place::Tail { offset } => ('t', 9, offset),
    };
    assert_eq!(at(0), ('n', 0, 0));
    assert_eq!(at(99), ('n', 0, 99));
    assert_eq!(at(100), ('s', 0, 0));
    assert_eq!(at(139), ('s', 0, 39));
    assert_eq!(at(140), ('s', 1, 0));
    assert_eq!(at(200), ('t', 9, 0));
    assert_eq!(at(275), ('t', 9, 75));
}

#[test]
fn original_times_are_located() {
    let segs = [seg(1.0, 1.5, 0.8), seg(1.5, 2.0, 1.2)];
    let at = |t: f64| match locate_original(t.to_bits(), &segs, &SPANS) {
        OriginalPlace::Normal { seg, base } => ('n', seg, base),
        OriginalPlace::Stretched { seg, base } => ('s', seg, base),
        OriginalPlace::Tail { base } => ('t', 9, base),
    };
    assert_eq!(at(-0.5), ('n', 0, 0));
    assert_eq!(at(1.0), ('n', 0, 0));
    assert_eq!(at(1.2), ('s', 0, 100));
    assert_eq!(at(1.5), ('s', 0, 100));
    assert_eq!(at(1.7), ('s', 1, 140));
    assert_eq!(at(2.5), ('t', 9, 200));
    assert_eq!(at(f64::NAN), ('t', 9, 200));
}

#[test]
fn located_times_are_found_again() {
    let segs = [seg(1.0, 1.5, 0.8), seg(1.5, 2.0, 1.2)];
    if let OriginalPlace::Stretched { seg, base } =
        locate_original(1.75f64.to_bits(), &segs, &SPANS)
    {
        match locate_warped(base + 30, &SPANS) {
            Place::Stretched { seg: found, offset } => assert_eq!((found, offset), (seg, 30)),
            _ => panic!("not in the segment"),
        }
    } else {
        panic!("not in a segment");
    }
}

#[test]
fn times_become_frames() {
    let range = |a: f64, b: f64| frame_range(a.to_bits(), b.to_bits());
    assert_eq!(range(0.0, 44100.0), (0, 44100));
    assert_eq!(range(-2.0, 0.5), (0, 1));
    assert_eq!(range(1.49, 2.5), (1, 3));
    let times = |start: f64, cursor: f64| SegTimes {
        start: start.to_bits(),
        margin: (cursor + 1e-6).to_bits(),
        cursor: (cursor * 10.0).to_bits(),
        start_frame: (start * 10.0).to_bits(),
        end_frame: 31.5f64.to_bits(),
    };
    let seg = seg_frames(times(2.04, 1.0));
    assert_eq!((seg.gap, seg.start, seg.end), (Some((10, 20)), 20, 32));
    assert_eq!(seg_frames(times(1.0, 1.0)).gap, None);
    assert_eq!(seg_frames(times(1.0 + 1e-7, 1.0)).gap, None);
    let tail = |end: f64| {
        tail_frames(end.to_bits(), (4.0f64 - 1e-6).to_bits(), (end * 10.0).to_bits(), 40.0f64.to_bits())
    };
    assert_eq!(tail(3.0), Some((30, 40)));
    assert_eq!(tail(4.0), None);
}

#[test]
fn spans_are_truncated_and_added_up() {
    let span = WarpSpan::new(100.9f64.to_bits(), (-3.0f64).to_bits());
    assert_eq!((span.normal, span.warped), (100, 0));
    assert_eq!(warped_total(&SPANS), Some(200));
    assert_eq!(warped_total(&[]), Some(0));
    let most = WarpSpan { normal: usize::MAX, warped: 0 };
    assert_eq!(warped_total(&[most]), Some(usize::MAX));
    assert_eq!(warped_total(&[most, SPANS[0]]), None);
}

#[test]
fn places_lead_to_warped_frames() {
    let at = OriginalPlace::Stretched { seg: 1, base: 140 };
    assert_eq!(at.warped_frame(29.99f64.to_bits()), Some(169));
    assert_eq!(OriginalPlace::Normal { seg: 0, base: 7 }.warped_frame(f64::NAN.to_bits()), Some(7));
    assert_eq!(OriginalPlace::Tail { base: 1 }.warped_frame(1e300f64.to_bits()), None);
}

#[test]
fn ends_of_parts_are_found_at_the_next_part() {
    let segs = [seg(1.0, 1.5, 0.8), seg(1.5, 2.0, 1.2)];
    let back = |t: f64, offset: f64| {
        let place = locate_original(t.to_bits(), &segs, &SPANS);
        match locate_warped(place.warped_frame(offset.to_bits()).unwrap(), &SPANS) {
            Place::Normal { seg, offset } => ('n', seg, offset),
            Place::Stretched { seg, offset } => ('s', seg, offset),
            Place::Tail { offset } => ('t', 9, offset),
        }
    };
    assert_eq!(back(1.0, 100.0), ('s', 0, 0));
    assert_eq!(back(1.5, 40.0), ('s', 1, 0));
    assert_eq!(back(2.0, 60.0), ('t', 9, 0));
    assert_eq!(back(1.25, 20.9), ('s', 0, 20));
    assert_eq!(back(3.0, 77.5), ('t', 9, 77));
}

#[test]
fn later_times_map_to_later_frames() {
    let segs = [seg(1.0, 1.5, 0.8), seg(1.5, 2.0, 1.2)];
    let frame = |t: f64| {
        let place = locate_original(t.to_bits(), &segs, &SPANS);
        let offset = match place {
            OriginalPlace::Normal { .. } => t * 100.0,
            OriginalPlace::Stretched { seg, .. } => {
                (t - f64::from_bits(segs[seg].start)) / 0.5 * SPANS[seg].warped as f64
            }
            OriginalPlace::Tail { .. } => (t - 2.0) * 100.0,
        };
        place.warped_frame(offset.to_bits()).unwrap()
    };
    assert_eq!(frame(-1.0), 0);
    assert_eq!(frame(0.0), 0);
    assert_eq!(frame(2.5), 250);
    for i in 0..300 {
        assert!(frame(i as f64 * 0.01) <= frame((i + 1) as f64 * 0.01));
    }
    let place = locate_original(7.0f64.to_bits(), &[], &[]);
    assert_eq!(place.warped_frame(700.5f64.to_bits()), Some(700));
}

#[test]
fn the_listing_order_does_not_matter() {
    let (a, b, c) = (seg(3.0, 4.0, 1.2), seg(1.0, 2.0, 0.8), seg(2.5, 2.75, 2.0));
    let sorted = sort_segments(&[a, b, c]);
    assert!(sorted == vec![b, c, a]);
    for list in [[a, c, b], [b, a, c], [b, c, a], [c, a, b], [c, b, a]] {
        assert!(sort_segments(&list) == sorted);
    }
}
