use beats::audio::peaks::{chunk_frames, compute_peaks, ChunkClock, PeakScan};
use beats::audio::scan::{
    decode_interval, scan_interval, FullRun, PcmRun, PeakRun, Progress,
};
use beats::audio::stft::{hop_frames, StftAccumulator, RAW_BINS, SAL_BINS, STFT_SIZE};

fn bits(values: &[f32]) -> Vec<u32> {
    values.iter().map(|v| v.to_bits()).collect()
}

fn values(row: &[u32]) -> Vec<f32> {
    row.iter().map(|b| f32::from_bits(*b)).collect()
}

#[test]
fn chunk_and_hop_sizes() {
    assert_eq!(chunk_frames(44100), 441);
    assert_eq!(chunk_frames(99), 1);
    assert_eq!(chunk_frames(0), 1);
    assert_eq!(hop_frames(44100), 2205);
    assert_eq!(hop_frames(19), 1);
}

#[test]
fn clock_counts_chunks() {
    let mut clock = ChunkClock::new(3);
    let done: Vec<bool> = (0..7).map(|_| clock.tick()).collect();
    assert_eq!(done, vec![false, false, true, false, false, true, false]);
    assert_eq!(clock.filled, 1);
}

#[test]
fn peaks_are_the_largest_absolute_values() {
    // Two channels, chunks of two frames, the last chunk shorter, an odd sample at the end.
    let samples = bits(&[0.1, -0.2, -0.5, 0.1, 0.3, f32::NAN, 0.2, -0.7, -0.0, 0.05, 0.9]);
    let peaks = compute_peaks(&samples, 2, 200);
    assert_eq!(values(&peaks[0]), vec![0.5, 0.3, 0.0]);
    assert_eq!(values(&peaks[1]), vec![0.2, 0.7, 0.05]);
}

#[test]
fn peaks_of_nothing() {
    assert_eq!(compute_peaks(&[], 2, 44100), vec![Vec::<u32>::new(), vec![]]);
}

#[test]
fn scanning_frame_by_frame_finds_the_same_peaks() {
    let samples: Vec<u32> = (0..700).map(|i| ((i as f32 * 0.37).sin()).to_bits()).collect();
    let mut scan = PeakScan::new(2, chunk_frames(3000));
    for frame in samples.chunks(2) {
        scan.push_frame(frame);
    }
    assert_eq!(scan.pending(), 350 % 30);
    assert_eq!(scan.finish(), compute_peaks(&samples, 2, 3000));
}

#[test]
fn window_holds_the_last_samples() {
    let mut acc = StftAccumulator::new(40);
    assert_eq!(acc.window(), vec![0; STFT_SIZE]);
    let mut due = Vec::new();
    for i in 0..5000u32 {
        if acc.push(i) {
            due.push(i);
        }
    }
    let expected: Vec<u32> = (5000 - STFT_SIZE as u32..5000).collect();
    assert_eq!(acc.window(), expected);
    assert_eq!(due.len(), 2500);
    assert_eq!(due[0], 1);
}

#[test]
fn columns_are_laid_out_one_after_the_other() {
    let mut acc = StftAccumulator::new(44100);
    acc.add_column(&[1; RAW_BINS], &[2; SAL_BINS]);
    acc.add_column(&[3; RAW_BINS], &[4; SAL_BINS]);
    let spec = acc.finish(20.0f32.to_bits());
    assert_eq!(spec.cols, 2);
    assert_eq!((spec.midi_lo, spec.midi_hi), (21, 108));
    assert_eq!((spec.raw.bins, spec.salience.bins), (175, 88));
    assert_eq!(spec.raw.bytes.len(), 350);
    assert_eq!(spec.raw.bytes[175], 3);
    assert_eq!(spec.salience.bytes[87], 2);
    assert_eq!(spec.salience.bytes[88], 4);
}

#[test]
fn progress_is_reported_at_intervals() {
    let mut progress = Progress::new(1000, 100);
    assert!(!progress.advance(99));
    assert!(progress.advance(150));
    assert!(!progress.advance(249));
    assert!(progress.advance(250));
    let mut unknown = Progress::new(0, 100);
    assert!(!unknown.advance(5000));
}

#[test]
fn report_intervals() {
    assert_eq!(scan_interval(44100), 176400);
    assert_eq!(scan_interval(0), 1);
    assert_eq!(decode_interval(44100, 2), 176400);
    assert_eq!(decode_interval(0, 2), 1);
}

fn packets() -> Vec<Vec<u32>> {
    [7usize, 1, 0, 12, 5, 30]
        .iter()
        .enumerate()
        .map(|(k, n)| (0..n * 2).map(|i| (((k * 31 + i) as f32) * 0.11).cos().to_bits()).collect())
        .collect()
}

fn mono(packet: &[u32]) -> Vec<u32> {
    packet
        .chunks_exact(2)
        .map(|f| ((f32::from_bits(f[0]) + f32::from_bits(f[1])) / 2.0).to_bits())
        .collect()
}

#[test]
fn a_scan_finds_what_a_single_pass_finds() {
    // 200 Hz: chunks of 2 frames, a column every 10.
    let mut scan = PeakRun::new(2, 200, 55);
    let mut full = FullRun::new(2, 200, Some(55));
    let mut all = Vec::new();
    let mut ends = Vec::new();
    let mut start = 0;
    let mut columns = 0;
    for packet in packets() {
        let m = mono(&packet);
        let (work, _) = scan.accept(&packet, &m);
        let (same, _) = full.accept(&packet, &m);
        assert_eq!(work.chunk_ends, same.chunk_ends);
        assert_eq!(work.windows, same.windows);
        ends.extend(work.chunk_ends.iter().map(|f| start + f));
        for _ in &work.windows {
            columns += 1;
            scan.analyzer.add_column(&[columns; RAW_BINS], &[columns; SAL_BINS]);
            full.analyzer.add_column(&[columns; RAW_BINS], &[columns; SAL_BINS]);
        }
        start += m.len();
        all.extend(packet);
    }
    assert_eq!(ends, (0..55).filter(|f| f % 2 == 1).collect::<Vec<usize>>());
    assert_eq!(scan.total_frames, 55);
    assert_eq!(scan.analyzer.pending(), 1);
    let expected = compute_peaks(&all, 2, 200);
    let meta = scan.finish(vec![vec![], vec![]], 0.275f64.to_bits(), 20.0f32.to_bits());
    assert_eq!(meta.peaks, expected);
    assert_eq!(meta.spectrogram.cols, 5);
    assert_eq!(meta.spectrogram.raw.bytes[4 * RAW_BINS], 5);
    assert_eq!((meta.channels, meta.sample_rate), (2, 200));
    let (audio, peaks, spec) = full.finish(20.0f32.to_bits());
    assert_eq!(audio.samples, all);
    assert_eq!(peaks, expected);
    assert_eq!(spec.cols, 5);
}

#[test]
fn windows_slide_over_packet_borders() {
    let mut run = PeakRun::new(1, 100, 0);
    let (first, _) = run.accept(&[1, 2, 3], &[1, 2, 3]);
    assert!(first.windows.is_empty());
    let (second, reported) = run.accept(&[4, 5, 6], &[4, 5, 6]);
    assert!(!reported);
    assert_eq!(second.windows.len(), 1);
    let window = &second.windows[0];
    assert_eq!(window.len(), STFT_SIZE);
    assert_eq!(&window[STFT_SIZE - 6..], &[0, 1, 2, 3, 4, 5]);
}

#[test]
fn a_full_decode_keeps_partial_frames() {
    let mut run = PcmRun::new(2, 100, Some(100));
    assert_eq!(run.progress.expected, 200);
    assert!(!run.accept(&[1, 2, 3]));
    assert!(run.accept(&vec![9; 400]));
    assert_eq!(run.audio.samples.len(), 403);
    assert_eq!(run.audio.num_frames(), 201);
    assert_eq!(run.progress.next, 803);
    let unknown = PcmRun::new(2, 100, None);
    assert_eq!(unknown.progress.expected, 0);
}

#[test]
fn a_scan_and_a_single_pass_agree() {
    let mut scan = PeakRun::new(2, 200, 0);
    let mut pass = FullRun::new(2, 200, None);
    for packet in 0..7u32 {
        let samples: Vec<u32> =
            (0..26).map(|i| (((packet * 26 + i) as f32 * 0.7).sin()).to_bits()).collect();
        let mono: Vec<u32> = samples.chunks(2).map(|f| f[0]).collect();
        let (a, _) = scan.accept(&samples, &mono);
        let (b, _) = pass.accept(&samples, &mono);
        assert_eq!(a.chunk_ends, b.chunk_ends);
        assert_eq!(a.windows, b.windows);
        for window in a.windows {
            let byte = (window[STFT_SIZE - 1] >> 8) as u8;
            scan.analyzer.add_column(&[byte; RAW_BINS], &[byte; SAL_BINS]);
            pass.analyzer.add_column(&[byte; RAW_BINS], &[byte; SAL_BINS]);
        }
    }
    let meta = scan.finish(vec![], 0, 7);
    let (audio, peaks, spectrogram) = pass.finish(7);
    assert_eq!(meta.peaks, peaks);
    assert_eq!(peaks, compute_peaks(&audio.samples, 2, 200));
    assert_eq!(meta.spectrogram.cols, 91 / 10);
    assert_eq!(meta.spectrogram.cols, spectrogram.cols);
    assert_eq!(meta.spectrogram.raw.bytes, spectrogram.raw.bytes);
    assert_eq!(meta.spectrogram.salience.bytes, spectrogram.salience.bytes);
}
