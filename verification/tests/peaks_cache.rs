use beats::audio::decode::{AudioMeta, SpecLayer, SpectrogramData};
use beats::audio::peaks_cache::{decode_peaks_cache, encode_peaks_cache};

fn row(values: &[f32]) -> Vec<u32> {
    values.iter().map(|v| v.to_bits()).collect()
}

fn analysis() -> AudioMeta {
    AudioMeta {
        channels: 2,
        sample_rate: 44100,
        duration_secs: 0.03f64.to_bits(),
        peaks: vec![row(&[0.5, 0.25, 1.0]), row(&[0.0, 0.125, 0.75])],
        bass_peaks: vec![row(&[0.1, 0.2, 0.3]), row(&[0.4, 0.5, 0.6])],
        spectrogram: SpectrogramData {
            cols: 2,
            cols_per_sec: 20.0f32.to_bits(),
            midi_lo: 21,
            midi_hi: 108,
            raw: SpecLayer { bytes: vec![1, 2, 3, 4, 5, 6], bins: 3 },
            salience: SpecLayer { bytes: vec![7, 8, 9, 10], bins: 2 },
        },
    }
}

#[test]
fn peaks_file_layout() {
    let file = encode_peaks_cache(&analysis());
    let mut expected = b"PEAKS002".to_vec();
    expected.extend_from_slice(&44100u32.to_le_bytes());
    expected.extend_from_slice(&2u32.to_le_bytes());
    expected.extend_from_slice(&0.03f64.to_le_bytes());
    for n in [3u32, 3, 2] {
        expected.extend_from_slice(&n.to_le_bytes());
    }
    expected.extend_from_slice(&20.0f32.to_le_bytes());
    expected.extend_from_slice(&[21, 108]);
    expected.extend_from_slice(&3u32.to_le_bytes());
    expected.extend_from_slice(&2u32.to_le_bytes());
    for v in [0.5f32, 0.25, 1.0, 0.0, 0.125, 0.75, 0.1, 0.2, 0.3, 0.4, 0.5, 0.6] {
        expected.extend_from_slice(&v.to_le_bytes());
    }
    expected.extend_from_slice(&[1, 2, 3, 4, 5, 6, 7, 8, 9, 10]);
    assert_eq!(file, expected);
}

#[test]
fn analysis_reads_back() {
    let meta = analysis();
    let mut file = encode_peaks_cache(&meta);
    file.push(0xff);
    let back = decode_peaks_cache(&file).unwrap();
    assert_eq!(back.channels, 2);
    assert_eq!(back.sample_rate, 44100);
    assert_eq!(back.duration_secs, meta.duration_secs);
    assert_eq!(back.peaks, meta.peaks);
    assert_eq!(back.bass_peaks, meta.bass_peaks);
    assert_eq!(back.spectrogram.cols, 2);
    assert_eq!(back.spectrogram.cols_per_sec, 20.0f32.to_bits());
    assert_eq!((back.spectrogram.midi_lo, back.spectrogram.midi_hi), (21, 108));
    assert_eq!(back.spectrogram.raw.bytes, meta.spectrogram.raw.bytes);
    assert_eq!(back.spectrogram.raw.bins, 3);
    assert_eq!(back.spectrogram.salience.bytes, meta.spectrogram.salience.bytes);
    assert_eq!(back.spectrogram.salience.bins, 2);
}

#[test]
fn an_analysis_of_nothing_reads_back() {
    let mut meta = analysis();
    meta.peaks = vec![vec![], vec![]];
    meta.bass_peaks = vec![vec![], vec![]];
    meta.spectrogram.cols = 0;
    meta.spectrogram.raw.bytes = vec![];
    meta.spectrogram.salience.bytes = vec![];
    let file = encode_peaks_cache(&meta);
    assert_eq!(file.len(), 50);
    let back = decode_peaks_cache(&file).unwrap();
    assert_eq!(back.peaks, vec![Vec::<u32>::new(), vec![]]);
}

#[test]
fn damaged_peaks_files_are_turned_down() {
    let file = encode_peaks_cache(&analysis());
    assert!(decode_peaks_cache(&file[..file.len() - 1]).is_none());
    assert!(decode_peaks_cache(&file[..30]).is_none());
    assert!(decode_peaks_cache(&[]).is_none());
    let mut other = file.clone();
    other[0] = b'p';
    assert!(decode_peaks_cache(&other).is_none());
    for at in [8, 12] {
        let mut zeroed = file.clone();
        for b in &mut zeroed[at..at + 4] {
            *b = 0;
        }
        assert!(decode_peaks_cache(&zeroed).is_none());
    }
    let mut huge = file.clone();
    for b in &mut huge[24..28] {
        *b = 0xff;
    }
    assert!(decode_peaks_cache(&huge).is_none());
}
