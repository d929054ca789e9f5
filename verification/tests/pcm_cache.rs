use beats::audio::decode::DecodedAudio;
use beats::audio::pcm_cache::{encode_pcm_cache, PcmCacheReader};

fn audio(samples: &[f32], channels: usize, sample_rate: u32) -> DecodedAudio {
    DecodedAudio { samples: samples.iter().map(|s| s.to_bits()).collect(), channels, sample_rate }
}

fn read(file: &[u8]) -> Option<DecodedAudio> {
    let mut reader = PcmCacheReader::new();
    let mut at = 0;
    loop {
        let wanted = reader.wanted();
        if wanted == 0 || at + wanted > file.len() {
            return reader.finish();
        }
        reader.accept(&file[at..at + wanted]);
        at += wanted;
    }
}

#[test]
fn file_layout() {
    let file = encode_pcm_cache(&audio(&[1.0, -0.5], 2, 44100));
    let mut expected = b"F32PCM02".to_vec();
    expected.extend_from_slice(&44100u32.to_le_bytes());
    expected.extend_from_slice(&2u32.to_le_bytes());
    expected.extend_from_slice(&2u64.to_le_bytes());
    expected.extend_from_slice(&1.0f32.to_le_bytes());
    expected.extend_from_slice(&(-0.5f32).to_le_bytes());
    assert_eq!(file, expected);
}

#[test]
fn samples_read_back() {
    let source = audio(&[0.0, 0.25, -1.0, f32::NAN, 1e-40, 0.75], 3, 48000);
    let mut file = encode_pcm_cache(&source);
    let back = read(&file).unwrap();
    assert_eq!(back.samples, source.samples);
    assert_eq!(back.channels, 3);
    assert_eq!(back.sample_rate, 48000);
    assert_eq!(back.num_frames(), 2);
    file.extend_from_slice(b"trailing bytes");
    assert_eq!(read(&file).unwrap().samples, source.samples);
}

#[test]
fn long_files_come_in_blocks() {
    let samples: Vec<f32> = (0..3_000_000).map(|i| i as f32).collect();
    let source = audio(&samples, 2, 44100);
    let file = encode_pcm_cache(&source);
    let mut reader = PcmCacheReader::new();
    let mut at = 0;
    let mut wants = Vec::new();
    while reader.wanted() > 0 {
        let n = reader.wanted();
        wants.push(n);
        reader.accept(&file[at..at + n]);
        at += n;
        if at > 24 {
            assert_eq!(reader.progress(), (at - 24, 12_000_000));
        }
    }
    assert_eq!(wants, vec![8, 16, 8388608, 3611392]);
    assert_eq!(reader.finish().unwrap().samples, source.samples);
}

#[test]
fn damaged_files_are_turned_down() {
    let file = encode_pcm_cache(&audio(&[1.0, 2.0], 1, 8000));
    assert!(read(&file[..file.len() - 1]).is_none());
    assert!(read(&file[..20]).is_none());
    assert!(read(&[]).is_none());
    let mut other = file.clone();
    other[7] = b'1';
    assert!(read(&other).is_none());
    for at in [8, 12, 16] {
        let mut zeroed = file.clone();
        for b in &mut zeroed[at..at + 4] {
            *b = 0;
        }
        assert!(read(&zeroed).is_none());
    }
    let mut reader = PcmCacheReader::new();
    reader.accept(b"F32PCM01");
    assert_eq!(reader.wanted(), 0);
    assert_eq!(reader.progress(), (0, 0));
}
