use beats::video::keyboard::{
    drawing_order, is_black, key_slot, keys_of_color, octave_lines, pitch_class, white_index,
    BLACK_WIDTH, HI_PITCH, LO_PITCH, N_WHITE,
};
use beats::video::rng::{ember_range, ember_seed, shard_seed, Rng};

#[test]
fn black_keys() {
    let blacks: Vec<i32> = (60..72).filter(|p| is_black(*p)).collect();
    assert_eq!(blacks, vec![61, 63, 66, 68, 70]);
    assert!(is_black(-11));
    assert!(!is_black(-12));
    assert_eq!(pitch_class(-1), 11);
    assert_eq!(pitch_class(i32::MIN), i32::MIN.rem_euclid(12));
}

#[test]
fn white_keys_are_counted_from_the_lowest() {
    assert_eq!(white_index(LO_PITCH), 0);
    assert_eq!(white_index(0), 0);
    assert_eq!(white_index(22), 1);
    assert_eq!(white_index(23), 1);
    assert_eq!(white_index(24), 2);
    assert_eq!(white_index(60), 23);
    assert_eq!(white_index(HI_PITCH + 1), N_WHITE);
    for p in 30..90 {
        assert_eq!(white_index(p + 12), white_index(p) + 7);
    }
}

#[test]
fn key_slots() {
    let c4 = key_slot(60);
    assert_eq!((c4.index, c4.black, c4.shift), (23, false, 0));
    for (pitch, index, shift) in
        [(61, 24, -10), (63, 25, 10), (66, 27, -12), (68, 28, 0), (70, 29, 12)]
    {
        let slot = key_slot(pitch);
        assert_eq!((slot.index, slot.black, slot.shift), (index, true, shift));
    }
}

#[test]
fn keys_fill_the_keyboard() {
    // In two-hundredths of a white key.
    let span = |pitch: i32| {
        let slot = key_slot(pitch);
        if slot.black {
            let start = 200 * slot.index + 2 * slot.shift - BLACK_WIDTH;
            (start, start + 2 * BLACK_WIDTH)
        } else {
            (200 * slot.index, 200 * slot.index + 200)
        }
    };
    let mut end = 0;
    for pitch in keys_of_color(false) {
        assert_eq!(span(pitch).0, end);
        end = span(pitch).1;
    }
    assert_eq!(end, 200 * N_WHITE);
    for pitch in keys_of_color(true) {
        let (start, end) = span(pitch);
        assert!(span(pitch - 1).0 < start && start < span(pitch - 1).1);
        assert!(span(pitch + 1).0 < end && end < span(pitch + 1).1);
    }
}

#[test]
fn white_keys_are_drawn_before_black_ones() {
    let order = drawing_order();
    assert_eq!(order.len(), 88);
    assert_eq!(&order[..52], keys_of_color(false).as_slice());
    assert_eq!(&order[52..], keys_of_color(true).as_slice());
    assert_eq!(order[0], 21);
    assert_eq!(order[51], 108);
    assert_eq!(order[52], 22);
    assert_eq!(order[87], 106);
    let mut sorted = order.clone();
    sorted.sort();
    assert_eq!(sorted, (21..=108).collect::<Vec<i32>>());
}

#[test]
fn octave_lines_stand_at_every_c() {
    assert_eq!(octave_lines(), vec![24, 36, 48, 60, 72, 84, 96, 108]);
}

fn reference(state: &mut u64) -> u64 {
    *state = state.wrapping_add(0x9E3779B97F4A7C15);
    let mut z = *state;
    z = (z ^ (z >> 30)).wrapping_mul(0xBF58476D1CE4E5B9);
    z = (z ^ (z >> 27)).wrapping_mul(0x94D049BB133111EB);
    z ^ (z >> 31)
}

#[test]
fn draws_follow_splitmix() {
    for seed in [0u64, 1, 42, u64::MAX] {
        let mut state = seed.wrapping_mul(0x9E3779B97F4A7C15).wrapping_add(1);
        let mut rng = Rng::new(seed);
        for _ in 0..5 {
            assert_eq!(rng.next() as u64, reference(&mut state) >> 40);
        }
    }
}

#[test]
fn seeds() {
    assert_eq!(shard_seed(3, 60), (3u64 << 17) | 60);
    assert_eq!(shard_seed(u32::MAX, 255), ((u32::MAX as u64) << 17) | 255);
    assert_eq!(ember_seed(2, 5), 2u64.wrapping_mul(1315423911) ^ 5u64.wrapping_mul(2654435761));
}

#[test]
fn different_notes_have_different_shards() {
    let mut seen = Vec::new();
    for note in 0..20 {
        for pitch in [0u8, 21, 108, 255] {
            let seed = shard_seed(note, pitch);
            assert!(!seen.contains(&seed));
            seen.push(seed);
        }
    }
}

#[test]
fn ember_ranges() {
    assert_eq!(ember_range(-4, 3), Some((0, 3)));
    assert_eq!(ember_range(2, 2), Some((2, 2)));
    assert_eq!(ember_range(3, 2), None);
    assert_eq!(ember_range(-4, -1), None);
}
