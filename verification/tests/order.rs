use beats::order::{count_until, pick, sort_order, sort_times, times_order};

fn bits(times: &[f64]) -> Vec<u64> {
    times.iter().map(|t| t.to_bits()).collect()
}

#[test]
fn sorts_stably() {
    assert_eq!(sort_order(&[5, 1, 5, -3, 1]), vec![3, 1, 4, 0, 2]);
    assert_eq!(sort_order(&[]), Vec::<usize>::new());
    assert_eq!(sort_order(&[2, 2, 2]), vec![0, 1, 2]);
    assert_eq!(sort_order(&[3, 2, 1]), vec![2, 1, 0]);
}

#[test]
fn same_order_as_the_standard_sort() {
    let mut keys: Vec<i64> = Vec::new();
    let mut x: u64 = 12345;
    for _ in 0..400 {
        x = x.wrapping_mul(6364136223846793005).wrapping_add(1442695040888963407);
        keys.push((x >> 58) as i64 - 32);
    }
    let mut expected: Vec<usize> = (0..keys.len()).collect();
    expected.sort_by_key(|i| keys[*i]);
    assert_eq!(sort_order(&keys), expected);
}

#[test]
fn sorts_times_with_negative_ones() {
    let sorted = sort_times(&bits(&[1.5, -2.0, 0.25, -0.5, 0.25]));
    assert_eq!(sorted, bits(&[-2.0, -0.5, 0.25, 0.25, 1.5]));
    assert_eq!(times_order(&bits(&[1.5, -2.0, 0.25])), vec![1, 2, 0]);
}

#[test]
fn zeros_of_both_signs_keep_their_order() {
    assert_eq!(sort_times(&bits(&[0.0, -0.0, 0.0])), bits(&[0.0, -0.0, 0.0]));
}

#[test]
fn a_single_time_needs_no_comparison() {
    assert_eq!(sort_times(&[f64::NAN.to_bits()]), vec![f64::NAN.to_bits()]);
}

#[test]
fn picks_by_index() {
    assert_eq!(pick(&['a', 'b', 'c'], &[2, 0, 2]), vec!['c', 'a', 'c']);
}

#[test]
fn counts_times_until() {
    let beats = bits(&[0.0, 0.55, 1.1, 1.1, 1.65]);
    for (t, expected) in [(-1.0, 0), (0.0, 1), (0.3, 1), (0.55, 2), (1.1, 4), (1.2, 4), (9.0, 5)] {
        assert_eq!(count_until(&beats, f64::to_bits(t)), expected);
    }
    assert_eq!(count_until(&beats, f64::NAN.to_bits()), 0);
    assert_eq!(count_until(&[], f64::to_bits(1.0)), 0);
}

#[test]
fn later_times_count_no_less() {
    let beats = bits(&[0.0, 0.5, 0.5, 2.0]);
    let mut last = 0;
    for i in 0..30 {
        let n = count_until(&beats, f64::to_bits(i as f64 * 0.1 - 0.4));
        assert!(n >= last);
        last = n;
    }
}

#[test]
fn sorting_rearranges() {
    let times: Vec<u64> = [2.0, -1.0, 2.0, 0.0, -0.0, 7.5].iter().map(|t: &f64| t.to_bits()).collect();
    let mut sorted = sort_times(&times);
    let mut given = times.clone();
    sorted.sort();
    given.sort();
    assert_eq!(sorted, given);
}
