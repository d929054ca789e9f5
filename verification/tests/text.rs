use beats::text::{decimal, joined};

#[test]
fn decimal_numbers() {
    for n in [0u64, 7, 9, 10, 99, 100, 1280, 65536, 4294967295, 18446744073709551615] {
        assert_eq!(decimal(n), n.to_string());
    }
}

#[test]
fn decimal_reads_back() {
    for n in [0u64, 10, 101, 9876543210] {
        assert_eq!(decimal(n).parse::<u64>().unwrap(), n);
    }
}

#[test]
fn joined_texts() {
    assert_eq!(joined("song.mp3", ".peaks"), "song.mp3.peaks");
    assert_eq!(joined("", "\u{e9}"), "\u{e9}");
}
