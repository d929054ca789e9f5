use beats::audio::base64::to_base64;

#[test]
fn base64_known_texts() {
    assert_eq!(to_base64(b""), "");
    assert_eq!(to_base64(b"f"), "Zg==");
    assert_eq!(to_base64(b"fo"), "Zm8=");
    assert_eq!(to_base64(b"foo"), "Zm9v");
    assert_eq!(to_base64(b"foob"), "Zm9vYg==");
    assert_eq!(to_base64(b"foobar"), "Zm9vYmFy");
    assert_eq!(to_base64(&[0xfb, 0xff, 0xbf]), "+/+/");
}
