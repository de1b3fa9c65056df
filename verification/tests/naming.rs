use txt2mp3::naming::segment_file_name;

#[test]
fn index_is_padded_to_three_digits() {
    assert_eq!(segment_file_name("out/audio", 0), "out/audio_000.mp3");
    assert_eq!(segment_file_name("out/audio", 7), "out/audio_007.mp3");
    assert_eq!(segment_file_name("out/audio", 10), "out/audio_010.mp3");
    assert_eq!(segment_file_name("out/audio", 42), "out/audio_042.mp3");
    assert_eq!(segment_file_name("out/audio", 99), "out/audio_099.mp3");
    assert_eq!(segment_file_name("out/audio", 100), "out/audio_100.mp3");
    assert_eq!(segment_file_name("out/audio", 123), "out/audio_123.mp3");
}

#[test]
fn index_beyond_three_digits_is_written_in_full() {
    assert_eq!(segment_file_name("a", 999), "a_999.mp3");
    assert_eq!(segment_file_name("a", 1000), "a_1000.mp3");
    assert_eq!(segment_file_name("a", 1_234_567), "a_1234567.mp3");
    assert_eq!(segment_file_name("a", u32::MAX), "a_4294967295.mp3");
}

#[test]
fn file_name_agrees_with_formatting() {
    let mut index: u32 = 0;
    for _ in 0..2000 {
        assert_eq!(
            segment_file_name("20260101_120000/book/audio", index),
            format!("{}_{:03}.mp3", "20260101_120000/book/audio", index)
        );
        index = index.wrapping_mul(31).wrapping_add(17);
    }
}

#[test]
fn prefix_is_taken_as_it_is() {
    assert_eq!(segment_file_name("", 5), "_005.mp3");
    assert_eq!(segment_file_name("日本語/音声", 5), "日本語/音声_005.mp3");
}
