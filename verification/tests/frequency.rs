use gaffrie::frequency_image::FrequencyImage;

#[test]
fn counts_of_a_small_buffer() {
    let image = FrequencyImage::new(&[1u8, 2, 1, 2]);
    assert_eq!(image.counts.len(), 65536);
    assert_eq!(image.counts[1 * 256 + 2], 2);
    assert_eq!(image.counts[2 * 256 + 1], 1);
    assert_eq!(image.counts[0], 0);
    assert_eq!(image.max_count, 2);
}

#[test]
fn total_of_all_counts_is_the_number_of_adjacent_pairs() {
    for len in [0usize, 1, 2, 3, 10, 257] {
        let data: Vec<u8> = (0..len).map(|i| (i * 31 % 256) as u8).collect();
        let image = FrequencyImage::new(&data);
        let total: u64 = image.counts.iter().sum();
        let expected = if len == 0 { 0 } else { (len - 1) as u64 };
        assert_eq!(total, expected);
    }
}

#[test]
fn empty_and_single_byte_buffers_count_nothing() {
    let image = FrequencyImage::new(b"");
    assert_eq!(image.max_count, 0);
    assert!(image.counts.iter().all(|&c| c == 0));
    let image = FrequencyImage::new(b"x");
    assert_eq!(image.max_count, 0);
    assert!(image.counts.iter().all(|&c| c == 0));
}

#[test]
fn max_count_is_the_largest_entry() {
    let image = FrequencyImage::new(&[9u8, 9, 9, 9, 5, 9]);
    // pairs: (9,9) x3, (9,5), (5,9)
    assert_eq!(image.counts[9 * 256 + 9], 3);
    assert_eq!(image.max_count, 3);
    for &c in image.counts.iter() {
        assert!(c <= image.max_count);
    }
}

#[test]
fn intensity_mapping_of_the_counts_is_a_valid_greyscale() {
    // the presentation layer's log-normalized intensity, checked on the
    // verified counts: the maximum maps to 255, zero to 0
    let image = FrequencyImage::new(&[9u8, 9, 9, 9, 5, 9]);
    let max_count = image.max_count;
    let intensity = |count: u64| -> u8 {
        if count == 0 || max_count == 0 {
            0
        } else {
            (((count as f32).ln() / (max_count as f32).ln()) * 255.0) as u8
        }
    };
    assert_eq!(intensity(image.counts[9 * 256 + 9]), 255);
    assert_eq!(intensity(image.counts[0]), 0);
}

#[test]
fn notify_recounts_against_the_new_buffer() {
    let mut image = FrequencyImage::new(&[1u8, 2, 1, 2]);
    image.notify(gaffrie::Event::FileChanged, &[3u8, 3]);
    assert_eq!(image.counts[1 * 256 + 2], 0);
    assert_eq!(image.counts[3 * 256 + 3], 1);
    assert_eq!(image.max_count, 1);
    assert_eq!(image.title(), "Byte pairs frequency");
}
