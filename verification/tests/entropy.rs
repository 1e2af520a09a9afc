use gaffrie::entropy_plot::EntropyPlot;

/// Shannon entropy in bits of a 256-bucket histogram, as the presentation
/// layer derives it from the profile.
fn entropy_of_histogram(counts: &[u64]) -> f64 {
    let total: u64 = counts.iter().sum();
    if total == 0 {
        return 0.0;
    }
    let mut entropy = 0.0;
    for &count in counts {
        if count > 0 {
            let p = count as f64 / total as f64;
            entropy -= p * p.log2();
        }
    }
    entropy
}

#[test]
fn empty_buffer_profiles_to_no_chunks() {
    let plot = EntropyPlot::new(b"");
    assert_eq!(plot.chunks.len(), 0);
}

#[test]
fn short_buffers_profile_byte_by_byte() {
    // shorter than the target chunk count: chunk size is clamped to one
    let plot = EntropyPlot::new(&[7u8, 7, 9]);
    assert_eq!(plot.chunks.len(), 3);
    assert_eq!(plot.chunks[0][7], 1);
    assert_eq!(plot.chunks[1][7], 1);
    assert_eq!(plot.chunks[2][9], 1);
    assert_eq!(plot.chunks[2][7], 0);
}

#[test]
fn trailing_bytes_form_a_final_shorter_chunk() {
    // 2500 bytes, chunk size 2: 1250 chunks; 2501 bytes: 1251 chunks
    let plot = EntropyPlot::new(&vec![1u8; 2500]);
    assert_eq!(plot.chunks.len(), 1250);
    let plot = EntropyPlot::new(&vec![1u8; 2501]);
    assert_eq!(plot.chunks.len(), 1251);
    let last = plot.chunks.last().unwrap();
    let total: u64 = last.iter().sum();
    assert_eq!(total, 1);
}

#[test]
fn a_single_repeated_byte_yields_entropy_zero_for_every_chunk() {
    let plot = EntropyPlot::new(&vec![0xAAu8; 5000]);
    assert_eq!(plot.chunks.len(), 1000);
    for h in &plot.chunks {
        assert_eq!(h[0xAA], 5);
        let e = entropy_of_histogram(h);
        assert_eq!(e, 0.0);
    }
}

#[test]
fn a_chunk_using_all_byte_values_equally_yields_entropy_eight() {
    let mut data: Vec<u8> = Vec::with_capacity(256_000);
    for _ in 0..1000 {
        for v in 0..=255u8 {
            data.push(v);
        }
    }
    let plot = EntropyPlot::new(&data);
    assert_eq!(plot.chunks.len(), 1000);
    for h in &plot.chunks {
        let e = entropy_of_histogram(h);
        assert!((e - 8.0).abs() < 1e-9);
    }
}

#[test]
fn entropy_stays_within_zero_and_eight() {
    let mut data: Vec<u8> = Vec::with_capacity(4096);
    let mut x: u32 = 12345;
    for _ in 0..4096 {
        // a small deterministic pseudo-random walk over byte values
        x = x.wrapping_mul(1103515245).wrapping_add(12345);
        data.push((x >> 16) as u8);
    }
    let plot = EntropyPlot::new(&data);
    assert_eq!(plot.chunks.len(), 1024);
    for h in &plot.chunks {
        let e = entropy_of_histogram(h);
        assert!(e >= 0.0);
        assert!(e <= 8.0);
    }
}

#[test]
fn notify_reprofiles_against_the_new_buffer() {
    let mut plot = EntropyPlot::new(b"abc");
    assert_eq!(plot.chunks.len(), 3);
    plot.notify(gaffrie::Event::FileChanged, b"zz");
    assert_eq!(plot.chunks.len(), 2);
    assert_eq!(plot.chunks[0][b'z' as usize], 1);
    assert_eq!(plot.title(), "Entropy Plot");
}
