use block_mean_hash::compute_hash;
use block_mean_hash::HashError;
use block_mean_hash::Pixel;
use block_mean_hash::PixelBuffer;

fn gray(v: u8) -> Pixel {
    Pixel { r: v, g: v, b: v, a: 255 }
}

fn buffer_from_grays(width: usize, height: usize, grays: &[u8]) -> PixelBuffer {
    assert_eq!(grays.len(), width * height);
    let pixels: Vec<Pixel> = grays.iter().map(|&v| gray(v)).collect();
    PixelBuffer { width, height, pixels }
}

fn uniform_buffer(width: usize, height: usize, v: u8) -> PixelBuffer {
    let pixels = vec![gray(v); width * height];
    PixelBuffer { width, height, pixels }
}

/// A deterministic test pattern.
fn patterned_buffer(width: usize, height: usize) -> PixelBuffer {
    let mut pixels = Vec::new();
    for y in 0..height {
        for x in 0..width {
            let v = ((x * 31 + y * 17 + x * y) % 256) as u8;
            pixels.push(gray(v));
        }
    }
    PixelBuffer { width, height, pixels }
}

fn hamming(a: &[bool], b: &[bool]) -> usize {
    assert_eq!(a.len(), b.len());
    a.iter().zip(b.iter()).filter(|(x, y)| x != y).count()
}

#[test]
fn determinism_same_buffer_same_hash() {
    let buf = patterned_buffer(17, 13);
    for &n in &[4usize, 8, 12, 16] {
        let h1 = compute_hash(&buf, n).unwrap();
        let h2 = compute_hash(&buf, n).unwrap();
        assert_eq!(h1.bits, h2.bits);
        assert_eq!(h1.to_hex(), h2.to_hex());
    }
}

#[test]
fn output_length_is_n_squared() {
    let buf = patterned_buffer(10, 7);
    let expected = [(4usize, 16usize), (8, 64), (12, 144), (16, 256)];
    for &(n, bits) in &expected {
        let h = compute_hash(&buf, n).unwrap();
        assert_eq!(h.bit_count(), bits);
        assert_eq!(h.bits.len(), bits);
        assert_eq!(h.to_hex().len(), bits / 4);
        assert_eq!(h.to_hex_bytes().len(), bits / 4);
    }
}

#[test]
fn uniform_image_hashes_to_all_zeros() {
    let sizes = [(1usize, 1usize), (2, 3), (5, 5), (16, 16), (17, 13), (64, 64)];
    for &(w, h) in &sizes {
        let buf = uniform_buffer(w, h, 100);
        for &n in &[4usize, 8, 12, 16] {
            let hash = compute_hash(&buf, n).unwrap();
            let expected: String = "0".repeat(n * n / 4);
            assert_eq!(hash.to_hex(), expected, "size {}x{} n {}", w, h, n);
            assert!(hash.bits.iter().all(|&b| !b));
        }
    }
}

/// The naive equal-rectangle hash of an image whose dimensions are exact
/// multiples of `n`, computed independently with plain integer sums.
fn naive_hash_bits(buf: &PixelBuffer, n: usize) -> Vec<bool> {
    let w0 = buf.width / n;
    let h0 = buf.height / n;
    let mut sums = vec![0u64; n * n];
    for by in 0..n {
        for bx in 0..n {
            let mut s = 0u64;
            for y in by * h0..(by + 1) * h0 {
                for x in bx * w0..(bx + 1) * w0 {
                    let p = &buf.pixels[y * buf.width + x];
                    s += p.r as u64 + p.g as u64 + p.b as u64;
                }
            }
            sums[by * n + bx] = s;
        }
    }
    let mut bits = Vec::new();
    for by in 0..n {
        let mut row: Vec<u64> = sums[by * n..(by + 1) * n].to_vec();
        row.sort();
        let threshold = row[n / 2 - 1] + row[n / 2];
        for bx in 0..n {
            bits.push(2 * sums[by * n + bx] > threshold);
        }
    }
    bits
}

#[test]
fn exact_division_matches_naive_partition() {
    let buf = patterned_buffer(16, 16);
    let h = compute_hash(&buf, 4).unwrap();
    assert_eq!(h.bits, naive_hash_bits(&buf, 4));

    let buf2 = patterned_buffer(32, 48);
    for &n in &[4usize, 8, 16] {
        let h2 = compute_hash(&buf2, n).unwrap();
        assert_eq!(h2.bits, naive_hash_bits(&buf2, n), "n {}", n);
    }
}

#[test]
fn two_x_upscale_keeps_hash_close() {
    let reference = patterned_buffer(24, 18);
    let mut up_grays = Vec::new();
    for y in 0..36 {
        for x in 0..48 {
            let p = &reference.pixels[(y / 2) * 24 + (x / 2)];
            up_grays.push(p.r);
        }
    }
    let upscaled = buffer_from_grays(48, 36, &up_grays);
    for &n in &[4usize, 8, 12, 16] {
        let h1 = compute_hash(&reference, n).unwrap();
        let h2 = compute_hash(&upscaled, n).unwrap();
        assert!(hamming(&h1.bits, &h2.bits) <= 2, "n {}", n);
        assert_eq!(h1.bits, h2.bits, "n {}", n);
    }
}

#[test]
fn odd_dimensions_produce_full_hash() {
    let buf = patterned_buffer(17, 13);
    let h = compute_hash(&buf, 4).unwrap();
    assert_eq!(h.bits.len(), 16);
    assert_eq!(h.to_hex().len(), 4);
}

#[test]
fn image_smaller_than_grid_is_valid() {
    let buf = patterned_buffer(3, 2);
    for &n in &[4usize, 8, 12, 16] {
        let h = compute_hash(&buf, n).unwrap();
        assert_eq!(h.bits.len(), n * n);
    }
}

#[test]
fn row_median_tie_resolves_to_zero() {
    // One row of four one-pixel blocks with intensities 30, 30, 30, 90:
    // the two middle values of the sorted row are both 30, so the median
    // is 30; the three blocks equal to it must give 0, the larger one 1.
    let buf = buffer_from_grays(4, 1, &[10, 10, 10, 30]);
    let h = compute_hash(&buf, 4).unwrap();
    for by in 0..4 {
        assert_eq!(
            &h.bits[4 * by..4 * by + 4],
            &[false, false, false, true],
            "grid row {}",
            by
        );
    }
    assert_eq!(h.to_hex(), "1111");
}

#[test]
fn row_median_tie_with_values_on_both_sides() {
    // Row values 0, 600, 600, 1200: the two middle values are both 600, so
    // the median is 600; the two blocks equal to it resolve to 0, the one
    // below stays 0, and only the block above the median gives 1.
    let buf = buffer_from_grays(4, 1, &[0, 50, 50, 100]);
    let h = compute_hash(&buf, 4).unwrap();
    for by in 0..4 {
        assert_eq!(&h.bits[4 * by..4 * by + 4], &[false, false, false, true], "grid row {}", by);
    }
    assert_eq!(h.to_hex(), "1111");
}

#[test]
fn known_two_pixel_hash() {
    // Two pixels wider than the blocks: each pixel covers two blocks, so
    // each grid row reads 0, 0, 600, 600; the median pair sum is 600 and
    // only the two right blocks exceed the median.
    let buf = buffer_from_grays(2, 1, &[0, 100]);
    let h = compute_hash(&buf, 4).unwrap();
    assert_eq!(h.to_hex(), "3333");
}

#[test]
fn invalid_granularity_is_rejected() {
    let buf = uniform_buffer(8, 8, 10);
    for &n in &[0usize, 1, 2, 3, 5, 6, 7, 9, 10, 11, 13, 14, 15, 17, 32, 100] {
        assert!(matches!(compute_hash(&buf, n), Err(HashError::InvalidGranularity)));
    }
}

#[test]
fn empty_buffer_is_rejected() {
    let empty_w = PixelBuffer { width: 0, height: 5, pixels: Vec::new() };
    assert!(matches!(compute_hash(&empty_w, 8), Err(HashError::EmptyOrDegenerateBuffer)));
    let empty_h = PixelBuffer { width: 5, height: 0, pixels: Vec::new() };
    assert!(matches!(compute_hash(&empty_h, 16), Err(HashError::EmptyOrDegenerateBuffer)));
    let empty_both = PixelBuffer { width: 0, height: 0, pixels: Vec::new() };
    assert!(matches!(compute_hash(&empty_both, 4), Err(HashError::EmptyOrDegenerateBuffer)));
}

#[test]
fn invalid_granularity_takes_precedence_over_empty() {
    let empty = PixelBuffer { width: 0, height: 0, pixels: Vec::new() };
    assert!(matches!(compute_hash(&empty, 5), Err(HashError::InvalidGranularity)));
}

#[test]
fn buffer_constructor_checks_dimensions() {
    let pixels = vec![gray(1); 6];
    let ok = PixelBuffer::new(2, 3, pixels.clone());
    assert!(ok.is_some());
    let buf = ok.unwrap();
    assert_eq!(buf.width, 2);
    assert_eq!(buf.height, 3);
    assert!(PixelBuffer::new(2, 2, pixels.clone()).is_none());
    assert!(PixelBuffer::new(7, 1, pixels).is_none());
}

#[test]
fn alpha_is_ignored() {
    let mut a = patterned_buffer(9, 9);
    let mut b = patterned_buffer(9, 9);
    for p in a.pixels.iter_mut() {
        p.a = 0;
    }
    for p in b.pixels.iter_mut() {
        p.a = 255;
    }
    for &n in &[4usize, 16] {
        assert_eq!(compute_hash(&a, n).unwrap().bits, compute_hash(&b, n).unwrap().bits);
    }
}

#[test]
fn hex_digits_cover_full_alphabet() {
    // A single row of sixteen one-pixel blocks, eight low then eight high:
    // each grid row reads eight zeros then eight high values, giving bits
    // 0000000011111111 and hex digits both '0' and 'f'.
    let mut grays = [0u8; 16];
    for x in 8..16 {
        grays[x] = 200;
    }
    let buf = buffer_from_grays(16, 1, &grays);
    let h = compute_hash(&buf, 16).unwrap();
    let hex = h.to_hex();
    assert_eq!(hex.len(), 64);
    for (i, c) in hex.chars().enumerate() {
        if i % 4 < 2 {
            assert_eq!(c, '0', "digit {}", i);
        } else {
            assert_eq!(c, 'f', "digit {}", i);
        }
    }
}
