//! Unit tests of the fingerprint extractor: framing, peak picking, pair
//! hashing and the hash layout.

use sonica_backend::fingerprint::{
    find_peaks, generate_fingerprints, num_frames, pair_hashes, sample_frames, sort_peaks,
    HOP_SIZE, WINDOW_SIZE,
};

fn bits(x: f32) -> u32 {
    x.to_bits()
}

/// A `rows x 2048` magnitude matrix of zeros, as bit patterns.
fn zero_matrix(rows: usize) -> Vec<Vec<u32>> {
    let mut m = Vec::new();
    for _ in 0..rows {
        m.push(vec![0u32; 2048]);
    }
    m
}

#[test]
fn frame_count_below_one_window_is_zero() {
    assert_eq!(num_frames(WINDOW_SIZE - 1), 0);
    let samples = vec![0u32; WINDOW_SIZE - 1];
    let frames = sample_frames(&samples);
    assert!(frames.is_empty());
}

#[test]
fn frame_count_at_one_window_is_zero() {
    assert_eq!(num_frames(WINDOW_SIZE), 0);
    let samples = vec![0u32; WINDOW_SIZE];
    assert!(sample_frames(&samples).is_empty());
}

#[test]
fn frame_count_formula() {
    for extra in [0usize, 1, HOP_SIZE - 1, HOP_SIZE, 3 * HOP_SIZE + 7] {
        let n = WINDOW_SIZE + extra;
        assert_eq!(num_frames(n), extra / HOP_SIZE);
        let samples: Vec<u32> = (0..n as u32).collect();
        let frames = sample_frames(&samples);
        assert_eq!(frames.len(), extra / HOP_SIZE);
        for (t, frame) in frames.iter().enumerate() {
            assert_eq!(frame.len(), WINDOW_SIZE);
            assert_eq!(frame[0], (t * HOP_SIZE) as u32);
            assert_eq!(frame[WINDOW_SIZE - 1], (t * HOP_SIZE + WINDOW_SIZE - 1) as u32);
        }
    }
}

#[test]
fn picked_peaks_are_maxima_above_floor() {
    let mut m = zero_matrix(30);
    m[10][30] = bits(5.0);
    m[10][120] = bits(3.5);
    m[9][120] = bits(2.0);
    m[11][120] = bits(3.5); // equal neighbour still allows the peak
    m[20][300] = bits(2.5);
    m[5][700] = bits(0.9); // below the noise floor: never picked
    let peaks = find_peaks(&m);
    assert!(peaks.contains(&(10, 30)));
    assert!(peaks.contains(&(10, 120)));
    assert!(peaks.contains(&(20, 300)));
    for &(t, f) in &peaks {
        let v = m[t][f];
        assert!(f32::from_bits(v) > 1.0);
        if t >= 1 {
            assert!(m[t - 1][f] <= v);
        }
        if t >= 2 {
            assert!(m[t - 2][f] <= v);
        }
        if t + 1 < m.len() {
            assert!(m[t + 1][f] <= v);
        }
        if t + 2 < m.len() {
            assert!(m[t + 2][f] <= v);
        }
    }
    assert!(!peaks.contains(&(5, 700)));
}

#[test]
fn greater_neighbour_rejects_peak() {
    let mut m = zero_matrix(10);
    m[5][100] = bits(3.0);
    m[6][100] = bits(3.5); // strictly greater one frame later
    let peaks = find_peaks(&m);
    assert!(!peaks.iter().any(|&(t, f)| t == 5 && f == 100));
    // frame 6 itself is a peak: nothing above it
    assert!(peaks.contains(&(6, 100)));
}

#[test]
fn band_maximum_keeps_first_of_equal_bins() {
    let mut m = zero_matrix(5);
    m[2][60] = bits(2.0);
    m[2][61] = bits(2.0); // same value, later bin: the earlier bin wins
    let peaks = find_peaks(&m);
    assert!(peaks.contains(&(2, 60)));
    assert!(!peaks.contains(&(2, 61)));
}

#[test]
fn target_zone_boundaries() {
    for (dt, expect) in [(4usize, 0usize), (5, 1), (50, 1), (51, 0)] {
        let peaks = vec![(0usize, 100usize), (dt, 200usize)];
        let hashes = pair_hashes(&peaks);
        assert_eq!(hashes.len(), expect, "dt = {}", dt);
        if expect == 1 {
            let (h, off) = hashes[0];
            assert_eq!(h, (100u32 << 23) | (200u32 << 14) | dt as u32);
            assert_eq!(off, 0);
        }
    }
}

#[test]
fn bin_500_is_kept_bin_600_is_filtered() {
    // An anchor in the top band at bin 500: picked, and 500 < 512 keeps it
    // in the hash. The same layout with bin 600: picked, but filtered from
    // hashing.
    let mut m = zero_matrix(60);
    m[10][500] = bits(2.0);
    m[20][300] = bits(2.0);
    let peaks = find_peaks(&m);
    assert!(peaks.contains(&(10, 500)));
    let hashes = generate_fingerprints(&m);
    assert_eq!(hashes.len(), 1);
    assert_eq!(hashes[0].0, (500u32 << 23) | (300u32 << 14) | 10);
    assert_eq!(hashes[0].1, 10);

    let mut m2 = zero_matrix(60);
    m2[10][600] = bits(2.0);
    m2[20][300] = bits(2.0);
    let peaks2 = find_peaks(&m2);
    assert!(peaks2.contains(&(10, 600)));
    let hashes2 = generate_fingerprints(&m2);
    assert!(hashes2.is_empty());
}

#[test]
fn hash_layout_round_trips() {
    let mut m = zero_matrix(80);
    m[5][40] = bits(4.0);
    m[12][150] = bits(3.0);
    m[30][400] = bits(2.5);
    m[40][510] = bits(2.0);
    let hashes = generate_fingerprints(&m);
    assert!(!hashes.is_empty());
    for &(h, _off) in &hashes {
        let f1 = (h >> 23) & 0x1FF;
        let f2 = (h >> 14) & 0x1FF;
        let dt = h & 0x3FFF;
        assert!(f1 < 512);
        assert!(f2 < 512);
        assert!((5..=50).contains(&dt));
        assert_eq!((f1 << 23) | (f2 << 14) | dt, h);
    }
}

#[test]
fn peaks_sorted_stably_by_frame() {
    let peaks = vec![(7usize, 1usize), (3, 2), (7, 3), (3, 4), (1, 5)];
    let sorted = sort_peaks(&peaks);
    assert_eq!(sorted, vec![(1, 5), (3, 2), (3, 4), (7, 1), (7, 3)]);
}

#[test]
fn empty_spectrogram_no_peaks_no_hashes() {
    let m: Vec<Vec<u32>> = Vec::new();
    assert!(find_peaks(&m).is_empty());
    assert!(generate_fingerprints(&m).is_empty());
}

#[test]
fn extractor_is_deterministic() {
    let mut m = zero_matrix(40);
    m[4][10] = bits(2.0);
    m[11][190] = bits(3.0);
    m[19][450] = bits(2.2);
    let a = generate_fingerprints(&m);
    let b = generate_fingerprints(&m);
    assert_eq!(a, b);
}
