//! End-to-end recognition scenarios: synthesize audio, compute the
//! magnitude spectrogram with a real FFT, run the verified extractor, index
//! and matcher, and check the match decisions and scores.

use rustfft::num_complex::Complex;
use rustfft::FftPlanner;
use sonica_backend::fingerprint::{generate_fingerprints, sample_frames};
use sonica_backend::matcher::find_best_match;
use sonica_backend::storage::Database;
use sonica_backend::types::SongMetadata;

const SAMPLE_RATE: usize = 16000;
const WINDOW: usize = 4096;
const HOP: usize = 2048;

/// Deterministic white noise in [-amp, amp].
fn noise(n: usize, amp: f32, mut seed: u64) -> Vec<f32> {
    let mut out = Vec::with_capacity(n);
    for _ in 0..n {
        seed = seed.wrapping_mul(6364136223846793005).wrapping_add(1442695040888963407);
        let r = ((seed >> 33) as f32) / ((1u64 << 31) as f32); // [0, 1)
        out.push((2.0 * r - 1.0) * amp);
    }
    out
}

/// A sum of stationary sinusoids with additive white noise at roughly
/// -20 dB relative to the signal.
fn synth(seconds: usize, freqs: &[f32], seed: u64) -> Vec<f32> {
    let n = seconds * SAMPLE_RATE;
    let nz = noise(n, 0.05, seed);
    let mut out = Vec::with_capacity(n);
    for i in 0..n {
        let t = i as f32 / SAMPLE_RATE as f32;
        let mut s = 0.0f32;
        for &f in freqs {
            s += 0.18 * (2.0 * std::f32::consts::PI * f * t).sin();
        }
        out.push(s + nz[i]);
    }
    out
}

/// The magnitude spectrogram of the samples, Hann-windowed, as the bit
/// patterns the library's extractor consumes. Framing is the library's
/// `sample_frames`; the FFT and magnitudes are computed here.
fn spectrogram_bits(samples: &[f32]) -> Vec<Vec<u32>> {
    let bits: Vec<u32> = samples.iter().map(|s| s.to_bits()).collect();
    let frames = sample_frames(&bits);
    let mut planner = FftPlanner::new();
    let fft = planner.plan_fft_forward(WINDOW);
    let window: Vec<f32> = (0..WINDOW)
        .map(|i| {
            0.5 * (1.0
                - (2.0 * std::f32::consts::PI * i as f32 / (WINDOW - 1) as f32).cos())
        })
        .collect();
    let mut rows = Vec::with_capacity(frames.len());
    for frame in &frames {
        let mut buffer: Vec<Complex<f32>> = frame
            .iter()
            .zip(&window)
            .map(|(&b, &w)| Complex::new(f32::from_bits(b) * w, 0.0))
            .collect();
        fft.process(&mut buffer);
        let row: Vec<u32> = buffer[0..WINDOW / 2].iter().map(|c| c.norm().to_bits()).collect();
        rows.push(row);
    }
    rows
}

fn fingerprints_of(samples: &[f32]) -> Vec<(u32, u32)> {
    generate_fingerprints(&spectrogram_bits(samples))
}

fn ingest(db: &mut Database, title: &str, artist: &str, path: &str, samples: &[f32]) -> i64 {
    let fps = fingerprints_of(samples);
    assert!(!fps.is_empty(), "reference audio produced no fingerprints");
    db.insert_song(title, artist, path, "2024-01-01 00:00:00", &fps).unwrap()
}

fn recognize(db: &Database, samples: &[f32]) -> Option<(SongMetadata, u64)> {
    let fps = fingerprints_of(samples);
    if fps.is_empty() {
        return None;
    }
    find_best_match(db, &fps)
}

/// The confidence mapping the service applies to an aligned count.
fn score_of(m_best: u64) -> f64 {
    let s = 1.0 - (-(m_best as f64) / 15.0).exp();
    s.clamp(0.0, 1.0)
}

const FREQS_A: [f32; 5] = [440.0, 660.0, 880.0, 1200.0, 1500.0];
const FREQS_B: [f32; 5] = [550.0, 770.0, 990.0, 1320.0, 1650.0];

#[test]
fn empty_corpus_gives_null() {
    let mut db = Database::new();
    db.clear_database();
    let buf = synth(5, &FREQS_A, 11);
    assert!(recognize(&db, &buf).is_none());
}

#[test]
fn buffer_one_short_of_window_is_null() {
    let mut db = Database::new();
    let long = synth(30, &FREQS_A, 1);
    ingest(&mut db, "A", "X", "songs/a.wav", &long);
    let buf = &long[0..WINDOW - 1];
    assert!(spectrogram_bits(buf).is_empty());
    assert!(fingerprints_of(buf).is_empty());
    assert!(recognize(&db, buf).is_none());
}

#[test]
fn buffer_of_exactly_one_window_is_null() {
    let mut db = Database::new();
    let long = synth(30, &FREQS_A, 1);
    ingest(&mut db, "A", "X", "songs/a.wav", &long);
    let buf = &long[0..WINDOW];
    assert_eq!(spectrogram_bits(buf).len(), 0);
    assert!(recognize(&db, buf).is_none());
}

#[test]
fn spectrogram_rows_have_half_window_bins() {
    let buf = synth(3, &FREQS_A, 2);
    let rows = spectrogram_bits(&buf);
    assert_eq!(rows.len(), (buf.len() - WINDOW) / HOP);
    for row in &rows {
        assert_eq!(row.len(), WINDOW / 2);
    }
}

#[test]
fn self_recognition_scores_high() {
    let mut db = Database::new();
    let buf = synth(30, &FREQS_A, 1);
    ingest(&mut db, "A", "X", "songs/a.wav", &buf);
    let (m, count) = recognize(&db, &buf).expect("a track must match its own audio");
    assert_eq!(m.title, "A");
    assert_eq!(m.artist, "X");
    assert!(score_of(count) >= 0.98, "score {} too low", score_of(count));
}

#[test]
fn excerpt_recognition_scores_well() {
    let mut db = Database::new();
    let buf = synth(30, &FREQS_A, 1);
    ingest(&mut db, "A", "X", "songs/a.wav", &buf);
    let excerpt = &buf[160000..240000];
    let (m, count) = recognize(&db, excerpt).expect("an excerpt must match its track");
    assert_eq!(m.title, "A");
    assert!(score_of(count) >= 0.8, "score {} too low", score_of(count));
}

#[test]
fn two_tracks_excerpt_picks_the_right_one() {
    let mut db = Database::new();
    let a = synth(30, &FREQS_A, 1);
    let b = synth(30, &FREQS_B, 2);
    ingest(&mut db, "A", "X", "songs/a.wav", &a);
    ingest(&mut db, "B", "Y", "songs/b.wav", &b);
    let excerpt = &a[80000..240000]; // ten seconds of A
    let (m, _count) = recognize(&db, excerpt).expect("the excerpt must match");
    assert_eq!(m.title, "A");
}

#[test]
fn unrelated_noise_is_rejected() {
    let mut db = Database::new();
    let buf = synth(30, &FREQS_A, 1);
    ingest(&mut db, "A", "X", "songs/a.wav", &buf);
    let q = noise(5 * SAMPLE_RATE, 0.3, 424242);
    assert!(recognize(&db, &q).is_none());
}

#[test]
fn score_grows_with_aligned_count() {
    let mut db = Database::new();
    let buf = synth(30, &FREQS_A, 1);
    ingest(&mut db, "A", "X", "songs/a.wav", &buf);
    let (_, full_count) = recognize(&db, &buf).expect("full buffer must match");
    let (_, part_count) =
        recognize(&db, &buf[160000..240000]).expect("excerpt must match");
    assert!(part_count < full_count);
    let (s_part, s_full) = (score_of(part_count), score_of(full_count));
    assert!(s_part <= s_full);
    assert!((0.0..=1.0).contains(&s_part));
    assert!((0.0..=1.0).contains(&s_full));
    // over counts the mapping can still resolve, growth is strict
    for m in 1u64..200 {
        assert!(score_of(m - 1) < score_of(m), "score not strictly increasing at {}", m);
        assert!((0.0..=1.0).contains(&score_of(m)));
    }
    // fixed points of the confidence mapping
    assert!((score_of(15) - 0.6321).abs() < 0.001);
    assert!((score_of(30) - 0.8647).abs() < 0.001);
}

#[test]
fn duplicate_ingest_keeps_one_row() {
    let mut db = Database::new();
    let buf = synth(10, &FREQS_A, 1);
    let fps = fingerprints_of(&buf);
    db.insert_song("A", "X", "songs/a.wav", "t0", &fps).unwrap();
    // idempotent ingest: the caller checks existence and skips the decode
    let already = db.song_exists_by_path("songs/a.wav");
    assert!(already);
    if !already {
        db.insert_song("A", "X", "songs/a.wav", "t1", &fps).unwrap();
    }
    assert_eq!(db.get_all_songs().len(), 1);
}

#[test]
fn clear_then_reingest_leaves_only_the_new_track() {
    let mut db = Database::new();
    let a = synth(30, &FREQS_A, 1);
    ingest(&mut db, "A", "X", "songs/a.wav", &a);
    db.clear_database();
    let b = synth(30, &FREQS_B, 2);
    ingest(&mut db, "B", "Y", "songs/b.wav", &b);
    let songs = db.get_all_songs();
    assert_eq!(songs.len(), 1);
    assert_eq!(songs[0].title, "B");
    let a_excerpt = &a[160000..240000];
    assert!(recognize(&db, a_excerpt).is_none());
}
