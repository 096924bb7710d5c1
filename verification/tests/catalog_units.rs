//! Unit tests of the fingerprint index and the offset-histogram matcher.

use sonica_backend::matcher::{best_alignment_count, find_best_match, MATCH_THRESHOLD};
use sonica_backend::media::is_audio_file;
use sonica_backend::storage::Database;
use sonica_backend::types::StorageError;

#[test]
fn new_catalog_is_empty() {
    let db = Database::new();
    assert!(db.get_all_songs().is_empty());
    assert!(db.find_matches(&vec![(1u32, 0u32), (2, 5)]).is_empty());
}

#[test]
fn insert_assigns_monotonic_ids() {
    let mut db = Database::new();
    let a = db.insert_song("A", "X", "songs/a.wav", "t0", &vec![(10u32, 0u32)]).unwrap();
    let b = db.insert_song("B", "Y", "songs/b.wav", "t1", &vec![(11u32, 0u32)]).unwrap();
    assert_eq!(a, 1);
    assert_eq!(b, 2);
    let songs = db.get_all_songs();
    assert_eq!(songs.len(), 2);
    // newest first
    assert_eq!(songs[0].title, "B");
    assert_eq!(songs[1].title, "A");
}

#[test]
fn duplicate_source_key_is_rejected() {
    let mut db = Database::new();
    db.insert_song("A", "X", "songs/a.wav", "t0", &vec![(10u32, 0u32)]).unwrap();
    assert!(db.song_exists_by_path("songs/a.wav"));
    let again = db.insert_song("A", "X", "songs/a.wav", "t1", &vec![(10u32, 0u32)]);
    assert_eq!(again, Err(StorageError::DuplicateKey));
    assert_eq!(db.get_all_songs().len(), 1);
}

#[test]
fn metadata_lookup_by_id() {
    let mut db = Database::new();
    let id = db.insert_song("Title", "Artist", "songs/t.mp3", "now", &Vec::new()).unwrap();
    let m = db.get_song_metadata(id).unwrap();
    assert_eq!(m.id, id);
    assert_eq!(m.title, "Title");
    assert_eq!(m.artist, "Artist");
    assert_eq!(m.path, "songs/t.mp3");
    assert_eq!(m.created_at, "now");
    assert!(db.get_song_metadata(id + 1).is_none());
}

#[test]
fn lookup_groups_by_track_in_first_seen_order() {
    let mut db = Database::new();
    let a = db.insert_song("A", "X", "a", "t", &vec![(7u32, 3u32), (9, 4)]).unwrap();
    let b = db.insert_song("B", "Y", "b", "t", &vec![(9u32, 8u32)]).unwrap();
    let groups = db.find_matches(&vec![(9u32, 1u32), (7, 2)]);
    assert_eq!(groups.len(), 2);
    assert_eq!(groups[0].0, a);
    assert_eq!(groups[0].1, vec![(4u32, 1u32), (3, 2)]);
    assert_eq!(groups[1].0, b);
    assert_eq!(groups[1].1, vec![(8u32, 1u32)]);
}

#[test]
fn histogram_mode_counts_aligned_offsets() {
    // deltas: 5 appears three times, 2 twice, -1 once
    let offsets = vec![
        (10u32, 5u32),
        (7, 2),
        (4, 2),
        (12, 7),
        (3, 4),
        (9, 7),
    ];
    assert_eq!(best_alignment_count(&offsets), 3);
    assert_eq!(best_alignment_count(&Vec::new()), 0);
}

#[test]
fn matcher_needs_count_above_threshold() {
    let mut db = Database::new();
    // nine fingerprints, identical layout: recognizing the same list aligns
    // all nine at delta zero, which is strictly above the threshold of 8
    let fps: Vec<(u32, u32)> = (0..9).map(|i| ((i as u32) << 14 | 5, i as u32)).collect();
    db.insert_song("A", "X", "a", "t", &fps).unwrap();
    let matched = find_best_match(&db, &fps).expect("nine aligned pairs must match");
    assert_eq!(matched.0.title, "A");
    assert_eq!(matched.1, 9);
    assert!(matched.1 > MATCH_THRESHOLD);

    // eight aligned pairs are not enough
    let mut db8 = Database::new();
    let fps8: Vec<(u32, u32)> = (0..8).map(|i| ((i as u32) << 14 | 5, i as u32)).collect();
    db8.insert_song("A", "X", "a", "t", &fps8).unwrap();
    assert!(find_best_match(&db8, &fps8).is_none());
}

#[test]
fn matcher_is_deterministic_given_same_state() {
    let mut db1 = Database::new();
    let mut db2 = Database::new();
    let fps: Vec<(u32, u32)> = (0..20).map(|i| ((i as u32 % 4) << 14 | 7, i as u32)).collect();
    db1.insert_song("A", "X", "a", "t", &fps).unwrap();
    db2.insert_song("A", "X", "a", "t", &fps).unwrap();
    let q: Vec<(u32, u32)> = fps.iter().map(|&(h, o)| (h, o + 3)).collect();
    let r1 = find_best_match(&db1, &q);
    let r2 = find_best_match(&db2, &q);
    match (r1, r2) {
        (Some((m1, c1)), Some((m2, c2))) => {
            assert_eq!(m1.id, m2.id);
            assert_eq!(c1, c2);
        }
        (None, None) => {}
        _ => panic!("matcher gave different outcomes for equal states"),
    }
}

#[test]
fn clear_empties_tracks_and_postings() {
    let mut db = Database::new();
    let fps: Vec<(u32, u32)> = (0..30).map(|i| (100 + i as u32, i as u32)).collect();
    db.insert_song("A", "X", "a", "t", &fps).unwrap();
    db.clear_database();
    assert!(db.get_all_songs().is_empty());
    let q: Vec<(u32, u32)> = (0..200u32).map(|i| (100 + i, i)).collect();
    assert!(db.find_matches(&q).is_empty());
    assert!(find_best_match(&db, &q).is_none());
}

#[test]
fn empty_query_matches_nothing() {
    let mut db = Database::new();
    db.insert_song("A", "X", "a", "t", &vec![(1u32, 0u32)]).unwrap();
    assert!(find_best_match(&db, &Vec::new()).is_none());
}

#[test]
fn audio_files_recognised_by_extension() {
    assert!(is_audio_file("songs/track.mp3"));
    assert!(is_audio_file("songs/track.MP3"));
    assert!(is_audio_file("track.FlAc"));
    assert!(is_audio_file("a/b/c.opus"));
    assert!(is_audio_file("x.wav"));
    assert!(is_audio_file("x.m4a"));
    assert!(is_audio_file("x.aac"));
    assert!(is_audio_file("x.ogg"));
    assert!(is_audio_file("x.wma"));
    assert!(!is_audio_file("x.txt"));
    assert!(!is_audio_file("no_extension"));
    assert!(!is_audio_file(".mp3"));
    assert!(!is_audio_file("dir.mp3/file"));
    assert!(!is_audio_file("trailing.dot."));
}
