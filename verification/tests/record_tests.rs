use std::collections::HashSet;
use songseeker::record::{batches, csv_path, record_blocked, select_sets, ParsedRecord, Record};
use songseeker::song::Song;

fn song(number: u32, url: &str) -> Song {
    Song {
        number,
        title: format!("Title {}", number),
        artist: format!("Artist {}", number),
        year: 1990,
        url: url.to_string(),
        hashed: String::new(),
        youtube_title: String::new(),
    }
}

fn record(file: &str, game: &str) -> Record {
    Record { file: file.to_string(), game: game.to_string() }
}

fn strings(v: &[&str]) -> Vec<String> {
    v.iter().map(|s| s.to_string()).collect()
}

#[test]
fn csv_path_joins_with_one_slash() {
    assert_eq!(csv_path("playlists/", "de.csv"), "playlists/de.csv");
    assert_eq!(csv_path("playlists", "de.csv"), "playlists/de.csv");
    assert_eq!(csv_path("playlists///", "de.csv"), "playlists/de.csv");
    assert_eq!(csv_path("", "de.csv"), "/de.csv");
    assert_eq!(csv_path("/", "de.csv"), "/de.csv");
    assert_eq!(csv_path("a/b/", "x/y.csv"), "a/b/x/y.csv");
}

#[test]
fn select_sets_without_files_keeps_all() {
    let all = vec![record("a.csv", "A"), record("b.csv", "B")];
    assert_eq!(select_sets(all.clone(), &Vec::new()), all);
}

#[test]
fn select_sets_keeps_named_files_in_order() {
    let all = vec![record("a.csv", "A"), record("b.csv", "B"), record("c.csv", "C")];
    let files = strings(&["c.csv", "a.csv", "missing.csv"]);
    assert_eq!(select_sets(all, &files), vec![record("a.csv", "A"), record("c.csv", "C")]);
}

#[test]
fn from_record_keeps_file_and_songs() {
    let songs = vec![song(1, "https://youtu.be/AAAAAAAAAAA")];
    let p = ParsedRecord::from_record(record("a.csv", "A"), Some(songs.clone()));
    assert_eq!(p.file, "a.csv");
    assert_eq!(p.songs, songs);
}

#[test]
fn from_record_without_songs_is_empty() {
    let p = ParsedRecord::from_record(record("a.csv", "A"), None);
    assert_eq!(p.file, "a.csv");
    assert!(p.songs.is_empty());
}

#[test]
fn validate_urls_needs_every_url() {
    let mut p = ParsedRecord {
        file: "a.csv".to_string(),
        songs: vec![song(1, "https://youtu.be/AAAAAAAAAAA"), song(2, "BBBBBBBBBBB")],
    };
    assert!(p.validate_urls());
    p.songs.push(song(3, "not a link"));
    assert!(!p.validate_urls());
    let empty = ParsedRecord { file: "e.csv".to_string(), songs: Vec::new() };
    assert!(empty.validate_urls());
}

#[test]
fn id_index_keeps_last_card_of_each_id() {
    let p = ParsedRecord {
        file: "a.csv".to_string(),
        songs: vec![
            song(1, "https://youtu.be/AAAAAAAAAAA"),
            song(2, "broken"),
            song(3, "BBBBBBBBBBB"),
            song(4, "https://www.youtube.com/watch?v=AAAAAAAAAAA"),
        ],
    };
    let mut index = p.build_id_index();
    index.sort();
    assert_eq!(
        index,
        vec![("AAAAAAAAAAA".to_string(), 3), ("BBBBBBBBBBB".to_string(), 2)]
    );
}

#[test]
fn batches_cut_in_fifties() {
    let ids: Vec<String> = (0..120).map(|i| format!("id{}", i)).collect();
    let chunks = batches(&ids, 50);
    assert_eq!(chunks.len(), 3);
    assert_eq!(chunks[0].len(), 50);
    assert_eq!(chunks[1].len(), 50);
    assert_eq!(chunks[2].len(), 20);
    let flat: Vec<String> = chunks.concat();
    assert_eq!(flat, ids);
}

#[test]
fn batches_of_exact_multiple_and_empty() {
    let ids: Vec<String> = (0..100).map(|i| format!("id{}", i)).collect();
    let chunks = batches(&ids, 50);
    assert_eq!(chunks.len(), 2);
    assert!(batches(&Vec::new(), 50).is_empty());
}

#[test]
fn record_blocked_adds_unavailable_cards_once() {
    let index = vec![("AAAAAAAAAAA".to_string(), 0usize), ("BBBBBBBBBBB".to_string(), 4usize)];
    let results = vec![
        ("AAAAAAAAAAA".to_string(), false),
        ("BBBBBBBBBBB".to_string(), true),
        ("CCCCCCCCCCC".to_string(), false),
    ];
    let mut blocked = HashSet::new();
    record_blocked(&index, &results, &mut blocked);
    assert_eq!(blocked, HashSet::from([0]));
    record_blocked(&index, &results, &mut blocked);
    assert_eq!(blocked, HashSet::from([0]));
    let more = vec![("BBBBBBBBBBB".to_string(), false)];
    record_blocked(&index, &more, &mut blocked);
    assert_eq!(blocked, HashSet::from([0, 4]));
}
