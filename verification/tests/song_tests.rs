use songseeker::song::Song;
use songseeker::text::{hex_lower_string, str_eq};
use songseeker::video_id::{extract_video_id, watch_url};

fn song(url: &str, youtube_title: &str, artist: &str, hashed: &str) -> Song {
    Song {
        number: 1,
        title: "Some Title".to_string(),
        artist: artist.to_string(),
        year: 1984,
        url: url.to_string(),
        hashed: hashed.to_string(),
        youtube_title: youtube_title.to_string(),
    }
}

fn id_of(url: &str) -> Option<String> {
    extract_video_id(url)
}

#[test]
fn bare_id_is_its_own_id() {
    assert_eq!(id_of("dQw4w9WgXcQ"), Some("dQw4w9WgXcQ".to_string()));
}

#[test]
fn bare_id_is_trimmed() {
    assert_eq!(id_of("  dQw4w9WgXcQ\t\n"), Some("dQw4w9WgXcQ".to_string()));
    assert_eq!(id_of("\u{3000}a-b_c1234XY\u{a0}"), Some("a-b_c1234XY".to_string()));
}

#[test]
fn watch_links_give_their_id() {
    assert_eq!(id_of("https://www.youtube.com/watch?v=dQw4w9WgXcQ"), Some("dQw4w9WgXcQ".to_string()));
    assert_eq!(id_of("http://youtube.com/watch?v=dQw4w9WgXcQ&t=10"), Some("dQw4w9WgXcQ".to_string()));
    assert_eq!(id_of("youtube.com/watch?v=dQw4w9WgXcQ"), Some("dQw4w9WgXcQ".to_string()));
    assert_eq!(id_of("https://m.youtube.com/watch?v=dQw4w9WgXcQ"), Some("dQw4w9WgXcQ".to_string()));
    assert_eq!(id_of("https://music.youtube.com/watch?v=dQw4w9WgXcQ"), Some("dQw4w9WgXcQ".to_string()));
    assert_eq!(id_of("https://www.m.music.youtube.com/watch?v=dQw4w9WgXcQ"), Some("dQw4w9WgXcQ".to_string()));
}

#[test]
fn other_link_forms_give_their_id() {
    assert_eq!(id_of("https://youtu.be/dQw4w9WgXcQ"), Some("dQw4w9WgXcQ".to_string()));
    assert_eq!(id_of("https://www.youtube.com/embed/dQw4w9WgXcQ"), Some("dQw4w9WgXcQ".to_string()));
    assert_eq!(id_of("https://www.youtube.com/shorts/dQw4w9WgXcQ"), Some("dQw4w9WgXcQ".to_string()));
    assert_eq!(id_of("https://www.youtube.com/v/dQw4w9WgXcQ"), Some("dQw4w9WgXcQ".to_string()));
}

#[test]
fn links_after_a_delimiter() {
    assert_eq!(id_of("see https://youtu.be/dQw4w9WgXcQ"), Some("dQw4w9WgXcQ".to_string()));
    assert_eq!(id_of("\"https://youtu.be/dQw4w9WgXcQ\""), Some("dQw4w9WgXcQ".to_string()));
    assert_eq!(id_of("'youtu.be/dQw4w9WgXcQ'"), Some("dQw4w9WgXcQ".to_string()));
    assert_eq!(id_of("(youtu.be/dQw4w9WgXcQ)"), Some("dQw4w9WgXcQ".to_string()));
}

#[test]
fn link_glued_to_text_is_not_found() {
    assert_eq!(id_of("xhttps://youtu.be/dQw4w9WgXcQ"), None);
    assert_eq!(id_of("see:https://youtu.be/dQw4w9WgXcQ"), None);
}

#[test]
fn first_link_wins() {
    assert_eq!(
        id_of("https://youtu.be/AAAAAAAAAAA https://youtu.be/BBBBBBBBBBB"),
        Some("AAAAAAAAAAA".to_string())
    );
    assert_eq!(
        id_of("https://youtu.be/short https://youtu.be/BBBBBBBBBBB"),
        Some("BBBBBBBBBBB".to_string())
    );
}

#[test]
fn longer_ids_are_cut_to_eleven() {
    assert_eq!(id_of("https://youtu.be/dQw4w9WgXcQXYZ"), Some("dQw4w9WgXcQ".to_string()));
}

#[test]
fn bad_cells_name_no_video() {
    assert_eq!(id_of(""), None);
    assert_eq!(id_of("dQw4w9WgXc"), None);
    assert_eq!(id_of("dQw4w9WgXcQX"), None);
    assert_eq!(id_of("dQw4w9WgX!Q"), None);
    assert_eq!(id_of("https://vimeo.com/123456789"), None);
    assert_eq!(id_of("https://youtu.be/dQw4w9WgX"), None);
    assert_eq!(id_of("https://www.youtube.com/watch?x=dQw4w9WgXcQ"), None);
    assert_eq!(id_of("https://www.youtube.com/channel/dQw4w9WgXcQ"), None);
}

#[test]
fn watch_url_round_trips() {
    let url = watch_url("Sj_9CiNkkn4");
    assert_eq!(url, "https://www.youtube.com/watch?v=Sj_9CiNkkn4");
    assert_eq!(id_of(&url), Some("Sj_9CiNkkn4".to_string()));
}

#[test]
fn get_yt_id_reads_the_url() {
    let s = song("https://youtu.be/dQw4w9WgXcQ", "", "", "");
    assert_eq!(s.get_yt_id(), Some("dQw4w9WgXcQ".to_string()));
    let s = song("no link here", "", "", "");
    assert_eq!(s.get_yt_id(), None);
}

#[test]
fn generate_hash_of_known_card() {
    let s = song(
        "https://www.youtube.com/watch?v=dQw4w9WgXcQ",
        "Rick Astley - Never Gonna Give You Up (Official Music Video)",
        "Rick Astley",
        "",
    );
    assert_eq!(
        s.generate_hash(),
        "d710632c8c60e2c60bfe3ff8dbe0567ecb68bffeaed191806acbbb70cb54c34c"
    );
}

#[test]
fn generate_hash_of_empty_card() {
    let s = song("", "", "", "x");
    assert_eq!(
        s.generate_hash(),
        "e3b0c44298fc1c149afbf4c8996fb92427ae41e4649b934ca495991b7852b855"
    );
}

#[test]
fn generate_hash_of_non_ascii_card() {
    let s = song("https://youtu.be/abcdefghijk", "Tïtle ü", "Ärtist", "");
    assert_eq!(
        s.generate_hash(),
        "1ef275a59e9c0d42feb8a2352dcfe63d9663fc456a1b1ea7719a04573e0027e0"
    );
}

#[test]
fn hash_ignores_title_number_and_year() {
    let mut a = song("https://youtu.be/abcdefghijk", "T", "A", "");
    let b = a.clone();
    a.title = "Another".to_string();
    a.number = 99;
    a.year = 2001;
    assert_eq!(a.generate_hash(), b.generate_hash());
}

#[test]
fn check_hash_compares_stored_hash() {
    let good = song(
        "https://www.youtube.com/watch?v=Sj_9CiNkkn4",
        "ABBA - Waterloo",
        "ABBA",
        "d49d1a972b1259870021393e1f2f7c62b3db12b5ea952a8c67219c3ee31bd69b",
    );
    assert!(good.check_hash());
    let mut bad = good.clone();
    bad.artist = "Abba".to_string();
    assert!(!bad.check_hash());
    let upper = song(
        "https://www.youtube.com/watch?v=Sj_9CiNkkn4",
        "ABBA - Waterloo",
        "ABBA",
        "D49D1A972B1259870021393E1F2F7C62B3DB12B5EA952A8C67219C3EE31BD69B",
    );
    assert!(!upper.check_hash());
}

#[test]
fn refresh_hash_makes_check_pass() {
    let mut s = song("https://youtu.be/abcdefghijk", "T", "A", "stale");
    assert!(!s.check_hash());
    let before = s.clone();
    s.refresh_hash();
    assert!(s.check_hash());
    assert_eq!(s.hashed, before.generate_hash());
    assert_eq!(s.url, before.url);
    assert_eq!(s.title, before.title);
}

#[test]
fn hex_encoding_is_lower_case() {
    assert_eq!(hex_lower_string(&[0x00, 0x0f, 0xa0, 0xff, 0x12]), "000fa0ff12");
    assert_eq!(hex_lower_string(&[]), "");
}

#[test]
fn str_eq_compares_characters() {
    assert!(str_eq("processed", "processed"));
    assert!(!str_eq("processed", "processe"));
    assert!(!str_eq("a", "b"));
    assert!(str_eq("", ""));
}

#[test]
fn every_link_form_round_trips() {
    let id = "a-b_c1234XY";
    for prefix in [
        "https://www.youtube.com/watch?v=",
        "https://youtu.be/",
        "https://www.youtube.com/embed/",
        "https://www.youtube.com/shorts/",
        "https://www.youtube.com/v/",
    ] {
        assert_eq!(id_of(&format!("{}{}", prefix, id)), Some(id.to_string()));
    }
    assert_eq!(id_of(id), Some(id.to_string()));
}
