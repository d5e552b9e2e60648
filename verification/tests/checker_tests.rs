use songseeker::checker::{
    apply_metadata, apply_search_result, availability_results, availability_url, check_set,
    join_ids, metadata_plan, metadata_url, search_url, video_is_available, ContentDetails,
    IssueKind, RegionRestriction, SearchId, SearchItem, SearchResponse, SearchSnippet, SongIssue,
    Status, VideoItem, VideosSnippet,
};
use songseeker::song::Song;

fn song(url: &str, youtube_title: &str, artist: &str, title: &str) -> Song {
    Song {
        number: 7,
        title: title.to_string(),
        artist: artist.to_string(),
        year: 1974,
        url: url.to_string(),
        hashed: String::new(),
        youtube_title: youtube_title.to_string(),
    }
}

fn fresh(mut s: Song) -> Song {
    s.refresh_hash();
    s
}

fn strings(v: &[&str]) -> Vec<String> {
    v.iter().map(|s| s.to_string()).collect()
}

fn item(id: &str) -> VideoItem {
    VideoItem { id: id.to_string(), snippet: None, status: None, content_details: None }
}

fn restricted(
    id: &str,
    blocked: Option<&[&str]>,
    allowed: Option<&[&str]>,
    status: Option<(bool, &str)>,
) -> VideoItem {
    VideoItem {
        id: id.to_string(),
        snippet: None,
        status: status.map(|(e, u)| Status { embeddable: e, upload_status: u.to_string() }),
        content_details: Some(ContentDetails {
            region_restriction: Some(RegionRestriction {
                blocked: blocked.map(strings),
                allowed: allowed.map(strings),
            }),
        }),
    }
}

#[test]
fn video_without_restriction_is_available() {
    assert!(video_is_available(&item("AAAAAAAAAAA"), "DE"));
    let no_region = VideoItem {
        id: "AAAAAAAAAAA".to_string(),
        snippet: None,
        status: Some(Status { embeddable: false, upload_status: "rejected".to_string() }),
        content_details: Some(ContentDetails { region_restriction: None }),
    };
    assert!(video_is_available(&no_region, "DE"));
}

#[test]
fn blocked_country_makes_video_unavailable() {
    assert!(!video_is_available(&restricted("A", Some(&["DE", "AT"]), None, None), "DE"));
    assert!(video_is_available(&restricted("A", Some(&["AT"]), None, None), "DE"));
}

#[test]
fn allow_list_without_country_makes_video_unavailable() {
    assert!(!video_is_available(&restricted("A", None, Some(&["US"]), None), "DE"));
    assert!(video_is_available(&restricted("A", None, Some(&["US", "DE"]), None), "DE"));
}

#[test]
fn status_counts_only_with_restriction() {
    assert!(!video_is_available(&restricted("A", None, None, Some((false, "processed"))), "DE"));
    assert!(!video_is_available(&restricted("A", None, None, Some((true, "uploaded"))), "DE"));
    assert!(video_is_available(&restricted("A", None, None, Some((true, "processed"))), "DE"));
}

#[test]
fn availability_results_fill_missing_ids() {
    let items = vec![item("AAAAAAAAAAA"), restricted("BBBBBBBBBBB", Some(&["DE"]), None, None)];
    let requested = strings(&["AAAAAAAAAAA", "BBBBBBBBBBB", "CCCCCCCCCCC"]);
    let mut r = availability_results(&items, &requested, "DE");
    r.sort();
    assert_eq!(
        r,
        vec![
            ("AAAAAAAAAAA".to_string(), true),
            ("BBBBBBBBBBB".to_string(), false),
            ("CCCCCCCCCCC".to_string(), false),
        ]
    );
}

#[test]
fn availability_results_later_item_wins() {
    let items = vec![restricted("AAAAAAAAAAA", Some(&["DE"]), None, None), item("AAAAAAAAAAA")];
    let r = availability_results(&items, &strings(&["AAAAAAAAAAA"]), "DE");
    assert_eq!(r, vec![("AAAAAAAAAAA".to_string(), true)]);
}

#[test]
fn join_ids_uses_commas() {
    assert_eq!(join_ids(&strings(&["a", "b", "c"])), "a,b,c");
    assert_eq!(join_ids(&strings(&["a"])), "a");
    assert_eq!(join_ids(&Vec::new()), "");
}

#[test]
fn availability_url_is_exact() {
    assert_eq!(
        availability_url(&strings(&["AAAAAAAAAAA", "BBBBBBBBBBB"]), "SECRET"),
        "https://www.googleapis.com/youtube/v3/videos?part=contentDetails,status&id=AAAAAAAAAAA,BBBBBBBBBBB&key=SECRET"
    );
}

#[test]
fn metadata_url_encodes_the_query() {
    assert_eq!(
        metadata_url(&strings(&["AAAAAAAAAAA", "BBBBBBBBBBB"]), "SECRET").unwrap(),
        "https://www.googleapis.com/youtube/v3/videos?part=snippet&id=AAAAAAAAAAA%2CBBBBBBBBBBB&key=SECRET"
    );
}

#[test]
fn search_url_asks_for_artist_and_title() {
    let s = song("", "", "ABBA", "Waterloo & more");
    assert_eq!(
        search_url(&s, "SECRET").unwrap(),
        "https://www.googleapis.com/youtube/v3/search?part=snippet&type=video&maxResults=1&q=ABBA+-+Waterloo+%26+more&key=SECRET"
    );
}

#[test]
fn search_hit_updates_the_card() {
    let mut s = song("https://youtu.be/OLDOLDOLDOL", "old", "ABBA", "Waterloo");
    let response = SearchResponse {
        items: vec![SearchItem {
            id: SearchId { video_id: "Sj_9CiNkkn4".to_string() },
            snippet: SearchSnippet { title: "ABBA - Waterloo".to_string() },
        }],
    };
    assert!(apply_search_result(&mut s, &response));
    assert_eq!(s.url, "https://www.youtube.com/watch?v=Sj_9CiNkkn4");
    assert_eq!(s.youtube_title, "ABBA - Waterloo");
    assert_eq!(s.hashed, "d49d1a972b1259870021393e1f2f7c62b3db12b5ea952a8c67219c3ee31bd69b");
    assert!(s.check_hash());
    assert_eq!(s.get_yt_id(), Some("Sj_9CiNkkn4".to_string()));
}

#[test]
fn search_without_hit_leaves_the_card() {
    let mut s = song("https://youtu.be/OLDOLDOLDOL", "old", "ABBA", "Waterloo");
    let before = s.clone();
    assert!(!apply_search_result(&mut s, &SearchResponse { items: Vec::new() }));
    assert_eq!(s, before);
}

#[test]
fn metadata_plan_groups_stale_cards() {
    let songs = vec![
        song("https://youtu.be/AAAAAAAAAAA", "", "a", "1"),
        fresh(song("https://youtu.be/BBBBBBBBBBB", "", "b", "2")),
        song("not a link", "", "c", "3"),
        song("CCCCCCCCCCC", "", "d", "4"),
        song("https://www.youtube.com/watch?v=AAAAAAAAAAA", "", "e", "5"),
    ];
    let plan = metadata_plan(&songs);
    assert_eq!(plan.ids, strings(&["AAAAAAAAAAA", "CCCCCCCCCCC"]));
    assert_eq!(plan.indices, vec![vec![0, 4], vec![3]]);
}

#[test]
fn apply_metadata_updates_groups() {
    let mut songs = vec![
        song("https://youtu.be/AAAAAAAAAAA", "", "a", "1"),
        fresh(song("https://youtu.be/BBBBBBBBBBB", "kept", "b", "2")),
        song("CCCCCCCCCCC", "old title", "d", "4"),
        song("https://www.youtube.com/watch?v=AAAAAAAAAAA", "", "e", "5"),
    ];
    let plan = metadata_plan(&songs);
    let untouched = songs[1].clone();
    let ids_before: Vec<Option<String>> = songs.iter().map(|s| s.get_yt_id()).collect();
    let items = vec![
        VideoItem {
            id: "AAAAAAAAAAA".to_string(),
            snippet: Some(VideosSnippet { title: "New A".to_string() }),
            status: None,
            content_details: None,
        },
        item("CCCCCCCCCCC"),
        item("ZZZZZZZZZZZ"),
    ];
    let n = apply_metadata(&mut songs, &plan, &items);
    assert_eq!(n, 3);
    assert_eq!(songs[1], untouched);
    assert_eq!(songs[0].url, "https://www.youtube.com/watch?v=AAAAAAAAAAA");
    assert_eq!(songs[0].youtube_title, "New A");
    assert_eq!(songs[3].youtube_title, "New A");
    assert_eq!(songs[2].url, "https://www.youtube.com/watch?v=CCCCCCCCCCC");
    assert_eq!(songs[2].youtube_title, "old title");
    for s in &songs {
        assert!(s.check_hash());
    }
    let ids_after: Vec<Option<String>> = songs.iter().map(|s| s.get_yt_id()).collect();
    assert_eq!(ids_after, ids_before);
    assert!(check_set(&songs).is_empty());
}

#[test]
fn check_set_reports_in_card_order() {
    let songs = vec![
        song("https://youtu.be/AAAAAAAAAAA", "", "a", "1"),
        fresh(song("https://youtu.be/BBBBBBBBBBB", "", "b", "2")),
        song("broken", "", "c", "3"),
    ];
    assert_eq!(
        check_set(&songs),
        vec![
            SongIssue { index: 0, kind: IssueKind::HashMismatch },
            SongIssue { index: 2, kind: IssueKind::InvalidUrl },
        ]
    );
    assert!(check_set(&Vec::new()).is_empty());
}
