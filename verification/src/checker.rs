//! The decisions taken around the YouTube Data API: which playlist cards are
//! in order, which requests to send, which videos count as available, and
//! what an answer changes in a card.

use vstd::prelude::*;
use crate::song::{Song, SongView, song_views, expected_hash, hash_is_current, with_fresh_hash};
use crate::text::{contains_text, find_key, find_text, str_eq, texts};
use crate::video_id::{
    video_id, is_bare_id, watch_url, watch_url_text, lemma_video_id_is_bare,
    lemma_watch_url_names_its_id,
};

verus! {

broadcast use vstd::seq_lib::lemma_seq_contains_after_push;

/// An answer of the search endpoint.
#[derive(Debug, Clone, PartialEq, Eq)]
pub struct SearchResponse {
    pub items: Vec<SearchItem>,
}

/// One search hit.
#[derive(Debug, Clone, PartialEq, Eq)]
pub struct SearchItem {
    pub id: SearchId,
    pub snippet: SearchSnippet,
}

/// The title of a search hit.
#[derive(Debug, Clone, PartialEq, Eq)]
pub struct SearchSnippet {
    pub title: String,
}

/// The video id of a search hit.
#[derive(Debug, Clone, PartialEq, Eq)]
pub struct SearchId {
    pub video_id: String,
}

/// An answer of the videos endpoint.
#[derive(Debug, Clone, PartialEq, Eq)]
pub struct VideoResponse {
    pub items: Vec<VideoItem>,
}

/// One video of an answer of the videos endpoint.
#[derive(Debug, Clone, PartialEq, Eq)]
pub struct VideoItem {
    pub id: String,
    pub snippet: Option<VideosSnippet>,
    pub status: Option<Status>,
    pub content_details: Option<ContentDetails>,
}

/// The title of a video.
#[derive(Debug, Clone, PartialEq, Eq)]
pub struct VideosSnippet {
    pub title: String,
}

/// Where a video may be watched.
#[derive(Debug, Clone, PartialEq, Eq)]
pub struct ContentDetails {
    pub region_restriction: Option<RegionRestriction>,
}

/// The countries in which a video is blocked, or the only ones where it is
/// allowed.
#[derive(Debug, Clone, PartialEq, Eq)]
pub struct RegionRestriction {
    pub blocked: Option<Vec<String>>,
    pub allowed: Option<Vec<String>>,
}

/// Whether a video may be embedded, and the state of its upload.
#[derive(Debug, Clone, PartialEq, Eq)]
pub struct Status {
    pub embeddable: bool,
    pub upload_status: String,
}

/// A video counts as available in `country` unless it has a region
/// restriction and then either blocks the country, has an allow-list without
/// it, or (when its status is known) is not embeddable or not processed.
pub open spec fn is_available(item: VideoItem, country: Seq<char>) -> bool {
    match item.content_details {
        None => true,
        Some(details) => match details.region_restriction {
            None => true,
            Some(restriction) => {
                &&& !(restriction.blocked matches Some(blocked) && texts(blocked@).contains(
                    country,
                ))
                &&& (restriction.allowed matches Some(allowed) ==> texts(allowed@).contains(
                    country,
                ))
                &&& (item.status matches Some(status) ==> status.embeddable
                    && status.upload_status@ == "processed"@)
            },
        },
    }
}

/// Whether a video counts as available in `country` (see [`is_available`]).
pub fn video_is_available(item: &VideoItem, country: &str) -> (r: bool)
    ensures
        r == is_available(*item, country@),
{
    let mut available = true;
    if let Some(details) = &item.content_details {
        if let Some(restriction) = &details.region_restriction {
            if let Some(blocked) = &restriction.blocked {
                if contains_text(blocked, country) {
                    available = false;
                }
            }
            if let Some(allowed) = &restriction.allowed {
                if !contains_text(allowed, country) {
                    available = false;
                }
            }
            if let Some(status) = &item.status {
                if !status.embeddable || !str_eq(status.upload_status.as_str(), "processed") {
                    available = false;
                }
            }
        }
    }
    available
}

/// The answer of the videos endpoint as a map from video id to availability:
/// a later item with the same id overrides an earlier one.
pub open spec fn answered(items: Seq<VideoItem>, country: Seq<char>) -> Map<Seq<char>, bool>
    decreases items.len(),
{
    if items.len() == 0 {
        Map::empty()
    } else {
        answered(items.drop_last(), country).insert(
            items.last().id@,
            is_available(items.last(), country),
        )
    }
}

/// The answered map completed with `false` for each requested id that the
/// answer leaves out.
pub open spec fn with_missing(m: Map<Seq<char>, bool>, requested: Seq<Seq<char>>) -> Map<
    Seq<char>,
    bool,
> {
    Map::new(
        |id: Seq<char>| m.dom().contains(id) || requested.contains(id),
        |id: Seq<char>|
            if m.dom().contains(id) {
                m[id]
            } else {
                false
            },
    )
}

/// The availability of each video: what the answer says, and `false` for
/// each requested id that it leaves out.
pub open spec fn availability(
    items: Seq<VideoItem>,
    requested: Seq<Seq<char>>,
    country: Seq<char>,
) -> Map<Seq<char>, bool> {
    with_missing(answered(items, country), requested)
}

/// `pairs` lists the map `m`: each key once, with its value.
pub open spec fn lists_map(pairs: Seq<(Seq<char>, bool)>, m: Map<Seq<char>, bool>) -> bool {
    &&& forall|a: int, b: int| 0 <= a < b < pairs.len() ==> pairs[a].0 != pairs[b].0
    &&& forall|a: int|
        0 <= a < pairs.len() ==> #[trigger] m.dom().contains(pairs[a].0) && m[pairs[a].0]
            == pairs[a].1
    &&& forall|id: Seq<char>|
        #[trigger] m.dom().contains(id) ==> exists|a: int| 0 <= a < pairs.len() && pairs[a].0 == id
}

/// The availability in `country` of each requested video, from the answer
/// of the videos endpoint (see [`availability`]).
pub fn availability_results(items: &Vec<VideoItem>, requested: &Vec<String>, country: &str) -> (r:
    Vec<(String, bool)>)
    ensures
        lists_map(r.deep_view(), availability(items@, texts(requested@), country@)),
{
    let mut r: Vec<(String, bool)> = Vec::new();
    let mut i: usize = 0;
    while i < items.len()
        invariant
            i <= items@.len(),
            lists_map(r.deep_view(), answered(items@.take(i as int), country@)),
        decreases items@.len() - i,
    {
        let ghost before = r.deep_view();
        let ghost m = answered(items@.take(i as int), country@);
        let item = &items[i];
        let available = video_is_available(item, country);
        let ghost idv = item.id@;
        assert(items@.take(i + 1).drop_last() =~= items@.take(i as int));
        assert(answered(items@.take(i + 1), country@) == m.insert(idv, available));
        match find_key(&r, item.id.as_str()) {
            Some(a) => {
                assert(before[a as int].0 == idv);
                r.set(a, (item.id.clone(), available));
                assert(r.deep_view() =~= before.update(a as int, (idv, available)));
                let ghost after = r.deep_view();
                let ghost m2 = m.insert(idv, available);
                assert forall|b: int| 0 <= b < after.len() implies #[trigger] after[b].0
                    == before[b].0 by {}
                assert forall|b: int|
                    0 <= b < after.len() implies #[trigger] m2.dom().contains(after[b].0)
                    && m2[after[b].0] == after[b].1 by {
                    if b != a {
                        assert(before[b].0 != before[a as int].0);
                        assert(m.dom().contains(before[b].0));
                        assert(after[b] == before[b]);
                    }
                }
                assert forall|id: Seq<char>| #[trigger]
                    m2.dom().contains(id) implies exists|b: int|
                    0 <= b < after.len() && after[b].0 == id by {
                    if id == idv {
                        assert(after[a as int].0 == id);
                    } else {
                        let b = choose|b: int| 0 <= b < before.len() && before[b].0 == id;
                        assert(after[b].0 == id);
                    }
                }
            },
            None => {
                r.push((item.id.clone(), available));
                assert(r.deep_view() =~= before.push((idv, available)));
                let ghost after = r.deep_view();
                let ghost m2 = m.insert(idv, available);
                assert forall|b: int|
                    0 <= b < after.len() implies #[trigger] m2.dom().contains(after[b].0)
                    && m2[after[b].0] == after[b].1 by {
                    if b < before.len() {
                        assert(before[b].0 != idv);
                    }
                }
                assert forall|id: Seq<char>| #[trigger]
                    m2.dom().contains(id) implies exists|b: int|
                    0 <= b < after.len() && after[b].0 == id by {
                    if id == idv {
                        assert(after[before.len() as int].0 == id);
                    } else {
                        let b = choose|b: int| 0 <= b < before.len() && before[b].0 == id;
                        assert(after[b].0 == id);
                    }
                }
            },
        }
        i = i + 1;
    }
    assert(items@.take(items@.len() as int) =~= items@);
    let ghost m = answered(items@, country@);
    let mut j: usize = 0;
    assert(with_missing(m, texts(requested@).take(0)) =~= m);
    while j < requested.len()
        invariant
            j <= requested@.len(),
            m == answered(items@, country@),
            lists_map(r.deep_view(), with_missing(m, texts(requested@).take(j as int))),
        decreases requested@.len() - j,
    {
        let ghost before = r.deep_view();
        let ghost old_m = with_missing(m, texts(requested@).take(j as int));
        let ghost idv = requested@[j as int]@;
        let ghost new_m = with_missing(m, texts(requested@).take(j + 1));
        assert(texts(requested@).take(j + 1) =~= texts(requested@).take(j as int).push(idv));
        match find_key(&r, requested[j].as_str()) {
            Some(a) => {
                assert(before[a as int].0 == idv);
                assert(old_m.dom().contains(before[a as int].0));
                                assert(new_m =~= old_m);
            },
            None => {
                assert(!old_m.dom().contains(idv)) by {
                    if old_m.dom().contains(idv) {
                        let b = choose|b: int| 0 <= b < before.len() && before[b].0 == idv;
                    }
                }
                                assert(new_m =~= old_m.insert(idv, false));
                r.push((requested[j].clone(), false));
                assert(r.deep_view() =~= before.push((idv, false)));
                let ghost after = r.deep_view();
                assert forall|b: int|
                    0 <= b < after.len() implies #[trigger] new_m.dom().contains(after[b].0)
                    && new_m[after[b].0] == after[b].1 by {
                    if b < before.len() {
                        assert(before[b].0 != idv);
                    }
                }
                assert forall|id: Seq<char>| #[trigger]
                    new_m.dom().contains(id) implies exists|b: int|
                    0 <= b < after.len() && after[b].0 == id by {
                    if id == idv {
                        assert(after[before.len() as int].0 == id);
                    } else {
                        let b = choose|b: int| 0 <= b < before.len() && before[b].0 == id;
                        assert(after[b].0 == id);
                    }
                }
            },
        }
        j = j + 1;
    }
    assert(texts(requested@).take(requested@.len() as int) =~= texts(requested@));
    r
}

/// Ids separated by commas.
pub open spec fn join_comma(ids: Seq<Seq<char>>) -> Seq<char>
    decreases ids.len(),
{
    if ids.len() == 0 {
        Seq::empty()
    } else if ids.len() == 1 {
        ids[0]
    } else {
        join_comma(ids.drop_last()) + seq![','] + ids.last()
    }
}

/// The ids separated by commas (see [`join_comma`]).
pub fn join_ids(ids: &Vec<String>) -> (s: String)
    ensures
        s@ == join_comma(texts(ids@)),
{
    let mut s = String::new();
    let mut i: usize = 0;
    proof {
        reveal_strlit(",");
    }
    while i < ids.len()
        invariant
            i <= ids@.len(),
            s@ == join_comma(texts(ids@).take(i as int)),
            ","@ == seq![','],
        decreases ids@.len() - i,
    {
        let ghost before = s@;
        if i > 0 {
            s.append(",");
        }
        s.append(ids[i].as_str());
        let ghost prefix = texts(ids@).take(i + 1);
        assert(prefix.drop_last() =~= texts(ids@).take(i as int));
        if i == 0 {
            assert(s@ =~= prefix[0]);
        } else {
            assert(s@ =~= before + seq![','] + prefix.last());
        }
        i = i + 1;
    }
    assert(texts(ids@).take(ids@.len() as int) =~= texts(ids@));
    s
}

/// The availability request for `ids`: the videos endpoint asked for content
/// details and status of the ids, with the API key.
pub open spec fn availability_url_text(ids: Seq<Seq<char>>, key: Seq<char>) -> Seq<char> {
    "https://www.googleapis.com/youtube/v3/videos?part=contentDetails,status&id="@ + join_comma(
        ids,
    ) + "&key="@ + key
}

/// The availability request for `ids` (see [`availability_url_text`]).
pub fn availability_url(ids: &Vec<String>, api_key: &str) -> (url: String)
    ensures
        url@ == availability_url_text(texts(ids@), api_key@),
{
    let mut url = String::from_str(
        "https://www.googleapis.com/youtube/v3/videos?part=contentDetails,status&id=",
    );
    let joined = join_ids(ids);
    url.append(joined.as_str());
    url.append("&key=");
    url.append(api_key);
    url
}

/// The URL made of `base` and the query pairs `params`, form-encoded, if
/// `base` is an absolute URL.
pub uninterp spec fn url_with_query(base: Seq<char>, params: Seq<(Seq<char>, Seq<char>)>) -> Option<
    Seq<char>,
>;

/// Calls `reqwest::Url::parse_with_params` (the `url` crate's
/// `Url::parse_with_params`) and renders the URL as text. Trusted to be a
/// function of its arguments alone, named [`url_with_query`]; what the text
/// is (the form encoding of the pairs) is left unstated. The base may not
/// hold a `#`: the crate puts a fragment back after the pairs with a length
/// that must fit in 32 bits, and panics when it does not.
#[verifier::external_body]
fn parse_with_params(base: &str, params: &Vec<(String, String)>) -> (url: Option<String>)
    requires
        !base@.contains('#'),
    ensures
        match url {
            Some(u) => url_with_query(base@, params.deep_view()) == Some(u@),
            None => url_with_query(base@, params.deep_view()) is None,
        },
{
    match reqwest::Url::parse_with_params(base, params.iter()) {
        Ok(u) => Some(u.to_string()),
        Err(_) => None,
    }
}

fn param(name: &str, value: &str) -> (p: (String, String))
    ensures
        p.0@ == name@,
        p.1@ == value@,
{
    (name.to_owned(), value.to_owned())
}

/// The videos endpoint of the YouTube Data API.
pub open spec fn videos_endpoint() -> Seq<char> {
    "https://www.googleapis.com/youtube/v3/videos"@
}

/// The search endpoint of the YouTube Data API.
pub open spec fn search_endpoint() -> Seq<char> {
    "https://www.googleapis.com/youtube/v3/search"@
}

/// The query of a metadata request: the snippets of `ids`, with the API key.
pub open spec fn metadata_params(ids: Seq<Seq<char>>, key: Seq<char>) -> Seq<
    (Seq<char>, Seq<char>),
> {
    seq![("part"@, "snippet"@), ("id"@, join_comma(ids)), ("key"@, key)]
}

/// The metadata request for `ids`: the videos endpoint with the query of
/// [`metadata_params`].
pub fn metadata_url(ids: &Vec<String>, api_key: &str) -> (url: Option<String>)
    ensures
        match url {
            Some(u) => url_with_query(videos_endpoint(), metadata_params(texts(ids@), api_key@))
                == Some(u@),
            None => url_with_query(videos_endpoint(), metadata_params(texts(ids@), api_key@))
                is None,
        },
{
    let joined = join_ids(ids);
    let mut params: Vec<(String, String)> = Vec::new();
    params.push(param("part", "snippet"));
    params.push(param("id", joined.as_str()));
    params.push(param("key", api_key));
    assert(params.deep_view() =~= metadata_params(texts(ids@), api_key@));
    proof {
        reveal_strlit("https://www.googleapis.com/youtube/v3/videos");
    }
    parse_with_params("https://www.googleapis.com/youtube/v3/videos", &params)
}

/// What is searched for a card: its artist, ` - `, its title.
pub open spec fn search_query(s: SongView) -> Seq<char> {
    s.artist + " - "@ + s.title
}

/// The query of a search request: one video matching the card, with the API
/// key.
pub open spec fn search_params(s: SongView, key: Seq<char>) -> Seq<(Seq<char>, Seq<char>)> {
    seq![
        ("part"@, "snippet"@),
        ("type"@, "video"@),
        ("maxResults"@, "1"@),
        ("q"@, search_query(s)),
        ("key"@, key),
    ]
}

/// The search request for a card: the search endpoint with the query of
/// [`search_params`].
pub fn search_url(song: &Song, api_key: &str) -> (url: Option<String>)
    ensures
        match url {
            Some(u) => url_with_query(search_endpoint(), search_params(song@, api_key@)) == Some(
                u@,
            ),
            None => url_with_query(search_endpoint(), search_params(song@, api_key@)) is None,
        },
{
    let mut query = song.artist.clone();
    query.append(" - ");
    query.append(song.title.as_str());
    let mut params: Vec<(String, String)> = Vec::new();
    params.push(param("part", "snippet"));
    params.push(param("type", "video"));
    params.push(param("maxResults", "1"));
    params.push(param("q", query.as_str()));
    params.push(param("key", api_key));
    assert(params.deep_view() =~= search_params(song@, api_key@));
    proof {
        reveal_strlit("https://www.googleapis.com/youtube/v3/search");
    }
    parse_with_params("https://www.googleapis.com/youtube/v3/search", &params)
}

/// The card after taking a search hit: the hit's watch link and title, and
/// the hash of both.
pub open spec fn with_search_hit(s: SongView, hit: SearchItem) -> SongView {
    with_fresh_hash(
        SongView { url: watch_url_text(hit.id.video_id@), youtube_title: hit.snippet.title@, ..s },
    )
}

/// Takes the first hit of a search answer into the card; with no hit the
/// card stays as it is. Whether a hit was taken is returned.
pub fn apply_search_result(song: &mut Song, response: &SearchResponse) -> (updated: bool)
    ensures
        updated == (response.items@.len() > 0),
        updated ==> final(song)@ == with_search_hit(old(song)@, response.items@[0]),
        !updated ==> final(song)@ == old(song)@,
{
    if response.items.len() == 0 {
        return false;
    }
    let first = &response.items[0];
    song.url = watch_url(first.id.video_id.as_str());
    song.youtube_title = first.snippet.title.clone();
    song.hashed = song.generate_hash();
    true
}

/// A card whose metadata is to be fetched: its hash is not current and its
/// URL names a video.
pub open spec fn needs_metadata(s: SongView) -> bool {
    !hash_is_current(s) && video_id(s.url) is Some
}

/// The views of the card groups of a plan.
pub open spec fn index_groups(indices: Seq<Vec<usize>>) -> Seq<Seq<usize>> {
    indices.map_values(|v: Vec<usize>| v@)
}

/// The shape of a metadata plan over `n` cards: one group per id, the ids
/// pairwise different, each group ascending card positions below `n`.
pub open spec fn plan_fits(ids: Seq<Seq<char>>, groups: Seq<Seq<usize>>, n: int) -> bool {
    &&& ids.len() == groups.len()
    &&& forall|a: int, b: int| 0 <= a < b < ids.len() ==> ids[a] != ids[b]
    &&& forall|k: int, j: int|
        0 <= k < groups.len() && 0 <= j < groups[k].len() ==> #[trigger] groups[k][j] < n
    &&& forall|k: int, j1: int, j2: int|
        0 <= k < groups.len() && 0 <= j1 < j2 < groups[k].len() ==> #[trigger] groups[k][j1]
            < #[trigger] groups[k][j2]
}

/// A plan for the first `n` cards: the ids are those that cards needing
/// metadata name, in the order in which they first occur, each with the
/// positions of all such cards that name it.
pub open spec fn plans_prefix(
    ids: Seq<Seq<char>>,
    groups: Seq<Seq<usize>>,
    songs: Seq<SongView>,
    n: int,
) -> bool {
    &&& plan_fits(ids, groups, n)
    &&& forall|k: int, j: int|
        0 <= k < groups.len() && 0 <= j < groups[k].len() ==> {
            &&& needs_metadata(songs[#[trigger] groups[k][j] as int])
            &&& video_id(songs[groups[k][j] as int].url) == Some(ids[k])
        }
    &&& forall|i: int|
        0 <= i < n && needs_metadata(#[trigger] songs[i]) ==> exists|k: int|
            0 <= k < ids.len() && ids[k] == video_id(songs[i].url)->0 && #[trigger] groups[k].contains(
                i as usize,
            )
    &&& forall|k: int| 0 <= k < groups.len() ==> (#[trigger] groups[k]).len() > 0
    &&& forall|a: int, b: int| 0 <= a < b < groups.len() ==> groups[a][0] < groups[b][0]
}

/// The metadata plan of the cards (see [`plans_prefix`]).
pub open spec fn is_metadata_plan(
    ids: Seq<Seq<char>>,
    groups: Seq<Seq<usize>>,
    songs: Seq<SongView>,
) -> bool {
    plans_prefix(ids, groups, songs, songs.len() as int)
}

/// Which videos to ask for, and for each the positions of the cards to
/// update with its answer.
#[derive(Debug, Clone, PartialEq, Eq)]
pub struct MetadataPlan {
    pub ids: Vec<String>,
    pub indices: Vec<Vec<usize>>,
}

proof fn lemma_plan_skip(ids: Seq<Seq<char>>, groups: Seq<Seq<usize>>, songs: Seq<SongView>, i: int)
    requires
        0 <= i < songs.len(),
        plans_prefix(ids, groups, songs, i),
        !needs_metadata(songs[i]),
    ensures
        plans_prefix(ids, groups, songs, i + 1),
{
}

proof fn lemma_plan_join(
    ids: Seq<Seq<char>>,
    groups: Seq<Seq<usize>>,
    songs: Seq<SongView>,
    i: usize,
    k: int,
)
    requires
        0 <= i < songs.len(),
        plans_prefix(ids, groups, songs, i as int),
        needs_metadata(songs[i as int]),
        0 <= k < ids.len(),
        ids[k] == video_id(songs[i as int].url)->0,
    ensures
        plans_prefix(ids, groups.update(k, groups[k].push(i)), songs, i + 1),
{
    let ng = groups.update(k, groups[k].push(i));
    assert forall|c: int, j: int| 0 <= c < ng.len() && 0 <= j < ng[c].len() implies #[trigger] ng[c][j]
        < i + 1 && needs_metadata(songs[ng[c][j] as int]) && video_id(songs[ng[c][j] as int].url)
        == Some(ids[c]) by {
        if c == k && j == groups[k].len() {
        } else {
            assert(ng[c][j] == groups[c][j]);
        }
    }
    assert forall|c: int, j1: int, j2: int|
        0 <= c < ng.len() && 0 <= j1 < j2 < ng[c].len() implies #[trigger] ng[c][j1]
        < #[trigger] ng[c][j2] by {
        if c == k && j2 == groups[k].len() {
            assert(ng[c][j1] == groups[c][j1]);
            assert(groups[c][j1] < i);
        } else {
            assert(ng[c][j1] == groups[c][j1]);
            assert(ng[c][j2] == groups[c][j2]);
        }
    }
    assert forall|x: int|
        0 <= x < i + 1 && needs_metadata(#[trigger] songs[x]) implies exists|c: int|
        0 <= c < ids.len() && ids[c] == video_id(songs[x].url)->0 && #[trigger] ng[c].contains(
            x as usize,
        ) by {
        if x == i {
            assert(ng[k][groups[k].len() as int] == x as usize);
            assert(ng[k].contains(x as usize));
        } else {
            let c = choose|c: int|
                0 <= c < ids.len() && ids[c] == video_id(songs[x].url)->0 && #[trigger] groups[c].contains(
                    x as usize,
                );
            let j = choose|j: int| 0 <= j < groups[c].len() && groups[c][j] == x as usize;
            assert(ng[c][j] == x as usize);
            assert(ng[c].contains(x as usize));
        }
    }
    assert forall|c: int| 0 <= c < ng.len() implies (#[trigger] ng[c]).len() > 0 by {
        assert(groups[c].len() > 0);
    }
    assert forall|a: int, b: int| 0 <= a < b < ng.len() implies ng[a][0] < ng[b][0] by {
        assert(groups[a].len() > 0);
        assert(groups[b].len() > 0);
        assert(ng[a][0] == groups[a][0]);
        assert(ng[b][0] == groups[b][0]);
    }
}

proof fn lemma_plan_open(
    ids: Seq<Seq<char>>,
    groups: Seq<Seq<usize>>,
    songs: Seq<SongView>,
    i: usize,
    id: Seq<char>,
)
    requires
        0 <= i < songs.len(),
        plans_prefix(ids, groups, songs, i as int),
        needs_metadata(songs[i as int]),
        id == video_id(songs[i as int].url)->0,
        forall|a: int| 0 <= a < ids.len() ==> ids[a] != id,
    ensures
        plans_prefix(ids.push(id), groups.push(seq![i]), songs, i + 1),
{
    let ni = ids.push(id);
    let ng = groups.push(seq![i]);
    assert forall|c: int, j: int| 0 <= c < ng.len() && 0 <= j < ng[c].len() implies #[trigger] ng[c][j]
        < i + 1 && needs_metadata(songs[ng[c][j] as int]) && video_id(songs[ng[c][j] as int].url)
        == Some(ni[c]) by {
        if c < groups.len() {
            assert(ng[c][j] == groups[c][j]);
        }
    }
    assert forall|c: int, j1: int, j2: int|
        0 <= c < ng.len() && 0 <= j1 < j2 < ng[c].len() implies #[trigger] ng[c][j1]
        < #[trigger] ng[c][j2] by {
        assert(c < groups.len());
        assert(ng[c] == groups[c]);
    }
    assert forall|x: int|
        0 <= x < i + 1 && needs_metadata(#[trigger] songs[x]) implies exists|c: int|
        0 <= c < ni.len() && ni[c] == video_id(songs[x].url)->0 && #[trigger] ng[c].contains(
            x as usize,
        ) by {
        if x == i {
            assert(ng[groups.len() as int][0] == x as usize);
            assert(ng[groups.len() as int].contains(x as usize));
            assert(ni[groups.len() as int] == id);
        } else {
            let c = choose|c: int|
                0 <= c < ids.len() && ids[c] == video_id(songs[x].url)->0 && #[trigger] groups[c].contains(
                    x as usize,
                );
            assert(ng[c] == groups[c]);
        }
    }
    assert forall|a: int, b: int| 0 <= a < b < ng.len() implies ng[a][0] < ng[b][0] by {
        assert(groups[a].len() > 0);
        assert(ng[a] == groups[a]);
        if b < groups.len() {
            assert(ng[b] == groups[b]);
        } else {
            assert(groups[a][0] < i);
        }
    }
    assert forall|c: int| 0 <= c < ng.len() implies (#[trigger] ng[c]).len() > 0 by {
        if c < groups.len() {
            assert(ng[c] == groups[c]);
        }
    }
}

/// The metadata plan of the cards: the ids that cards with a stale hash
/// name, and the cards to update with each (see [`is_metadata_plan`]).
pub fn metadata_plan(songs: &Vec<Song>) -> (plan: MetadataPlan)
    ensures
        is_metadata_plan(texts(plan.ids@), index_groups(plan.indices@), song_views(songs@)),
{
    let ghost views = song_views(songs@);
    let mut ids: Vec<String> = Vec::new();
    let mut indices: Vec<Vec<usize>> = Vec::new();
    let n = songs.len();
    let mut i: usize = 0;
    while i < n
        invariant
            n == songs@.len(),
            views == song_views(songs@),
            i <= n,
            plans_prefix(texts(ids@), index_groups(indices@), views, i as int),
        decreases n - i,
    {
        let ghost old_ids = texts(ids@);
        let ghost old_groups = index_groups(indices@);
        assert(views[i as int] == songs@[i as int]@);
        if songs[i].check_hash() {
            proof {
                lemma_plan_skip(old_ids, old_groups, views, i as int);
            }
        } else {
            match songs[i].get_yt_id() {
                None => {
                    proof {
                        lemma_plan_skip(old_ids, old_groups, views, i as int);
                    }
                },
                Some(id) => {
                    match find_text(&ids, id.as_str()) {
                        Some(k) => {
                            let mut group = indices.remove(k);
                            let ghost g = group@;
                            group.push(i);
                            indices.insert(k, group);
                            assert(index_groups(indices@) =~= old_groups.update(
                                k as int,
                                g.push(i),
                            ));
                            proof {
                                lemma_plan_join(old_ids, old_groups, views, i, k as int);
                            }
                        },
                        None => {
                            let ghost idv = id@;
                            ids.push(id);
                            let mut group: Vec<usize> = Vec::new();
                            group.push(i);
                            indices.push(group);
                            assert(texts(ids@) =~= old_ids.push(idv));
                            assert(index_groups(indices@) =~= old_groups.push(seq![i]));
                            proof {
                                lemma_plan_open(old_ids, old_groups, views, i, idv);
                            }
                        },
                    }
                },
            }
        }
        i = i + 1;
    }
    MetadataPlan { ids, indices }
}

/// The card after taking the metadata answer of its video: the answer's
/// title when it has one, the video's watch link, and the hash of both.
pub open spec fn with_metadata(s: SongView, item: VideoItem) -> SongView {
    let title = match item.snippet {
        Some(snippet) => snippet.title@,
        None => s.youtube_title,
    };
    with_fresh_hash(SongView { url: watch_url_text(item.id@), youtube_title: title, ..s })
}

/// The cards that the answer for `id` updates: the plan's group of `id`, or
/// none when the plan does not ask for `id`.
pub open spec fn group_for(ids: Seq<Seq<char>>, groups: Seq<Seq<usize>>, id: Seq<char>) -> Seq<
    usize,
> {
    if ids.contains(id) {
        groups[choose|k: int| 0 <= k < ids.len() && ids[k] == id]
    } else {
        Seq::empty()
    }
}

/// The cards after one answer: those of `group` take it.
pub open spec fn apply_item(songs: Seq<SongView>, group: Seq<usize>, item: VideoItem) -> Seq<
    SongView,
> {
    Seq::new(
        songs.len(),
        |x: int|
            if group.contains(x as usize) {
                with_metadata(songs[x], item)
            } else {
                songs[x]
            },
    )
}

/// The cards after the answers, taken one after the other.
pub open spec fn apply_items(
    songs: Seq<SongView>,
    ids: Seq<Seq<char>>,
    groups: Seq<Seq<usize>>,
    items: Seq<VideoItem>,
) -> Seq<SongView>
    decreases items.len(),
{
    if items.len() == 0 {
        songs
    } else {
        apply_item(
            apply_items(songs, ids, groups, items.drop_last()),
            group_for(ids, groups, items.last().id@),
            items.last(),
        )
    }
}

/// How many card updates the answers make: the size of each answer's group.
pub open spec fn update_count(ids: Seq<Seq<char>>, groups: Seq<Seq<usize>>, items: Seq<VideoItem>) -> nat
    decreases items.len(),
{
    if items.len() == 0 {
        0
    } else {
        update_count(ids, groups, items.drop_last()) + group_for(ids, groups, items.last().id@).len()
    }
}

fn metadata_song(s: &Song, item: &VideoItem) -> (r: Song)
    ensures
        r@ == with_metadata(s@, *item),
{
    let title = match &item.snippet {
        Some(snippet) => snippet.title.clone(),
        None => s.youtube_title.clone(),
    };
    let mut r = Song {
        number: s.number,
        title: s.title.clone(),
        artist: s.artist.clone(),
        year: s.year,
        url: watch_url(item.id.as_str()),
        hashed: s.hashed.clone(),
        youtube_title: title,
    };
    r.refresh_hash();
    r
}

/// A count that stops at the largest `usize`.
pub open spec fn saturated(n: nat) -> usize {
    if n <= usize::MAX {
        n as usize
    } else {
        usize::MAX
    }
}

/// Takes the answers of a metadata request into the cards of the plan: each
/// answer updates the cards of its id (see [`apply_items`]). The number of
/// card updates is returned (stopping at the largest `usize`).
pub fn apply_metadata(songs: &mut Vec<Song>, plan: &MetadataPlan, items: &Vec<VideoItem>) -> (updated:
    usize)
    requires
        plan_fits(texts(plan.ids@), index_groups(plan.indices@), old(songs)@.len() as int),
    ensures
        song_views(final(songs)@) == apply_items(
            song_views(old(songs)@),
            texts(plan.ids@),
            index_groups(plan.indices@),
            items@,
        ),
        updated == saturated(update_count(texts(plan.ids@), index_groups(plan.indices@), items@)),
{
    let ghost ids = texts(plan.ids@);
    let ghost groups = index_groups(plan.indices@);
    let ghost start = song_views(songs@);
    let n = songs.len();
    let mut updated: usize = 0;
    let mut t: usize = 0;
    assert(items@.take(0) =~= Seq::<VideoItem>::empty());
    while t < items.len()
        invariant
            t <= items@.len(),
            n == songs@.len(),
            ids == texts(plan.ids@),
            groups == index_groups(plan.indices@),
            plan_fits(ids, groups, n as int),
            song_views(songs@) == apply_items(start, ids, groups, items@.take(t as int)),
            updated == saturated(update_count(ids, groups, items@.take(t as int))),
        decreases items@.len() - t,
    {
        let item = &items[t];
        let ghost before = song_views(songs@);
        let ghost prefix = items@.take(t + 1);
        assert(prefix.drop_last() =~= items@.take(t as int));
        assert(prefix.last() == *item);
        match find_text(&plan.ids, item.id.as_str()) {
            None => {
                assert(!ids.contains(item.id@));
                assert(group_for(ids, groups, item.id@) =~= Seq::<usize>::empty());
                assert(apply_item(before, Seq::empty(), *item) =~= before);
            },
            Some(k) => {
                assert(ids[k as int] == item.id@);
                let ghost chosen = choose|c: int| 0 <= c < ids.len() && ids[c] == item.id@;
                assert(chosen == k);
                let group = &plan.indices[k];
                let ghost g = group@;
                assert(g == groups[k as int]);
                assert(group_for(ids, groups, item.id@) == g);
                let m = group.len();
                proof {
                    assert forall|j: int| 0 <= j < g.len() implies g[j] < n by {
                        assert(groups[k as int][j] < n);
                    }
                    assert forall|j1: int, j2: int| 0 <= j1 < j2 < g.len() implies g[j1] < g[j2] by {
                        assert(groups[k as int][j1] < groups[k as int][j2]);
                    }
                }
                let mut j: usize = 0;
                assert(before =~= Seq::new(
                    n as nat,
                    |x: int|
                        if g.take(0).contains(x as usize) {
                            with_metadata(before[x], *item)
                        } else {
                            before[x]
                        },
                ));
                while j < m
                    invariant
                        j <= m,
                        m == g.len(),
                        g == group@,
                        n == songs@.len(),
                        before.len() == n,
                        forall|q: int| 0 <= q < g.len() ==> g[q] < n,
                        forall|j1: int, j2: int| 0 <= j1 < j2 < g.len() ==> g[j1] < g[j2],
                        song_views(songs@) == Seq::new(
                            n as nat,
                            |x: int|
                                if g.take(j as int).contains(x as usize) {
                                    with_metadata(before[x], *item)
                                } else {
                                    before[x]
                                },
                        ),
                    decreases m - j,
                {
                    let x = group[j];
                    let ghost cur = song_views(songs@);
                    assert(!g.take(j as int).contains(x)) by {
                        if g.take(j as int).contains(x) {
                            let q = choose|q: int| 0 <= q < j && g.take(j as int)[q] == x;
                            assert(g[q] < g[j as int]);
                        }
                    }
                    assert(cur[x as int] == before[x as int]);
                    assert(songs@[x as int]@ == before[x as int]);
                    let fresh = metadata_song(&songs[x], item);
                    songs.set(x, fresh);
                    assert(g.take(j + 1) =~= g.take(j as int).push(x));
                    assert(song_views(songs@) =~= Seq::new(
                        n as nat,
                        |y: int|
                            if g.take(j + 1).contains(y as usize) {
                                with_metadata(before[y], *item)
                            } else {
                                before[y]
                            },
                    )) by {
                        assert forall|y: int| 0 <= y < n implies #[trigger] song_views(songs@)[y] == (
                        if g.take(j + 1).contains(y as usize) {
                            with_metadata(before[y], *item)
                        } else {
                            before[y]
                        }) by {
                            if y != x {
                                assert(song_views(songs@)[y] == cur[y]);
                                assert(g.take(j + 1).contains(y as usize) == g.take(j as int).contains(
                                    y as usize,
                                ));
                            }
                        }
                    }
                    j = j + 1;
                }
                assert(g.take(m as int) =~= g);
                assert(song_views(songs@) =~= apply_item(before, g, *item));
                updated = updated.saturating_add(m);
            },
        }
        t = t + 1;
    }
    assert(items@.take(items@.len() as int) =~= items@);
    updated
}

/// What is wrong with a card of a playlist.
#[derive(Debug, Clone, Copy, PartialEq, Eq)]
pub enum IssueKind {
    /// The URL names a video, but the stored hash is not current.
    HashMismatch,
    /// The URL names no video.
    InvalidUrl,
}

/// A card of a playlist, by position, and what is wrong with it.
#[derive(Debug, Clone, Copy, PartialEq, Eq)]
pub struct SongIssue {
    pub index: usize,
    pub kind: IssueKind,
}

/// What is wrong with a card, if anything: a URL that names no video, or else
/// a hash that is not current.
pub open spec fn issue_of(s: SongView) -> Option<IssueKind> {
    if video_id(s.url) is Some {
        if hash_is_current(s) {
            None
        } else {
            Some(IssueKind::HashMismatch)
        }
    } else {
        Some(IssueKind::InvalidUrl)
    }
}

/// The issues of the cards, in card order.
pub open spec fn set_issues(songs: Seq<SongView>) -> Seq<SongIssue>
    decreases songs.len(),
{
    if songs.len() == 0 {
        Seq::empty()
    } else {
        let rest = set_issues(songs.drop_last());
        match issue_of(songs.last()) {
            Some(kind) => rest.push(SongIssue { index: (songs.len() - 1) as usize, kind }),
            None => rest,
        }
    }
}

/// Checks the cards of a playlist: each card whose URL names no video, and
/// each card whose hash is not current, in card order (see [`set_issues`]).
pub fn check_set(songs: &Vec<Song>) -> (issues: Vec<SongIssue>)
    ensures
        issues@ == set_issues(song_views(songs@)),
{
    let ghost views = song_views(songs@);
    let mut issues: Vec<SongIssue> = Vec::new();
    let mut i: usize = 0;
    assert(views.take(0) =~= Seq::<SongView>::empty());
    while i < songs.len()
        invariant
            i <= songs@.len(),
            views == song_views(songs@),
            issues@ == set_issues(views.take(i as int)),
        decreases songs@.len() - i,
    {
        let ghost prefix = views.take(i + 1);
        assert(prefix.drop_last() =~= views.take(i as int));
        assert(prefix.last() == songs@[i as int]@);
        match songs[i].get_yt_id() {
            Some(_) => {
                if !songs[i].check_hash() {
                    issues.push(SongIssue { index: i, kind: IssueKind::HashMismatch });
                }
            },
            None => {
                issues.push(SongIssue { index: i, kind: IssueKind::InvalidUrl });
            },
        }
        i = i + 1;
    }
    assert(views.take(songs@.len() as int) =~= views);
    issues
}

/// A playlist check reports nothing exactly when every card's URL names a
/// video and every card's hash is current.
pub proof fn lemma_clean_set(songs: Seq<SongView>)
    ensures
        (set_issues(songs).len() == 0) <==> forall|i: int|
            0 <= i < songs.len() ==> video_id(#[trigger] songs[i].url) is Some && hash_is_current(
                songs[i],
            ),
    decreases songs.len(),
{
    if songs.len() > 0 {
        let rest = songs.drop_last();
        lemma_clean_set(rest);
        lemma_issues_len(rest);
        assert forall|i: int| 0 <= i < rest.len() implies rest[i] == songs[i] by {}
        if set_issues(songs).len() == 0 {
            assert(issue_of(songs.last()) is None);
            assert forall|i: int| 0 <= i < songs.len() implies video_id(#[trigger] songs[i].url) is Some
                && hash_is_current(songs[i]) by {
                if i < rest.len() {
                    assert(rest[i] == songs[i]);
                }
            }
        }
        if forall|i: int|
            0 <= i < songs.len() ==> video_id(#[trigger] songs[i].url) is Some && hash_is_current(
                songs[i],
            ) {
            assert(video_id(songs[songs.len() - 1].url) is Some);
            assert forall|i: int| 0 <= i < rest.len() implies video_id(#[trigger] rest[i].url) is Some
                && hash_is_current(rest[i]) by {
                assert(rest[i] == songs[i]);
                assert(video_id(songs[i].url) is Some);
            }
        }
    }
}

proof fn lemma_issues_len(songs: Seq<SongView>)
    ensures
        set_issues(songs).len() <= songs.len(),
    decreases songs.len(),
{
    if songs.len() > 0 {
        lemma_issues_len(songs.drop_last());
    }
}

/// A card that takes a metadata answer stores a current hash, and its URL
/// names the answered video when the answer's id is a bare id.
pub proof fn lemma_metadata_card_is_consistent(s: SongView, item: VideoItem)
    ensures
        hash_is_current(with_metadata(s, item)),
        is_bare_id(item.id@) ==> video_id(with_metadata(s, item).url) == Some(item.id@),
{
    if is_bare_id(item.id@) {
        lemma_watch_url_names_its_id(item.id@);
    }
}

/// A card that takes a search hit stores a current hash, and its URL names
/// the hit's video when the hit's id is a bare id.
pub proof fn lemma_search_card_is_consistent(s: SongView, hit: SearchItem)
    ensures
        hash_is_current(with_search_hit(s, hit)),
        is_bare_id(hit.id.video_id@) ==> video_id(with_search_hit(s, hit).url) == Some(
            hit.id.video_id@,
        ),
{
    if is_bare_id(hit.id.video_id@) {
        lemma_watch_url_names_its_id(hit.id.video_id@);
    }
}

/// Answers leave alone every card outside the groups of the plan.
pub proof fn lemma_answers_leave_other_cards(
    songs: Seq<SongView>,
    ids: Seq<Seq<char>>,
    groups: Seq<Seq<usize>>,
    items: Seq<VideoItem>,
    x: usize,
)
    requires
        x < songs.len(),
        ids.len() == groups.len(),
        forall|k: int| 0 <= k < groups.len() ==> !(#[trigger] groups[k]).contains(x),
    ensures
        apply_items(songs, ids, groups, items).len() == songs.len(),
        apply_items(songs, ids, groups, items)[x as int] == songs[x as int],
    decreases items.len(),
{
    if items.len() > 0 {
        lemma_answers_leave_other_cards(songs, ids, groups, items.drop_last(), x);
        let id = items.last().id@;
        if ids.contains(id) {
            let k = choose|k: int| 0 <= k < ids.len() && ids[k] == id;
            assert(!groups[k].contains(x));
        }
    }
}

/// Under the metadata plan of the cards, answers leave alone every card
/// whose hash is current or whose URL names no video.
pub proof fn lemma_plan_leaves_sound_cards(
    songs: Seq<SongView>,
    ids: Seq<Seq<char>>,
    groups: Seq<Seq<usize>>,
    items: Seq<VideoItem>,
    x: usize,
)
    requires
        is_metadata_plan(ids, groups, songs),
        x < songs.len(),
        !needs_metadata(songs[x as int]),
    ensures
        apply_items(songs, ids, groups, items)[x as int] == songs[x as int],
{
    assert forall|k: int| 0 <= k < groups.len() implies !(#[trigger] groups[k]).contains(
        x,
    ) by {
        if groups[k].contains(x) {
            let j = choose|j: int| 0 <= j < groups[k].len() && groups[k][j] == x;
            assert(needs_metadata(songs[groups[k][j] as int]));
        }
    }
    lemma_answers_leave_other_cards(songs, ids, groups, items, x);
}

/// Every card that some answer reaches ends with a current hash.
pub proof fn lemma_answered_cards_are_current(
    songs: Seq<SongView>,
    ids: Seq<Seq<char>>,
    groups: Seq<Seq<usize>>,
    items: Seq<VideoItem>,
    x: usize,
    t: int,
)
    requires
        x < songs.len(),
        0 <= t < items.len(),
        group_for(ids, groups, items[t].id@).contains(x),
    ensures
        hash_is_current(apply_items(songs, ids, groups, items)[x as int]),
    decreases items.len(),
{
    let rest = items.drop_last();
    lemma_apply_len(songs, ids, groups, rest);
    let before = apply_items(songs, ids, groups, rest);
    if group_for(ids, groups, items.last().id@).contains(x) {
        lemma_metadata_card_is_consistent(before[x as int], items.last());
    } else {
        assert(t < items.len() - 1);
        assert(rest[t] == items[t]);
        lemma_answered_cards_are_current(songs, ids, groups, rest, x, t);
    }
}

proof fn lemma_apply_len(
    songs: Seq<SongView>,
    ids: Seq<Seq<char>>,
    groups: Seq<Seq<usize>>,
    items: Seq<VideoItem>,
)
    ensures
        apply_items(songs, ids, groups, items).len() == songs.len(),
    decreases items.len(),
{
    if items.len() > 0 {
        lemma_apply_len(songs, ids, groups, items.drop_last());
    }
}

/// Under the metadata plan of the cards, a card whose hash is stale and whose
/// video is among the answers ends with a current hash.
pub proof fn lemma_answered_stale_cards_become_current(
    songs: Seq<SongView>,
    ids: Seq<Seq<char>>,
    groups: Seq<Seq<usize>>,
    items: Seq<VideoItem>,
    x: usize,
    t: int,
)
    requires
        is_metadata_plan(ids, groups, songs),
        x < songs.len(),
        needs_metadata(songs[x as int]),
        0 <= t < items.len(),
        items[t].id@ == video_id(songs[x as int].url)->0,
    ensures
        hash_is_current(apply_items(songs, ids, groups, items)[x as int]),
{
    let id = items[t].id@;
    let k = choose|k: int|
        0 <= k < ids.len() && ids[k] == video_id(songs[x as int].url)->0 && #[trigger] groups[k].contains(
            x,
        );
    assert(ids.contains(id)) by {
        assert(ids[k] == id);
    }
    let c = choose|c: int| 0 <= c < ids.len() && ids[c] == id;
    assert(c == k);
    assert(group_for(ids, groups, id).contains(x));
    lemma_answered_cards_are_current(songs, ids, groups, items, x, t);
}

/// Under the metadata plan of the cards, answers never change which video a
/// card names, and every card they change ends with a current hash.
pub proof fn lemma_metadata_keeps_videos(
    songs: Seq<SongView>,
    ids: Seq<Seq<char>>,
    groups: Seq<Seq<usize>>,
    items: Seq<VideoItem>,
    x: usize,
)
    requires
        is_metadata_plan(ids, groups, songs),
        x < songs.len(),
    ensures
        video_id(apply_items(songs, ids, groups, items)[x as int].url) == video_id(
            songs[x as int].url,
        ),
        apply_items(songs, ids, groups, items)[x as int] == songs[x as int] || hash_is_current(
            apply_items(songs, ids, groups, items)[x as int],
        ),
    decreases items.len(),
{
    if items.len() > 0 {
        let rest = items.drop_last();
        lemma_metadata_keeps_videos(songs, ids, groups, rest, x);
        lemma_apply_len(songs, ids, groups, rest);
        let before = apply_items(songs, ids, groups, rest);
        let item = items.last();
        let g = group_for(ids, groups, item.id@);
        if g.contains(x) {
            let k = choose|k: int| 0 <= k < ids.len() && ids[k] == item.id@;
            let j = choose|j: int| 0 <= j < g.len() && g[j] == x;
            assert(groups[k][j] == x);
            assert(video_id(songs[groups[k][j] as int].url) == Some(ids[k]));
            lemma_video_id_is_bare(songs[x as int].url);
            lemma_metadata_card_is_consistent(before[x as int], item);
        }
    }
}

/// A region restriction that blocks the country makes a video unavailable
/// there, whatever its status; so does an allow-list that leaves the country
/// out; so does a known status that is not embeddable or not processed. A
/// video without a region restriction is available.
pub proof fn lemma_availability_rules(item: VideoItem, country: Seq<char>)
    ensures
        (item.content_details matches Some(d) && d.region_restriction matches Some(r)
            && r.blocked matches Some(b) && texts(b@).contains(country)) ==> !is_available(
            item,
            country,
        ),
        (item.content_details matches Some(d) && d.region_restriction matches Some(r)
            && r.allowed matches Some(a) && !texts(a@).contains(country)) ==> !is_available(
            item,
            country,
        ),
        (item.content_details matches Some(d) && d.region_restriction matches Some(r)
            && item.status matches Some(st) && (!st.embeddable || st.upload_status@
            != "processed"@)) ==> !is_available(item, country),
        (item.content_details is None || (item.content_details matches Some(d)
            && d.region_restriction is None)) ==> is_available(item, country),
        (item.content_details matches Some(d) && d.region_restriction matches Some(r) && !(
        r.blocked matches Some(b) && texts(b@).contains(country)) && !(r.allowed matches Some(a)
            && !texts(a@).contains(country)) && !(item.status matches Some(st) && (!st.embeddable
            || st.upload_status@ != "processed"@))) ==> is_available(item, country),
{
}

/// A card that takes a metadata answer gets the answer's title when the answer
/// has a snippet (whatever title it had), keeps its title otherwise, gets the
/// watch link of the answered video, keeps its number, title, artist and year,
/// and stores the hash of its new URL, YouTube title and artist.
pub proof fn lemma_metadata_card_fields(s: SongView, item: VideoItem)
    ensures
        item.snippet matches Some(sn) ==> with_metadata(s, item).youtube_title == sn.title@,
        item.snippet is None ==> with_metadata(s, item).youtube_title == s.youtube_title,
        with_metadata(s, item).url == "https://www.youtube.com/watch?v="@ + item.id@,
        with_metadata(s, item).number == s.number,
        with_metadata(s, item).title == s.title,
        with_metadata(s, item).artist == s.artist,
        with_metadata(s, item).year == s.year,
        with_metadata(s, item).hashed == expected_hash(with_metadata(s, item)),
{
}

/// A card that takes a search hit gets the hit's title and the hit video's
/// watch link, keeps its number, title, artist and year, and stores the hash
/// of its new URL, YouTube title and artist.
pub proof fn lemma_search_card_fields(s: SongView, hit: SearchItem)
    ensures
        with_search_hit(s, hit).youtube_title == hit.snippet.title@,
        with_search_hit(s, hit).url == "https://www.youtube.com/watch?v="@ + hit.id.video_id@,
        with_search_hit(s, hit).number == s.number,
        with_search_hit(s, hit).title == s.title,
        with_search_hit(s, hit).artist == s.artist,
        with_search_hit(s, hit).year == s.year,
        with_search_hit(s, hit).hashed == expected_hash(with_search_hit(s, hit)),
{
}

/// An issue about the card at `i` is the card's own: an invalid URL exactly
/// when the URL names no video, a hash mismatch only when the hash is not current.
pub open spec fn issue_fits(issue: SongIssue, songs: Seq<SongView>) -> bool {
    &&& issue.index < songs.len()
    &&& (issue.kind == IssueKind::InvalidUrl) == (video_id(songs[issue.index as int].url) is None)
    &&& (issue.kind == IssueKind::HashMismatch) ==> !hash_is_current(songs[issue.index as int])
}

proof fn lemma_issues_fit(songs: Seq<SongView>)
    requires
        songs.len() <= usize::MAX,
    ensures
        forall|k: int|
            0 <= k < set_issues(songs).len() ==> issue_fits(#[trigger] set_issues(songs)[k], songs),
    decreases songs.len(),
{
    if songs.len() > 0 {
        let rest = songs.drop_last();
        lemma_issues_fit(rest);
        let ri = set_issues(rest);
        let all = set_issues(songs);
        assert forall|k: int| 0 <= k < all.len() implies issue_fits(#[trigger] all[k], songs) by {
            if k < ri.len() {
                assert(all[k] == ri[k]);
                assert(issue_fits(ri[k], rest));
                assert(rest[ri[k].index as int] == songs[ri[k].index as int]);
            } else {
                assert(songs.last() == songs[songs.len() - 1]);
            }
        }
    }
}

proof fn lemma_issues_ordered(songs: Seq<SongView>)
    requires
        songs.len() <= usize::MAX,
    ensures
        forall|k: int| 0 <= k < set_issues(songs).len() ==> #[trigger] set_issues(songs)[k].index < songs.len(),
        forall|k1: int, k2: int|
            0 <= k1 < k2 < set_issues(songs).len() ==> #[trigger] set_issues(songs)[k1].index
                < #[trigger] set_issues(songs)[k2].index,
    decreases songs.len(),
{
    if songs.len() > 0 {
        let rest = songs.drop_last();
        lemma_issues_ordered(rest);
        let ri = set_issues(rest);
        let all = set_issues(songs);
        assert forall|k: int| 0 <= k < ri.len() implies #[trigger] all[k] == ri[k] by {}
    }
}

proof fn lemma_issues_complete(songs: Seq<SongView>)
    requires
        songs.len() <= usize::MAX,
    ensures
        forall|i: int|
            0 <= i < songs.len() && (video_id(#[trigger] songs[i].url) is None || !hash_is_current(
                songs[i],
            )) ==> exists|k: int|
                0 <= k < set_issues(songs).len() && #[trigger] set_issues(songs)[k].index == i,
    decreases songs.len(),
{
    if songs.len() > 0 {
        let rest = songs.drop_last();
        lemma_issues_complete(rest);
        let ri = set_issues(rest);
        let all = set_issues(songs);
        let n = songs.len() - 1;
        assert forall|i: int|
            0 <= i < songs.len() && (video_id(#[trigger] songs[i].url) is None || !hash_is_current(
                songs[i],
            )) implies exists|k: int| 0 <= k < all.len() && #[trigger] all[k].index == i by {
            if i < n {
                assert(rest[i] == songs[i]);
                let k = choose|k: int| 0 <= k < ri.len() && #[trigger] ri[k].index == i;
                assert(all[k] == ri[k]);
            } else {
                assert(all[ri.len() as int].index == i);
            }
        }
    }
}

/// A playlist check reports each card on its own: one issue per card whose
/// URL names no video (an invalid URL) or whose hash is not current (a hash
/// mismatch, when the URL does name a video), in card order, and nothing else.
pub proof fn lemma_issues_are_per_card(songs: Seq<SongView>)
    requires
        songs.len() <= usize::MAX,
    ensures
        forall|k: int|
            0 <= k < set_issues(songs).len() ==> issue_fits(#[trigger] set_issues(songs)[k], songs),
        forall|k1: int, k2: int|
            0 <= k1 < k2 < set_issues(songs).len() ==> #[trigger] set_issues(songs)[k1].index
                < #[trigger] set_issues(songs)[k2].index,
        forall|i: int|
            0 <= i < songs.len() && (video_id(#[trigger] songs[i].url) is None || !hash_is_current(
                songs[i],
            )) ==> exists|k: int|
                0 <= k < set_issues(songs).len() && #[trigger] set_issues(songs)[k].index == i,
{
    lemma_issues_fit(songs);
    lemma_issues_ordered(songs);
    lemma_issues_complete(songs);
}

} // verus!
