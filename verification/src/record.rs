//! Playlists: the list of playlist files, a playlist with its song cards, and
//! the bookkeeping around checking which of its videos are blocked.

use vstd::prelude::*;
use std::collections::HashSet;
use crate::song::{Song, SongView, song_views};
use crate::text::{chars_of, contains_text, find_key, texts};
use crate::video_id::video_id;

verus! {

/// One line of the list of playlists: the playlist's file and its game edition.
#[derive(Debug, Clone, PartialEq, Eq)]
pub struct Record {
    pub file: String,
    pub game: String,
}

/// A [`Record`] with its texts as character sequences.
pub struct RecordView {
    pub file: Seq<char>,
    pub game: Seq<char>,
}

impl View for Record {
    type V = RecordView;

    open spec fn view(&self) -> RecordView {
        RecordView { file: self.file@, game: self.game@ }
    }
}

/// The views of a sequence of records.
pub open spec fn record_views(v: Seq<Record>) -> Seq<RecordView> {
    v.map_values(|r: Record| r@)
}

/// A playlist file with the song cards read from it.
#[derive(Debug, Clone, PartialEq, Eq)]
pub struct ParsedRecord {
    pub file: String,
    pub songs: Vec<Song>,
}

/// The folder without its trailing slashes.
pub open spec fn strip_trailing_slashes(s: Seq<char>) -> Seq<char>
    decreases s.len(),
{
    if s.len() > 0 && s.last() == '/' {
        strip_trailing_slashes(s.drop_last())
    } else {
        s
    }
}

/// The path of a file in a folder: the folder without trailing slashes, one
/// slash, the file name.
pub open spec fn file_path(folder: Seq<char>, file: Seq<char>) -> Seq<char> {
    strip_trailing_slashes(folder) + seq!['/'] + file
}

/// The path of `file` in `folder` (see [`file_path`]).
pub fn csv_path(folder: &str, file: &str) -> (p: String)
    ensures
        p@ == file_path(folder@, file@),
{
    let v = chars_of(folder);
    let n = v.len();
    let mut e: usize = n;
    assert(v@.subrange(0, n as int) =~= v@);
    while e > 0 && v[e - 1] == '/'
        invariant
            e <= n,
            n == v@.len(),
            v@ == folder@,
            strip_trailing_slashes(v@) == strip_trailing_slashes(v@.subrange(0, e as int)),
        decreases e,
    {
        assert(v@.subrange(0, e as int).drop_last() =~= v@.subrange(0, e - 1));
        e = e - 1;
    }
    let mut p = folder.substring_char(0, e).to_owned();
    proof {
        reveal_strlit("/");
    }
    p.append("/");
    p.append(file);
    assert(p@ =~= file_path(folder@, file@));
    p
}

fn copy_record(r: &Record) -> (c: Record)
    ensures
        c@ == r@,
{
    Record { file: r.file.clone(), game: r.game.clone() }
}

/// The playlists to work on: all of them when no file is named, else those
/// whose file is named, in their order.
pub open spec fn selected(all: Seq<RecordView>, files: Seq<Seq<char>>) -> Seq<RecordView> {
    if files.len() == 0 {
        all
    } else {
        all.filter(|r: RecordView| files.contains(r.file))
    }
}

/// The playlists to work on (see [`selected`]).
pub fn select_sets(all: Vec<Record>, files: &Vec<String>) -> (sets: Vec<Record>)
    ensures
        record_views(sets@) == selected(record_views(all@), texts(files@)),
{
    if files.len() == 0 {
        return all;
    }
    let ghost pred = |r: RecordView| texts(files@).contains(r.file);
    let mut sets: Vec<Record> = Vec::new();
    let mut i: usize = 0;
    while i < all.len()
        invariant
            i <= all@.len(),
            pred == (|r: RecordView| texts(files@).contains(r.file)),
            record_views(sets@) == record_views(all@).take(i as int).filter(pred),
        decreases all@.len() - i,
    {
        let ghost prefix = record_views(all@).take(i + 1);
        assert(prefix =~= record_views(all@).take(i as int).push(all@[i as int]@));
        proof {
            record_views(all@).take(i as int).lemma_filter_push(all@[i as int]@, pred);
        }
        if contains_text(files, all[i].file.as_str()) {
            let r = copy_record(&all[i]);
            sets.push(r);
            assert(record_views(sets@) =~= record_views(all@).take(i as int).filter(pred).push(
                all@[i as int]@,
            ));
            assert(record_views(sets@) == prefix.filter(pred));
        } else {
            assert(record_views(sets@) =~= record_views(all@).take(i as int).filter(pred));
            assert(record_views(sets@) == prefix.filter(pred));
        }
        i = i + 1;
    }
    assert(record_views(all@).take(all@.len() as int) =~= record_views(all@));
    sets
}

impl ParsedRecord {
    /// The playlist of `record` holding the song cards read from its file, or
    /// no card when the file could not be read.
    pub fn from_record(record: Record, songs: Option<Vec<Song>>) -> (p: ParsedRecord)
        ensures
            p.file@ == record.file@,
            song_views(p.songs@) == match songs {
                Some(v) => song_views(v@),
                None => Seq::empty(),
            },
    {
        let songs = match songs {
            Some(v) => v,
            None => Vec::new(),
        };
        ParsedRecord { file: record.file, songs }
    }

    /// Whether every card's URL names a video.
    pub fn validate_urls(&self) -> (r: bool)
        ensures
            r == forall|i: int| 0 <= i < self.songs@.len() ==> (#[trigger] video_id(
                self.songs@[i].url@,
            )) is Some,
    {
        let mut i: usize = 0;
        while i < self.songs.len()
            invariant
                i <= self.songs@.len(),
                forall|j: int| 0 <= j < i ==> (#[trigger] video_id(self.songs@[j].url@)) is Some,
            decreases self.songs@.len() - i,
        {
            if self.songs[i].get_yt_id().is_none() {
                return false;
            }
            i = i + 1;
        }
        true
    }
}

/// The ids of an id index are pairwise different.
pub open spec fn distinct_ids(index: Seq<(Seq<char>, usize)>) -> bool {
    forall|a: int, b: int| 0 <= a < b < index.len() ==> index[a].0 != index[b].0
}

/// `index` maps each video id named by the first `n` cards to the last of
/// those cards that names it, and holds nothing else.
pub open spec fn indexes_prefix(
    index: Seq<(Seq<char>, usize)>,
    songs: Seq<SongView>,
    n: int,
) -> bool {
    &&& distinct_ids(index)
    &&& forall|a: int|
        0 <= a < index.len() ==> {
            &&& #[trigger] index[a].1 < n
            &&& video_id(songs[index[a].1 as int].url) == Some(index[a].0)
            &&& forall|j: int|
                index[a].1 < j < n ==> video_id(#[trigger] songs[j].url) != Some(index[a].0)
        }
    &&& forall|i: int|
        0 <= i < n && (#[trigger] video_id(songs[i].url)) is Some ==> exists|a: int|
            0 <= a < index.len() && #[trigger] index[a].0 == video_id(songs[i].url)->0
}

/// `index` maps each video id named by the cards to the last card that names
/// it, and holds nothing else.
pub open spec fn is_id_index(index: Seq<(Seq<char>, usize)>, songs: Seq<SongView>) -> bool {
    indexes_prefix(index, songs, songs.len() as int)
}

proof fn lemma_index_skip(index: Seq<(Seq<char>, usize)>, songs: Seq<SongView>, i: int)
    requires
        0 <= i < songs.len(),
        indexes_prefix(index, songs, i),
        video_id(songs[i].url) is None,
    ensures
        indexes_prefix(index, songs, i + 1),
{
    assert forall|a: int| 0 <= a < index.len() implies forall|j: int|
        #[trigger] index[a].1 < j < i + 1 ==> video_id(#[trigger] songs[j].url) != Some(
            index[a].0,
        ) by {
        assert(index[a].1 < i);
    }
}

proof fn lemma_index_update(
    index: Seq<(Seq<char>, usize)>,
    songs: Seq<SongView>,
    i: usize,
    a: int,
    id: Seq<char>,
)
    requires
        0 <= i < songs.len(),
        indexes_prefix(index, songs, i as int),
        video_id(songs[i as int].url) == Some(id),
        0 <= a < index.len(),
        index[a].0 == id,
    ensures
        indexes_prefix(index.update(a, (id, i)), songs, i + 1),
{
    let new_index = index.update(a, (id, i));
    assert forall|k: int| 0 <= k < new_index.len() implies #[trigger] new_index[k].0
        == index[k].0 by {}
    assert forall|b: int| 0 <= b < new_index.len() implies {
        &&& #[trigger] new_index[b].1 < i + 1
        &&& video_id(songs[new_index[b].1 as int].url) == Some(new_index[b].0)
        &&& forall|j: int|
            new_index[b].1 < j < i + 1 ==> video_id(#[trigger] songs[j].url) != Some(
                new_index[b].0,
            )
    } by {
        if b != a {
            assert(index[b].0 != index[a].0);
            assert(index[b].1 < i);
        }
    }
    assert forall|k: int|
        0 <= k < i + 1 && (#[trigger] video_id(songs[k].url)) is Some implies exists|c: int|
        0 <= c < new_index.len() && #[trigger] new_index[c].0 == video_id(songs[k].url)->0 by {
        if k == i {
            assert(new_index[a].0 == id);
        } else {
            let c = choose|c: int|
                0 <= c < index.len() && #[trigger] index[c].0 == video_id(songs[k].url)->0;
            assert(new_index[c].0 == index[c].0);
        }
    }
}

proof fn lemma_index_push(
    index: Seq<(Seq<char>, usize)>,
    songs: Seq<SongView>,
    i: usize,
    id: Seq<char>,
)
    requires
        0 <= i < songs.len(),
        indexes_prefix(index, songs, i as int),
        video_id(songs[i as int].url) == Some(id),
        forall|a: int| 0 <= a < index.len() ==> index[a].0 != id,
    ensures
        indexes_prefix(index.push((id, i)), songs, i + 1),
{
    let new_index = index.push((id, i));
    assert forall|b: int| 0 <= b < new_index.len() implies {
        &&& #[trigger] new_index[b].1 < i + 1
        &&& video_id(songs[new_index[b].1 as int].url) == Some(new_index[b].0)
        &&& forall|j: int|
            new_index[b].1 < j < i + 1 ==> video_id(#[trigger] songs[j].url) != Some(
                new_index[b].0,
            )
    } by {
        if b < index.len() {
            assert(index[b].0 != id);
            assert(index[b].1 < i);
        }
    }
    assert forall|k: int|
        0 <= k < i + 1 && (#[trigger] video_id(songs[k].url)) is Some implies exists|c: int|
        0 <= c < new_index.len() && #[trigger] new_index[c].0 == video_id(songs[k].url)->0 by {
        if k == i {
            assert(new_index[index.len() as int].0 == id);
        } else {
            let c = choose|c: int|
                0 <= c < index.len() && #[trigger] index[c].0 == video_id(songs[k].url)->0;
            assert(new_index[c].0 == index[c].0);
        }
    }
}

impl ParsedRecord {
    /// For each video id that the cards name, the position of the last card
    /// naming it (see [`is_id_index`]).
    pub fn build_id_index(&self) -> (index: Vec<(String, usize)>)
        ensures
            is_id_index(index.deep_view(), song_views(self.songs@)),
    {
        let ghost songs = song_views(self.songs@);
        let mut index: Vec<(String, usize)> = Vec::new();
        let n = self.songs.len();
        let mut i: usize = 0;
        while i < n
            invariant
                n == self.songs@.len(),
                songs == song_views(self.songs@),
                i <= n,
                indexes_prefix(index.deep_view(), songs, i as int),
            decreases n - i,
        {
            let ghost old_index = index.deep_view();
            assert(songs[i as int] == self.songs@[i as int]@);
            match self.songs[i].get_yt_id() {
                None => {
                    proof {
                        lemma_index_skip(old_index, songs, i as int);
                    }
                },
                Some(id) => {
                    let ghost idv = id@;
                    match find_key(&index, id.as_str()) {
                        Some(a) => {
                            index.set(a, (id, i));
                            assert(index.deep_view() =~= old_index.update(a as int, (idv, i)));
                            proof {
                                lemma_index_update(old_index, songs, i, a as int, idv);
                            }
                        },
                        None => {
                            index.push((id, i));
                            assert(index.deep_view() =~= old_index.push((idv, i)));
                            proof {
                                lemma_index_push(old_index, songs, i, idv);
                            }
                        },
                    }
                },
            }
            i = i + 1;
        }
        index
    }
}

/// The batches one after the other.
pub open spec fn flatten(chunks: Seq<Seq<Seq<char>>>) -> Seq<Seq<char>>
    decreases chunks.len(),
{
    if chunks.len() == 0 {
        Seq::empty()
    } else {
        flatten(chunks.drop_last()) + chunks.last()
    }
}

/// The views of a sequence of batches of strings.
pub open spec fn batch_texts(v: Seq<Vec<String>>) -> Seq<Seq<Seq<char>>> {
    v.map_values(|c: Vec<String>| texts(c@))
}

/// `chunks` cuts `ids` into batches of `size`, in order; only the last batch
/// may be shorter, and no batch is empty.
pub open spec fn is_batching(chunks: Seq<Seq<Seq<char>>>, ids: Seq<Seq<char>>, size: int) -> bool {
    &&& flatten(chunks) == ids
    &&& forall|c: int| 0 <= c < chunks.len() ==> 0 < (#[trigger] chunks[c]).len() <= size
    &&& forall|c: int| 0 <= c < chunks.len() - 1 ==> (#[trigger] chunks[c]).len() == size
}

/// Cuts `ids` into batches of `size` ids (see [`is_batching`]).
pub fn batches(ids: &Vec<String>, size: usize) -> (chunks: Vec<Vec<String>>)
    requires
        size > 0,
    ensures
        is_batching(batch_texts(chunks@), texts(ids@), size as int),
{
    let mut chunks: Vec<Vec<String>> = Vec::new();
    let mut cur: Vec<String> = Vec::new();
    let n = ids.len();
    let mut i: usize = 0;
    while i < n
        invariant
            n == ids@.len(),
            i <= n,
            size > 0,
            cur@.len() < size,
            flatten(batch_texts(chunks@)) + texts(cur@) == texts(ids@).take(i as int),
            forall|c: int| 0 <= c < chunks@.len() ==> (#[trigger] chunks@[c])@.len() == size,
        decreases n - i,
    {
        let ghost before = texts(cur@);
        let id = ids[i].clone();
        cur.push(id);
        assert(texts(cur@) =~= before.push(ids@[i as int]@));
        assert(texts(ids@).take(i + 1) =~= texts(ids@).take(i as int).push(ids@[i as int]@));
        if cur.len() == size {
            let ghost old_chunks = batch_texts(chunks@);
            chunks.push(cur);
            cur = Vec::new();
            assert(batch_texts(chunks@).drop_last() =~= old_chunks);
            assert(texts(cur@) =~= Seq::<Seq<char>>::empty());
        }
        i = i + 1;
    }
    if cur.len() > 0 {
        let ghost old_chunks = batch_texts(chunks@);
        let ghost last = texts(cur@);
        chunks.push(cur);
        assert(batch_texts(chunks@).drop_last() =~= old_chunks);
        assert(batch_texts(chunks@).last() == last);
    } else {
        assert(texts(cur@) =~= Seq::<Seq<char>>::empty());
    }
    assert(texts(ids@).take(n as int) =~= texts(ids@));
    assert(flatten(batch_texts(chunks@)) =~= texts(ids@));
    chunks
}

/// Card position `x` is reported blocked: it is the position that `index`
/// stores for an id whose availability result is `false`.
pub open spec fn reported_blocked(
    index: Seq<(Seq<char>, usize)>,
    results: Seq<(Seq<char>, bool)>,
    x: usize,
) -> bool {
    exists|a: int, r: int|
        0 <= a < index.len() && 0 <= r < results.len() && #[trigger] index[a].1 == x
            && #[trigger] results[r].0 == index[a].0 && !results[r].1
}

/// Adds to `blocked` the card positions that an availability answer reports
/// blocked (see [`reported_blocked`]).
pub fn record_blocked(
    index: &Vec<(String, usize)>,
    results: &Vec<(String, bool)>,
    blocked: &mut HashSet<usize>,
)
    requires
        distinct_ids(index.deep_view()),
    ensures
        forall|x: usize|
            #[trigger] final(blocked)@.contains(x) <==> old(blocked)@.contains(x)
                || reported_blocked(index.deep_view(), results.deep_view(), x),
{
    broadcast use vstd::std_specs::hash::group_hash_axioms;

    let ghost start = blocked@;
    let ghost ix = index.deep_view();
    let ghost rs = results.deep_view();
    let mut r: usize = 0;
    while r < results.len()
        invariant
            r <= results@.len(),
            ix == index.deep_view(),
            rs == results.deep_view(),
            distinct_ids(ix),
            forall|x: usize|
                #[trigger] blocked@.contains(x) <==> start.contains(x) || reported_blocked(
                    ix,
                    rs.take(r as int),
                    x,
                ),
        decreases results@.len() - r,
    {
        let ghost before = blocked@;
        let ghost prev = rs.take(r as int);
        let ghost next = rs.take(r + 1);
        assert(next =~= prev.push(rs[r as int]));
        assert forall|x: usize| reported_blocked(ix, prev, x) implies reported_blocked(ix, next, x) by {
            let (a, q) = choose|a: int, q: int|
                0 <= a < ix.len() && 0 <= q < prev.len() && #[trigger] ix[a].1 == x
                    && #[trigger] prev[q].0 == ix[a].0 && !prev[q].1;
            assert(next[q] == prev[q]);
        }
        if !results[r].1 {
            match find_key(index, results[r].0.as_str()) {
                Some(a) => {
                    let x = index[a].1;
                    assert(ix[a as int].1 == x);
                    assert(next[r as int].0 == ix[a as int].0);
                    assert(reported_blocked(ix, next, x));
                    blocked.insert(x);
                    assert forall|y: usize|
                        start.contains(y) || reported_blocked(ix, next, y) implies #[trigger]
                        blocked@.contains(y) by {
                        if y != x && !start.contains(y) && !reported_blocked(ix, prev, y) {
                            let (b, q) = choose|b: int, q: int|
                                0 <= b < ix.len() && 0 <= q < next.len() && #[trigger] ix[b].1 == y
                                    && #[trigger] next[q].0 == ix[b].0 && !next[q].1;
                            if q < r {
                                assert(prev[q] == next[q]);
                                assert(reported_blocked(ix, prev, y));
                            }
                            assert(q == r);
                            assert(b == a);
                        }
                    }
                },
                None => {
                    assert forall|y: usize|
                        reported_blocked(ix, next, y) implies reported_blocked(ix, prev, y) by {
                        let (b, q) = choose|b: int, q: int|
                            0 <= b < ix.len() && 0 <= q < next.len() && #[trigger] ix[b].1 == y
                                && #[trigger] next[q].0 == ix[b].0 && !next[q].1;
                        if q == r {
                            assert(ix[b].0 != results@[r as int].0@);
                        }
                        assert(prev[q] == next[q]);
                    }
                },
            }
        } else {
            assert forall|y: usize|
                reported_blocked(ix, next, y) implies reported_blocked(ix, prev, y) by {
                let (b, q) = choose|b: int, q: int|
                    0 <= b < ix.len() && 0 <= q < next.len() && #[trigger] ix[b].1 == y
                        && #[trigger] next[q].0 == ix[b].0 && !next[q].1;
                assert(q != r);
                assert(prev[q] == next[q]);
            }
        }
        r = r + 1;
    }
    assert(rs.take(results@.len() as int) =~= rs);
}

/// A card position that an availability answer reports blocked is a card
/// whose video the answer reports unavailable.
pub proof fn lemma_blocked_card_is_unavailable(
    index: Seq<(Seq<char>, usize)>,
    songs: Seq<SongView>,
    results: Seq<(Seq<char>, bool)>,
    x: usize,
)
    requires
        is_id_index(index, songs),
        reported_blocked(index, results, x),
    ensures
        x < songs.len(),
        exists|r: int|
            0 <= r < results.len() && video_id(songs[x as int].url) == Some(#[trigger] results[r].0)
                && !results[r].1,
{
    let (a, r) = choose|a: int, r: int|
        0 <= a < index.len() && 0 <= r < results.len() && #[trigger] index[a].1 == x
            && #[trigger] results[r].0 == index[a].0 && !results[r].1;
    assert(index[a].1 < songs.len());
}

/// When an availability answer reports a video unavailable, the last card
/// naming that video is reported blocked.
pub proof fn lemma_unavailable_video_blocks_its_last_card(
    index: Seq<(Seq<char>, usize)>,
    songs: Seq<SongView>,
    results: Seq<(Seq<char>, bool)>,
    i: int,
    r: int,
)
    requires
        is_id_index(index, songs),
        0 <= i < songs.len(),
        0 <= r < results.len(),
        !results[r].1,
        video_id(songs[i].url) == Some(results[r].0),
        forall|j: int| i < j < songs.len() ==> video_id(#[trigger] songs[j].url) != Some(
            results[r].0,
        ),
    ensures
        i <= usize::MAX,
        reported_blocked(index, results, i as usize),
{
    let a = choose|a: int|
        0 <= a < index.len() && #[trigger] index[a].0 == video_id(songs[i].url)->0;
    let x = index[a].1;
    assert(video_id(songs[x as int].url) == Some(index[a].0));
    if (x as int) < i {
        assert(video_id(songs[i].url) != Some(index[a].0));
    }
    if (x as int) > i {
        assert(video_id(songs[x as int].url) != Some(results[r].0));
    }
    assert(x as int == i);
    assert(index[a].1 == x && results[r].0 == index[a].0);
}

/// With no file named every playlist is selected; otherwise exactly the
/// playlists whose file is named, each once and in their order.
pub proof fn lemma_selected_sets(all: Seq<RecordView>, files: Seq<Seq<char>>)
    ensures
        files.len() == 0 ==> selected(all, files) == all,
        files.len() > 0 ==> forall|k: int|
            0 <= k < selected(all, files).len() ==> files.contains(
                (#[trigger] selected(all, files)[k]).file,
            ),
        files.len() > 0 ==> forall|i: int|
            0 <= i < all.len() && files.contains(#[trigger] all[i].file) ==> selected(
                all,
                files,
            ).contains(all[i]),
        selected(all, files).len() <= all.len(),
{
    let pred = |r: RecordView| files.contains(r.file);
    if files.len() > 0 {
        all.lemma_filter_len(pred);
        assert forall|k: int| 0 <= k < all.filter(pred).len() implies files.contains(
            (#[trigger] all.filter(pred)[k]).file,
        ) by {
            all.lemma_filter_pred(pred, k);
        }
        assert forall|i: int|
            0 <= i < all.len() && files.contains(#[trigger] all[i].file) implies all.filter(
            pred,
        ).contains(all[i]) by {
            all.lemma_filter_contains(pred, i);
        }
    }
}

/// With files named, selecting from the playlists followed by one more keeps
/// the earlier selection and adds the new playlist at the end exactly when its
/// file is named; nothing is selected from no playlists.
pub proof fn lemma_selected_push(all: Seq<RecordView>, r: RecordView, files: Seq<Seq<char>>)
    requires
        files.len() > 0,
    ensures
        selected(Seq::empty(), files) == Seq::<RecordView>::empty(),
        selected(all.push(r), files) == if files.contains(r.file) {
            selected(all, files).push(r)
        } else {
            selected(all, files)
        },
{
    let pred = |x: RecordView| files.contains(x.file);
    all.lemma_filter_push(r, pred);
    Seq::<RecordView>::empty().lemma_filter_len(pred);
    assert(Seq::<RecordView>::empty().filter(pred) =~= Seq::<RecordView>::empty());
}

} // verus!
