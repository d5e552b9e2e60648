//! Recognising YouTube video ids in the URL column of a playlist.
//!
//! A URL cell names a video either as a bare id (eleven characters out of
//! `A-Z a-z 0-9 _ -`, possibly with surrounding whitespace) or through a link
//! such as `https://www.youtube.com/watch?v=<id>` or `youtu.be/<id>`. The link
//! may stand at the start of the cell or after whitespace, a quote or an
//! opening parenthesis; the first such link in the cell gives the id.

use vstd::prelude::*;
use crate::text::chars_of;

verus! {

/// A character allowed in a video id.
pub open spec fn is_id_char(c: char) -> bool {
    ||| ('A' <= c && c <= 'Z')
    ||| ('a' <= c && c <= 'z')
    ||| ('0' <= c && c <= '9')
    ||| c == '_'
    ||| c == '-'
}

/// Unicode white space (the `White_Space` property), as trimmed by `str::trim`.
pub open spec fn is_white(c: char) -> bool {
    ||| ('\u{9}' <= c && c <= '\u{d}')
    ||| c == ' '
    ||| c == '\u{85}'
    ||| c == '\u{a0}'
    ||| c == '\u{1680}'
    ||| ('\u{2000}' <= c && c <= '\u{200a}')
    ||| c == '\u{2028}'
    ||| c == '\u{2029}'
    ||| c == '\u{202f}'
    ||| c == '\u{205f}'
    ||| c == '\u{3000}'
}

/// A character after which a link may start.
pub open spec fn is_delimiter(c: char) -> bool {
    is_white(c) || c == '"' || c == '\'' || c == '('
}

/// Exactly eleven id characters.
pub open spec fn is_bare_id(t: Seq<char>) -> bool {
    &&& t.len() == 11
    &&& forall|i: int| 0 <= i < 11 ==> #[trigger] is_id_char(t[i])
}

/// The text without its leading white space.
pub open spec fn trim_start(s: Seq<char>) -> Seq<char>
    decreases s.len(),
{
    if s.len() > 0 && is_white(s[0]) {
        trim_start(s.drop_first())
    } else {
        s
    }
}

/// The text without its trailing white space.
pub open spec fn trim_end(s: Seq<char>) -> Seq<char>
    decreases s.len(),
{
    if s.len() > 0 && is_white(s.last()) {
        trim_end(s.drop_last())
    } else {
        s
    }
}

/// The text without leading and trailing white space.
pub open spec fn trim(s: Seq<char>) -> Seq<char> {
    trim_end(trim_start(s))
}

/// `lit` occurs in `s` at position `q`.
pub open spec fn has_at(s: Seq<char>, q: int, lit: Seq<char>) -> bool {
    &&& 0 <= q
    &&& q + lit.len() <= s.len()
    &&& s.subrange(q, q + lit.len()) == lit
}

/// The position after `lit` when it occurs at `q`, else `q` itself.
pub open spec fn skip_opt(s: Seq<char>, q: int, lit: Seq<char>) -> int {
    if has_at(s, q, lit) {
        q + lit.len()
    } else {
        q
    }
}

/// Where the id starts when a YouTube link starts at `q`: an optional
/// `http://` or `https://`, optional `www.`, `m.` and `music.`, then
/// `youtu.be/` or `youtube.com/` followed by `watch?v=`, `embed/`, `shorts/`
/// or `v/`.
pub open spec fn link_id_start(s: Seq<char>, q: int) -> Option<int> {
    let p1 = if has_at(s, q, "https://"@) {
        q + "https://"@.len()
    } else {
        skip_opt(s, q, "http://"@)
    };
    let p2 = skip_opt(s, p1, "www."@);
    let p3 = skip_opt(s, p2, "m."@);
    let p4 = skip_opt(s, p3, "music."@);
    if has_at(s, p4, "youtu.be/"@) {
        Some(p4 + "youtu.be/"@.len())
    } else if has_at(s, p4, "youtube.com/"@) {
        let p5 = p4 + "youtube.com/"@.len();
        if has_at(s, p5, "watch?v="@) {
            Some(p5 + "watch?v="@.len())
        } else if has_at(s, p5, "embed/"@) {
            Some(p5 + "embed/"@.len())
        } else if has_at(s, p5, "shorts/"@) {
            Some(p5 + "shorts/"@.len())
        } else if has_at(s, p5, "v/"@) {
            Some(p5 + "v/"@.len())
        } else {
            None
        }
    } else {
        None
    }
}

/// A link may start at `q`: the start of the text, or right after a delimiter.
pub open spec fn can_start(s: Seq<char>, q: int) -> bool {
    q == 0 || (1 <= q <= s.len() && is_delimiter(s[q - 1]))
}

/// The eleven id characters at `p`, if they are there.
pub open spec fn id_at(s: Seq<char>, p: int) -> Option<Seq<char>> {
    if 0 <= p && p + 11 <= s.len() && is_bare_id(s.subrange(p, p + 11)) {
        Some(s.subrange(p, p + 11))
    } else {
        None
    }
}

/// The id of a link that starts at `q`.
pub open spec fn link_at(s: Seq<char>, q: int) -> Option<Seq<char>> {
    if can_start(s, q) {
        match link_id_start(s, q) {
            Some(p) => id_at(s, p),
            None => None,
        }
    } else {
        None
    }
}

/// The id of the first link that starts at `q` or later.
pub open spec fn first_link_from(s: Seq<char>, q: int) -> Option<Seq<char>>
    decreases s.len() + 1 - q,
{
    if q < 0 || q > s.len() {
        None
    } else {
        match link_at(s, q) {
            Some(id) => Some(id),
            None => first_link_from(s, q + 1),
        }
    }
}

/// The video id that a URL cell names: the trimmed cell when it is a bare id,
/// else the id of the first link in it.
pub closed spec fn video_id(s: Seq<char>) -> Option<Seq<char>> {
    if is_bare_id(trim(s)) {
        Some(trim(s))
    } else {
        first_link_from(s, 0)
    }
}

proof fn lemma_trim_start(s: Seq<char>, k: int)
    requires
        0 <= k <= s.len(),
        forall|i: int| 0 <= i < k ==> is_white(#[trigger] s[i]),
        k == s.len() || !is_white(s[k]),
    ensures
        trim_start(s) == s.subrange(k, s.len() as int),
    decreases k,
{
    if k == 0 {
        assert(s.subrange(0, s.len() as int) =~= s);
    } else {
        assert(is_white(s[0]));
        let t = s.drop_first();
        assert forall|i: int| 0 <= i < k - 1 implies is_white(#[trigger] t[i]) by {
            assert(t[i] == s[i + 1]);
        }
        lemma_trim_start(t, k - 1);
        assert(t.subrange(k - 1, t.len() as int) =~= s.subrange(k, s.len() as int));
    }
}

proof fn lemma_trim_end(s: Seq<char>, e: int)
    requires
        0 <= e <= s.len(),
        forall|i: int| e <= i < s.len() ==> is_white(#[trigger] s[i]),
        e == 0 || !is_white(s[e - 1]),
    ensures
        trim_end(s) == s.subrange(0, e),
    decreases s.len() - e,
{
    if e == s.len() {
        assert(s.subrange(0, s.len() as int) =~= s);
    } else {
        assert(is_white(s.last()));
        let t = s.drop_last();
        assert forall|i: int| e <= i < t.len() implies is_white(#[trigger] t[i]) by {
            assert(t[i] == s[i]);
        }
        lemma_trim_end(t, e);
        assert(t.subrange(0, e) =~= s.subrange(0, e));
    }
}

/// Whether `c` is Unicode white space.
pub fn char_is_white(c: char) -> (r: bool)
    ensures
        r == is_white(c),
{
    ('\u{9}' <= c && c <= '\u{d}') || c == ' ' || c == '\u{85}' || c == '\u{a0}' || c
        == '\u{1680}' || ('\u{2000}' <= c && c <= '\u{200a}') || c == '\u{2028}' || c
        == '\u{2029}' || c == '\u{202f}' || c == '\u{205f}' || c == '\u{3000}'
}

/// Whether `c` may occur in a video id.
pub fn char_is_id(c: char) -> (r: bool)
    ensures
        r == is_id_char(c),
{
    ('A' <= c && c <= 'Z') || ('a' <= c && c <= 'z') || ('0' <= c && c <= '9') || c == '_'
        || c == '-'
}

/// Bounds of the trimmed text inside `s`.
fn trim_bounds(s: &Vec<char>) -> (r: (usize, usize))
    ensures
        r.0 <= r.1 <= s@.len(),
        trim(s@) == s@.subrange(r.0 as int, r.1 as int),
{
    let n = s.len();
    let mut k: usize = 0;
    while k < n && char_is_white(s[k])
        invariant
            k <= n,
            n == s@.len(),
            forall|i: int| 0 <= i < k ==> is_white(#[trigger] s@[i]),
        decreases n - k,
    {
        k = k + 1;
    }
    let mut e: usize = n;
    while e > k && char_is_white(s[e - 1])
        invariant
            k <= e <= n,
            n == s@.len(),
            forall|i: int| e <= i < n ==> is_white(#[trigger] s@[i]),
        decreases e,
    {
        e = e - 1;
    }
    proof {
        lemma_trim_start(s@, k as int);
        let t = s@.subrange(k as int, n as int);
        assert forall|i: int| e - k <= i < t.len() implies is_white(#[trigger] t[i]) by {
            assert(t[i] == s@[i + k]);
        }
        if e > k {
            assert(t[e - k - 1] == s@[e - 1]);
        }
        lemma_trim_end(t, e - k);
        assert(t.subrange(0, e - k) =~= s@.subrange(k as int, e as int));
    }
    (k, e)
}

/// Whether `lit` occurs in `s` at `q`.
fn has_at_exec(s: &Vec<char>, q: usize, lit: &Vec<char>) -> (r: bool)
    ensures
        r == has_at(s@, q as int, lit@),
        r ==> q + lit.len() <= s.len(),
{
    let n = s.len();
    let m = lit.len();
    if q > n || m > n - q {
        return false;
    }
    let mut j: usize = 0;
    while j < m
        invariant
            n == s@.len(),
            m == lit@.len(),
            q + m <= n,
            j <= m,
            forall|i: int| 0 <= i < j ==> s@[q + i] == lit@[i],
        decreases m - j,
    {
        if s[q + j] != lit[j] {
            assert(s@.subrange(q as int, q + m)[j as int] != lit@[j as int]);
            return false;
        }
        j = j + 1;
    }
    assert(s@.subrange(q as int, q + m) =~= lit@);
    true
}

/// The position after `lit` when it occurs at `q`, else `q`.
fn skip_opt_exec(s: &Vec<char>, q: usize, lit: &str) -> (r: usize)
    requires
        q <= s@.len(),
    ensures
        r == skip_opt(s@, q as int, lit@),
        r <= s@.len(),
{
    let l = chars_of(lit);
    if has_at_exec(s, q, &l) {
        q + l.len()
    } else {
        q
    }
}

/// Where the id of a link starting at `q` begins.
fn link_id_start_exec(s: &Vec<char>, q: usize) -> (r: Option<usize>)
    requires
        q <= s@.len(),
    ensures
        match r {
            Some(p) => link_id_start(s@, q as int) == Some(p as int) && p <= s@.len(),
            None => link_id_start(s@, q as int) is None,
        },
{
    let https = chars_of("https://");
    let p1 = if has_at_exec(s, q, &https) {
        q + https.len()
    } else {
        skip_opt_exec(s, q, "http://")
    };
    let p2 = skip_opt_exec(s, p1, "www.");
    let p3 = skip_opt_exec(s, p2, "m.");
    let p4 = skip_opt_exec(s, p3, "music.");
    let short = chars_of("youtu.be/");
    if has_at_exec(s, p4, &short) {
        return Some(p4 + short.len());
    }
    let long = chars_of("youtube.com/");
    if !has_at_exec(s, p4, &long) {
        return None;
    }
    let p5 = p4 + long.len();
    let watch = chars_of("watch?v=");
    if has_at_exec(s, p5, &watch) {
        return Some(p5 + watch.len());
    }
    let embed = chars_of("embed/");
    if has_at_exec(s, p5, &embed) {
        return Some(p5 + embed.len());
    }
    let shorts = chars_of("shorts/");
    if has_at_exec(s, p5, &shorts) {
        return Some(p5 + shorts.len());
    }
    let v = chars_of("v/");
    if has_at_exec(s, p5, &v) {
        return Some(p5 + v.len());
    }
    None
}

/// Whether `s[from..to]` consists of id characters only.
fn all_id_chars(s: &Vec<char>, from: usize, to: usize) -> (r: bool)
    requires
        from <= to <= s@.len(),
    ensures
        r == forall|i: int| from <= i < to ==> is_id_char(#[trigger] s@[i]),
{
    let mut i = from;
    while i < to
        invariant
            from <= i <= to,
            to <= s@.len(),
            forall|j: int| from <= j < i ==> is_id_char(#[trigger] s@[j]),
        decreases to - i,
    {
        if !char_is_id(s[i]) {
            return false;
        }
        i = i + 1;
    }
    true
}

/// Where the id of a link starting at `q` begins, if a whole id follows.
fn link_at_exec(s: &Vec<char>, q: usize) -> (r: Option<usize>)
    requires
        q <= s@.len(),
    ensures
        match r {
            Some(p) => p + 11 <= s@.len() && link_at(s@, q as int) == Some(
                s@.subrange(p as int, p + 11),
            ),
            None => link_at(s@, q as int) is None,
        },
{
    let n = s.len();
    let starts = q == 0 || char_is_delimiter(s[q - 1]);
    if !starts {
        return None;
    }
    match link_id_start_exec(s, q) {
        None => None,
        Some(p) => {
            if p <= n && 11 <= n - p && all_id_chars(s, p, p + 11) {
                proof {
                    let t = s@.subrange(p as int, p + 11);
                    assert forall|i: int| 0 <= i < 11 implies #[trigger] is_id_char(t[i]) by {
                        assert(t[i] == s@[p + i]);
                    }
                }
                Some(p)
            } else {
                proof {
                    if p + 11 <= n {
                        let t = s@.subrange(p as int, p + 11);
                        if is_bare_id(t) {
                            assert forall|i: int| p <= i < p + 11 implies is_id_char(
                                #[trigger] s@[i],
                            ) by {
                                assert(s@[i] == t[i - p]);
                            }
                        }
                    }
                }
                None
            }
        },
    }
}

fn char_is_delimiter(c: char) -> (r: bool)
    ensures
        r == is_delimiter(c),
{
    char_is_white(c) || c == '"' || c == '\'' || c == '('
}

/// The video id that a URL cell names, as a start and end position in it.
pub fn video_id_bounds(s: &Vec<char>) -> (r: Option<(usize, usize)>)
    ensures
        match r {
            Some((a, b)) => a <= b <= s@.len() && video_id(s@) == Some(
                s@.subrange(a as int, b as int),
            ),
            None => video_id(s@) is None,
        },
{
    let (a, b) = trim_bounds(s);
    if b - a == 11 && all_id_chars(s, a, b) {
        proof {
            let t = s@.subrange(a as int, b as int);
            assert forall|i: int| 0 <= i < 11 implies #[trigger] is_id_char(t[i]) by {
                assert(t[i] == s@[a + i]);
            }
        }
        return Some((a, b));
    }
    proof {
        let t = s@.subrange(a as int, b as int);
        if is_bare_id(t) {
            assert forall|i: int| a <= i < b implies is_id_char(#[trigger] s@[i]) by {
                assert(s@[i] == t[i - a]);
            }
        }
    }
    let n = s.len();
    let mut q: usize = 0;
    loop
        invariant
            n == s@.len(),
            q <= n,
            first_link_from(s@, 0) == first_link_from(s@, q as int),
            !is_bare_id(trim(s@)),
        decreases n - q,
    {
        match link_at_exec(s, q) {
            Some(p) => {
                return Some((p, p + 11));
            },
            None => {},
        }
        if q == n {
            assert(first_link_from(s@, q + 1) is None);
            return None;
        }
        q = q + 1;
    }
}

/// The video id that a URL cell names (see [`video_id`]).
pub fn extract_video_id(url: &str) -> (r: Option<String>)
    ensures
        match r {
            Some(id) => video_id(url@) == Some(id@),
            None => video_id(url@) is None,
        },
{
    let s = chars_of(url);
    match video_id_bounds(&s) {
        Some((a, b)) => Some(url.substring_char(a, b).to_owned()),
        None => None,
    }
}

/// The watch link of a video: `https://www.youtube.com/watch?v=` and the id.
pub open spec fn watch_url_text(id: Seq<char>) -> Seq<char> {
    "https://www.youtube.com/watch?v="@ + id
}

/// The watch link of a video (see [`watch_url_text`]).
pub fn watch_url(id: &str) -> (url: String)
    ensures
        url@ == watch_url_text(id@),
{
    let mut url = String::from_str("https://www.youtube.com/watch?v=");
    url.append(id);
    url
}

proof fn lemma_first_link_is_bare(s: Seq<char>, q: int)
    ensures
        first_link_from(s, q) matches Some(id) ==> is_bare_id(id),
    decreases s.len() + 1 - q,
{
    if 0 <= q <= s.len() {
        if link_at(s, q) is None {
            lemma_first_link_is_bare(s, q + 1);
        }
    }
}

/// Whatever a URL cell yields is a bare id: eleven id characters.
pub proof fn lemma_video_id_is_bare(s: Seq<char>)
    ensures
        video_id(s) matches Some(id) ==> is_bare_id(id),
{
    lemma_first_link_is_bare(s, 0);
}

/// A cell that holds a bare id yields that id.
pub proof fn lemma_bare_id_names_itself(id: Seq<char>)
    requires
        is_bare_id(id),
    ensures
        video_id(id) == Some(id),
{
    assert(is_id_char(id[0]));
    assert(is_id_char(id.last()));
    assert(trim_start(id) == id);
    assert(trim_end(id) == id);
}

/// The watch link of a video yields the video's id back.
pub proof fn lemma_watch_url_names_its_id(id: Seq<char>)
    requires
        is_bare_id(id),
    ensures
        video_id(watch_url_text(id)) == Some(id),
{
    let s = watch_url_text(id);
    reveal_strlit("https://www.youtube.com/watch?v=");
    reveal_strlit("https://");
    reveal_strlit("http://");
    reveal_strlit("www.");
    reveal_strlit("m.");
    reveal_strlit("music.");
    reveal_strlit("youtu.be/");
    reveal_strlit("youtube.com/");
    reveal_strlit("watch?v=");
    let prefix = "https://www.youtube.com/watch?v="@;
    assert(prefix.len() == 32);
    assert(s.len() == 43);
    assert(forall|i: int| 0 <= i < 32 ==> s[i] == prefix[i]);
    assert(forall|i: int| 32 <= i < 43 ==> s[i] == id[i - 32]);
    // the whole link is not a bare id
    assert(!is_white(s[0]));
    assert(trim_start(s) == s);
    assert(is_id_char(id[10]));
    assert(s.last() == id[10]);
    assert(!is_white(s.last()));
    assert(trim_end(s) == s);
    assert(!is_bare_id(trim(s)));
    // the link at position 0
    assert(s.subrange(0, 8) =~= "https://"@);
    assert(s.subrange(8, 12) =~= "www."@);
    assert(s[13] != "m."@[1]);
    assert(!has_at(s, 12, "m."@));
    assert(s[13] != "music."@[1]);
    assert(!has_at(s, 12, "music."@));
    assert(s[17] != "youtu.be/"@[5]);
    assert(!has_at(s, 12, "youtu.be/"@));
    assert(s.subrange(12, 24) =~= "youtube.com/"@);
    assert(s.subrange(24, 32) =~= "watch?v="@);
    assert(link_id_start(s, 0) == Some(32int));
    assert(s.subrange(32, 43) =~= id);
    assert(link_at(s, 0) == Some(id));
}

/// The short link of a video yields the video's id back.
pub proof fn lemma_short_link_names_its_id(id: Seq<char>)
    requires
        is_bare_id(id),
    ensures
        video_id("https://youtu.be/"@ + id) == Some(id),
{
    let s = "https://youtu.be/"@ + id;
    reveal_strlit("https://youtu.be/");
    reveal_strlit("https://");
    reveal_strlit("http://");
    reveal_strlit("www.");
    reveal_strlit("m.");
    reveal_strlit("music.");
    reveal_strlit("youtu.be/");
    let prefix = "https://youtu.be/"@;
    assert(prefix.len() == 17);
    assert(s.len() == 28);
    assert(forall|i: int| 0 <= i < 17 ==> s[i] == prefix[i]);
    assert(forall|i: int| 17 <= i < 28 ==> s[i] == id[i - 17]);
    assert(!is_white(s[0]));
    assert(trim_start(s) == s);
    assert(is_id_char(id[10]));
    assert(s.last() == id[10]);
    assert(trim_end(s) == s);
    assert(!is_bare_id(trim(s)));
    assert(s.subrange(0, 8) =~= "https://"@);
    assert(s[8] != "www."@[0]);
    assert(!has_at(s, 8, "www."@));
    assert(s[8] != "m."@[0]);
    assert(!has_at(s, 8, "m."@));
    assert(s[8] != "music."@[0]);
    assert(!has_at(s, 8, "music."@));
    assert(s.subrange(8, 17) =~= "youtu.be/"@);
    assert(link_id_start(s, 0) == Some(17int));
    assert(s.subrange(17, 28) =~= id);
    assert(link_at(s, 0) == Some(id));
}

proof fn lemma_trim_start_is_suffix(s: Seq<char>)
    ensures
        exists|k: int| 0 <= k <= s.len() && trim_start(s) == s.subrange(k, s.len() as int),
    decreases s.len(),
{
    if s.len() > 0 && is_white(s[0]) {
        let t = s.drop_first();
        lemma_trim_start_is_suffix(t);
        let k = choose|k: int| 0 <= k <= t.len() && trim_start(t) == t.subrange(k, t.len() as int);
        assert(t.subrange(k, t.len() as int) =~= s.subrange(k + 1, s.len() as int));
    } else {
        assert(s.subrange(0, s.len() as int) =~= s);
    }
}

proof fn lemma_trim_end_is_prefix(s: Seq<char>)
    ensures
        exists|e: int| 0 <= e <= s.len() && trim_end(s) == s.subrange(0, e),
    decreases s.len(),
{
    if s.len() > 0 && is_white(s.last()) {
        let t = s.drop_last();
        lemma_trim_end_is_prefix(t);
        let e = choose|e: int| 0 <= e <= t.len() && trim_end(t) == t.subrange(0, e);
        assert(t.subrange(0, e) =~= s.subrange(0, e));
    } else {
        assert(s.subrange(0, s.len() as int) =~= s);
    }
}

proof fn lemma_first_link_is_slice(s: Seq<char>, q: int)
    ensures
        first_link_from(s, q) matches Some(id) ==> exists|a: int|
            0 <= a && a + 11 <= s.len() && #[trigger] s.subrange(a, a + 11) == id,
    decreases s.len() + 1 - q,
{
    if 0 <= q <= s.len() {
        match link_at(s, q) {
            Some(id) => {
                let p = link_id_start(s, q)->0;
                assert(s.subrange(p, p + 11) == id);
            },
            None => {
                lemma_first_link_is_slice(s, q + 1);
            },
        }
    }
}

/// Whatever a URL cell yields is eleven consecutive characters of the cell.
pub proof fn lemma_video_id_is_slice(s: Seq<char>)
    ensures
        video_id(s) matches Some(id) ==> exists|a: int|
            0 <= a && a + 11 <= s.len() && #[trigger] s.subrange(a, a + 11) == id,
{
    if is_bare_id(trim(s)) {
        lemma_trim_start_is_suffix(s);
        let k = choose|k: int| 0 <= k <= s.len() && trim_start(s) == s.subrange(k, s.len() as int);
        let t = s.subrange(k, s.len() as int);
        lemma_trim_end_is_prefix(t);
        let e = choose|e: int| 0 <= e <= t.len() && trim_end(t) == t.subrange(0, e);
        assert(t.subrange(0, e) =~= s.subrange(k, k + e));
        assert(e == 11);
    } else {
        lemma_first_link_is_slice(s, 0);
    }
}

/// The embed, shorts and `v/` links of a video yield the video's id back.
pub proof fn lemma_path_link_names_its_id(form: Seq<char>, id: Seq<char>)
    requires
        is_bare_id(id),
        form == "embed/"@ || form == "shorts/"@ || form == "v/"@,
    ensures
        video_id("https://www.youtube.com/"@ + form + id) == Some(id),
{
    let s = "https://www.youtube.com/"@ + form + id;
    reveal_strlit("https://www.youtube.com/");
    reveal_strlit("https://");
    reveal_strlit("http://");
    reveal_strlit("www.");
    reveal_strlit("m.");
    reveal_strlit("music.");
    reveal_strlit("youtu.be/");
    reveal_strlit("youtube.com/");
    reveal_strlit("watch?v=");
    reveal_strlit("embed/");
    reveal_strlit("shorts/");
    reveal_strlit("v/");
    let prefix = "https://www.youtube.com/"@;
    assert(prefix.len() == 24);
    let f = form.len() as int;
    assert(s.len() == 24 + f + 11);
    assert(forall|i: int| 0 <= i < 24 ==> s[i] == prefix[i]);
    assert(forall|i: int| 24 <= i < 24 + f ==> s[i] == form[i - 24]);
    assert(forall|i: int| 24 + f <= i < 24 + f + 11 ==> s[i] == id[i - 24 - f]);
    assert(!is_white(s[0]));
    assert(trim_start(s) == s);
    assert(is_id_char(id[10]));
    assert(s.last() == id[10]);
    assert(trim_end(s) == s);
    assert(!is_bare_id(trim(s)));
    assert(s.subrange(0, 8) =~= "https://"@);
    assert(s.subrange(8, 12) =~= "www."@);
    assert(s[13] != "m."@[1]);
    assert(!has_at(s, 12, "m."@));
    assert(s[13] != "music."@[1]);
    assert(!has_at(s, 12, "music."@));
    assert(s[17] != "youtu.be/"@[5]);
    assert(!has_at(s, 12, "youtu.be/"@));
    assert(s.subrange(12, 24) =~= "youtube.com/"@);
    assert(s[24] == form[0]);
    assert(!has_at(s, 24, "watch?v="@)) by {
        assert(s.subrange(24, 32)[0] == s[24]);
    }
    if form == "embed/"@ {
        assert(s.subrange(24, 30) =~= "embed/"@);
    } else {
        assert(!has_at(s, 24, "embed/"@)) by {
            assert(s.subrange(24, 30)[0] == s[24]);
        }
        if form == "shorts/"@ {
            assert(s.subrange(24, 31) =~= "shorts/"@);
        } else {
            assert(!has_at(s, 24, "shorts/"@)) by {
                assert(s.subrange(24, 31)[0] == s[24]);
            }
            assert(s.subrange(24, 26) =~= "v/"@);
        }
    }
    assert(link_id_start(s, 0) == Some(24 + f));
    assert(s.subrange(24 + f, 24 + f + 11) =~= id);
    assert(link_at(s, 0) == Some(id));
}

proof fn lemma_has_at_shift(pre: Seq<char>, t: Seq<char>, i: int, lit: Seq<char>)
    requires
        0 <= i,
    ensures
        has_at(pre + t, pre.len() + i, lit) == has_at(t, i, lit),
{
    if i + lit.len() <= t.len() {
        assert((pre + t).subrange(pre.len() + i, pre.len() + i + lit.len()) =~= t.subrange(
            i,
            i + lit.len(),
        ));
    }
}

proof fn lemma_not_at(t: Seq<char>, lit: Seq<char>, i: int)
    requires
        0 <= i < lit.len(),
        i < t.len(),
        t[i] != lit[i],
    ensures
        !has_at(t, 0, lit),
{
    if has_at(t, 0, lit) {
        assert(t.subrange(0, lit.len() as int)[i] == t[i]);
    }
}

proof fn lemma_optional(pre: Seq<char>, x: Seq<char>, rest: Seq<char>, lit: Seq<char>)
    requires
        x == Seq::<char>::empty() || x == lit,
        !has_at(rest, 0, lit),
    ensures
        skip_opt(pre + x + rest, pre.len() as int, lit) == pre.len() + x.len(),
{
    lemma_has_at_shift(pre, x + rest, 0, lit);
    assert(pre + x + rest =~= pre + (x + rest));
    if x == lit {
        assert((x + rest).subrange(0, lit.len() as int) =~= lit);
    } else {
        assert(x + rest =~= rest);
    }
}

/// The position after the optional parts in front of a link starting at `q`.
spec fn prefix_end(s: Seq<char>, q: int) -> int {
    let p1 = if has_at(s, q, "https://"@) {
        q + "https://"@.len()
    } else {
        skip_opt(s, q, "http://"@)
    };
    let p2 = skip_opt(s, p1, "www."@);
    let p3 = skip_opt(s, p2, "m."@);
    skip_opt(s, p3, "music."@)
}

/// Where the id starts when a link form starts at `p`.
spec fn form_end(s: Seq<char>, p4: int) -> Option<int> {
    if has_at(s, p4, "youtu.be/"@) {
        Some(p4 + "youtu.be/"@.len())
    } else if has_at(s, p4, "youtube.com/"@) {
        let p5 = p4 + "youtube.com/"@.len();
        if has_at(s, p5, "watch?v="@) {
            Some(p5 + "watch?v="@.len())
        } else if has_at(s, p5, "embed/"@) {
            Some(p5 + "embed/"@.len())
        } else if has_at(s, p5, "shorts/"@) {
            Some(p5 + "shorts/"@.len())
        } else if has_at(s, p5, "v/"@) {
            Some(p5 + "v/"@.len())
        } else {
            None
        }
    } else {
        None
    }
}

proof fn lemma_link_id_start_parts(s: Seq<char>, q: int)
    ensures
        link_id_start(s, q) == form_end(s, prefix_end(s, q)),
{
}

proof fn lemma_form_end_shift(pre: Seq<char>, tail: Seq<char>)
    ensures
        form_end(tail, 0) matches Some(k) ==> form_end(pre + tail, pre.len() as int) == Some(
            pre.len() + k,
        ),
{
    reveal_strlit("youtube.com/");
    lemma_has_at_shift(pre, tail, 0, "youtu.be/"@);
    lemma_has_at_shift(pre, tail, 0, "youtube.com/"@);
    lemma_has_at_shift(pre, tail, 12, "watch?v="@);
    lemma_has_at_shift(pre, tail, 12, "embed/"@);
    lemma_has_at_shift(pre, tail, 12, "shorts/"@);
    lemma_has_at_shift(pre, tail, 12, "v/"@);
}

proof fn lemma_form_end_of_host(host: Seq<char>, id: Seq<char>)
    requires
        id.len() == 11,
        host == "youtu.be/"@ || host == "youtube.com/"@ + "watch?v="@ || host == "youtube.com/"@
            + "embed/"@ || host == "youtube.com/"@ + "shorts/"@ || host == "youtube.com/"@
            + "v/"@,
    ensures
        form_end(host + id, 0) == Some(host.len() as int),
        (host + id)[0] == 'y',
        host.len() >= 9,
{
    reveal_strlit("youtu.be/");
    reveal_strlit("youtube.com/");
    reveal_strlit("watch?v=");
    reveal_strlit("embed/");
    reveal_strlit("shorts/");
    reveal_strlit("v/");
    let tail = host + id;
    assert(tail[0] == 'y');
    if host == "youtu.be/"@ {
        assert(tail.subrange(0, 9) =~= "youtu.be/"@);
    } else {
        assert(tail[5] == 'b');
        lemma_not_at(tail, "youtu.be/"@, 5);
        assert(tail.subrange(0, 12) =~= "youtube.com/"@);
        if host == "youtube.com/"@ + "watch?v="@ {
            assert(tail.subrange(12, 20) =~= "watch?v="@);
        } else {
            assert(!has_at(tail, 12, "watch?v="@)) by {
                if has_at(tail, 12, "watch?v="@) {
                    assert(tail.subrange(12, 20)[0] == tail[12]);
                }
            }
            if host == "youtube.com/"@ + "embed/"@ {
                assert(tail.subrange(12, 18) =~= "embed/"@);
            } else {
                assert(!has_at(tail, 12, "embed/"@)) by {
                    if has_at(tail, 12, "embed/"@) {
                        assert(tail.subrange(12, 18)[0] == tail[12]);
                    }
                }
                if host == "youtube.com/"@ + "shorts/"@ {
                    assert(tail.subrange(12, 19) =~= "shorts/"@);
                } else {
                    assert(!has_at(tail, 12, "shorts/"@)) by {
                        if has_at(tail, 12, "shorts/"@) {
                            assert(tail.subrange(12, 19)[0] == tail[12]);
                        }
                    }
                    assert(tail.subrange(12, 14) =~= "v/"@);
                }
            }
        }
    }
}

proof fn lemma_scheme_end(scheme: Seq<char>, rest: Seq<char>)
    requires
        scheme == Seq::<char>::empty() || scheme == "http://"@ || scheme == "https://"@,
        rest.len() > 0,
        rest[0] == 'w' || rest[0] == 'm' || rest[0] == 'y',
    ensures
        (if has_at(scheme + rest, 0, "https://"@) {
            0int + "https://"@.len()
        } else {
            skip_opt(scheme + rest, 0, "http://"@)
        }) == scheme.len(),
{
    reveal_strlit("https://");
    reveal_strlit("http://");
    let s = scheme + rest;
    if scheme == "https://"@ {
        assert(s.subrange(0, 8) =~= "https://"@);
    } else if scheme == "http://"@ {
        assert(s[4] == ':');
        lemma_not_at(s, "https://"@, 4);
        assert(s.subrange(0, 7) =~= "http://"@);
    } else {
        assert(s =~= rest);
        lemma_not_at(s, "https://"@, 0);
        lemma_not_at(s, "http://"@, 0);
    }
}

proof fn lemma_prefix_end(
    scheme: Seq<char>,
    www: Seq<char>,
    m: Seq<char>,
    music: Seq<char>,
    tail: Seq<char>,
)
    requires
        scheme == Seq::<char>::empty() || scheme == "http://"@ || scheme == "https://"@,
        www == Seq::<char>::empty() || www == "www."@,
        m == Seq::<char>::empty() || m == "m."@,
        music == Seq::<char>::empty() || music == "music."@,
        tail.len() > 0,
        tail[0] == 'y',
    ensures
        prefix_end(scheme + www + m + music + tail, 0) == (scheme + www + m + music).len(),
        !is_white((scheme + www + m + music + tail)[0]),
{
    reveal_strlit("www.");
    reveal_strlit("m.");
    reveal_strlit("music.");
    let rest3 = music + tail;
    let rest2 = m + rest3;
    let rest1 = www + rest2;
    let s = scheme + rest1;
    assert(s =~= scheme + www + m + music + tail);
    let pre2 = scheme + www;
    let pre3 = pre2 + m;
    assert(s =~= scheme + www + rest2);
    assert(s =~= pre2 + m + rest3);
    assert(s =~= pre3 + music + tail);
    lemma_not_at(tail, "music."@, 0);
    if music.len() > 0 {
        assert(rest3[1] == 'u');
        lemma_not_at(rest3, "m."@, 1);
        assert(rest3[0] == 'm');
    } else {
        assert(rest3 =~= tail);
        lemma_not_at(rest3, "m."@, 0);
    }
    assert(rest2[0] == 'm' || rest2[0] == 'y');
    lemma_not_at(rest2, "www."@, 0);
    assert(rest1[0] == 'w' || rest1[0] == 'm' || rest1[0] == 'y');
    lemma_scheme_end(scheme, rest1);
    if scheme.len() > 0 {
        reveal_strlit("https://");
        reveal_strlit("http://");
        assert(s[0] == 'h');
    } else {
        assert(s[0] == rest1[0]);
    }
    lemma_optional(scheme, www, rest2, "www."@);
    lemma_optional(pre2, m, rest3, "m."@);
    lemma_optional(pre3, music, tail, "music."@);
}

proof fn lemma_first_link_names(s: Seq<char>, start: int, id: Seq<char>)
    requires
        link_id_start(s, 0) == Some(start),
        start > 0,
        start + 11 == s.len(),
        s.subrange(start, start + 11) == id,
        is_bare_id(id),
        !is_white(s[0]),
    ensures
        video_id(s) == Some(id),
{
    assert(link_at(s, 0) == Some(id));
    assert(s.last() == id[10]);
    assert(is_id_char(id[10]));
    assert(trim_start(s) == s);
    assert(trim_end(s) == s);
}

proof fn lemma_append_assoc(a: Seq<char>, b: Seq<char>, c: Seq<char>)
    ensures
        a + b + c == a + (b + c),
{
    assert(a + b + c =~= a + (b + c));
}

/// Each of the optional parts in front of a link (the scheme `http://` or
/// `https://`, `www.`, `m.`, `music.`) may be there or not on its own: every
/// combination of them, followed by any link form and a bare id, yields that
/// id.
#[verifier::spinoff_prover]
pub proof fn lemma_link_names_its_id(
    scheme: Seq<char>,
    www: Seq<char>,
    m: Seq<char>,
    music: Seq<char>,
    host: Seq<char>,
    id: Seq<char>,
)
    requires
        is_bare_id(id),
        scheme == Seq::<char>::empty() || scheme == "http://"@ || scheme == "https://"@,
        www == Seq::<char>::empty() || www == "www."@,
        m == Seq::<char>::empty() || m == "m."@,
        music == Seq::<char>::empty() || music == "music."@,
        host == "youtu.be/"@ || host == "youtube.com/"@ + "watch?v="@ || host == "youtube.com/"@
            + "embed/"@ || host == "youtube.com/"@ + "shorts/"@ || host == "youtube.com/"@
            + "v/"@,
    ensures
        video_id(scheme + www + m + music + host + id) == Some(id),
{
    let tail = host + id;
    let pre = scheme + www + m + music;
    let s = pre + tail;
    lemma_append_assoc(pre, host, id);
    lemma_form_end_of_host(host, id);
    lemma_prefix_end(scheme, www, m, music, tail);
    lemma_form_end_shift(pre, tail);
    lemma_link_id_start_parts(s, 0);
    let start: int = pre.len() + host.len() as int;
    assert(s.subrange(start, start + 11) =~= id);
    lemma_first_link_names(s, start, id);
}

} // verus!
