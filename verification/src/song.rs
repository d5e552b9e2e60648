//! A song card of a playlist and its integrity hash.
//!
//! Each card stores the SHA-256 digest, as lower-case hexadecimal, of its URL,
//! its YouTube title and its artist written one after the other. A card whose
//! stored hash differs from that digest has been edited (or never checked)
//! since its metadata was last fetched.

use vstd::prelude::*;
use vstd::utf8::encode_utf8;
use sha2::Digest;
use crate::text::{hex_lower, hex_lower_string};
use crate::video_id::{video_id, extract_video_id};

verus! {

/// SHA-256 digest of a byte sequence.
pub uninterp spec fn sha256(data: Seq<u8>) -> Seq<u8>;

/// Calls `sha2::Sha256::digest`. Trusted to return the SHA-256 digest of
/// `data` (a function of `data` alone, named [`sha256`]) and, as the output
/// size of SHA-256 is fixed, 32 bytes.
#[verifier::external_body]
fn sha256_digest(data: &[u8]) -> (digest: Vec<u8>)
    ensures
        digest@ == sha256(data@),
        digest@.len() == 32,
{
    sha2::Sha256::digest(data).to_vec()
}

/// One song card of a playlist.
#[derive(Debug, Clone, PartialEq, Eq)]
pub struct Song {
    pub number: u32,
    pub title: String,
    pub artist: String,
    pub year: u16,
    pub url: String,
    pub hashed: String,
    pub youtube_title: String,
}

/// A song card with its texts as character sequences.
pub struct SongView {
    pub number: u32,
    pub title: Seq<char>,
    pub artist: Seq<char>,
    pub year: u16,
    pub url: Seq<char>,
    pub hashed: Seq<char>,
    pub youtube_title: Seq<char>,
}

impl View for Song {
    type V = SongView;

    open spec fn view(&self) -> SongView {
        SongView {
            number: self.number,
            title: self.title@,
            artist: self.artist@,
            year: self.year,
            url: self.url@,
            hashed: self.hashed@,
            youtube_title: self.youtube_title@,
        }
    }
}

/// The views of a sequence of cards.
pub open spec fn song_views(v: Seq<Song>) -> Seq<SongView> {
    v.map_values(|s: Song| s@)
}

/// The text that a card's hash covers: URL, YouTube title and artist.
pub open spec fn hash_text(s: SongView) -> Seq<char> {
    s.url + s.youtube_title + s.artist
}

/// The hash that a card should store: SHA-256 of the UTF-8 bytes of
/// [`hash_text`], as 64 lower-case hexadecimal digits.
pub open spec fn expected_hash(s: SongView) -> Seq<char> {
    hex_lower(sha256(encode_utf8(hash_text(s))))
}

/// The card stores the hash of its current URL, YouTube title and artist.
pub open spec fn hash_is_current(s: SongView) -> bool {
    s.hashed == expected_hash(s)
}

/// The card with its stored hash replaced by the expected one.
pub open spec fn with_fresh_hash(s: SongView) -> SongView {
    SongView { hashed: expected_hash(s), ..s }
}

impl Song {
    /// Whether the stored hash matches the card's URL, YouTube title and artist.
    pub fn check_hash(&self) -> (r: bool)
        ensures
            r == hash_is_current(self@),
    {
        let hash = self.generate_hash();
        hash == self.hashed
    }

    /// The hash of the card's URL, YouTube title and artist.
    pub fn generate_hash(&self) -> (h: String)
        ensures
            h@ == expected_hash(self@),
            h@.len() == 64,
    {
        let mut combined = self.url.clone();
        combined.append(self.youtube_title.as_str());
        combined.append(self.artist.as_str());
        assert(combined@ == hash_text(self@));
        let digest = sha256_digest(combined.as_str().as_bytes());
        hex_lower_string(digest.as_slice())
    }

    /// The YouTube video id that the card's URL names (see [`video_id`]).
    pub fn get_yt_id(&self) -> (r: Option<String>)
        ensures
            match r {
                Some(id) => video_id(self.url@) == Some(id@),
                None => video_id(self.url@) is None,
            },
    {
        extract_video_id(self.url.as_str())
    }

    /// Stores the hash of the card's current URL, YouTube title and artist.
    pub fn refresh_hash(&mut self)
        ensures
            final(self)@ == with_fresh_hash(old(self)@),
    {
        self.hashed = self.generate_hash();
    }
}

/// After its hash is refreshed, a card's hash is current.
pub proof fn lemma_fresh_hash_is_current(s: SongView)
    ensures
        hash_is_current(with_fresh_hash(s)),
{
}

} // verus!
