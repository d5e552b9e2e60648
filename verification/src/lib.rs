//! Verified core of the Hitster playlist maintenance tool: YouTube video id
//! extraction, song hashes, playlist records and the decisions taken on the
//! answers of the YouTube Data API.

pub mod text;
pub mod video_id;
pub mod song;
pub mod record;
pub mod checker;
