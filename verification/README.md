# songseeker

Keeps the YouTube links of Hitster playlist files (CSV) working: checks that
each card's URL names a video and that its stored hash is current, fetches
fresh metadata, finds cards whose video is blocked in a country and searches
replacements.

- `src/` is the verified library (Verus): video id recognition
  (`video_id`), card hashes (`song`), playlists and availability bookkeeping
  (`record`), requests to and answers of the YouTube Data API (`checker`),
  string helpers (`text`).
- `app/` is the command-line program around it: argument parsing, CSV files,
  HTTP requests, logging.
- `tests/` runs the library on concrete values.
