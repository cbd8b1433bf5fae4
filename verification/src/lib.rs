//! Chord-recognition engine for a keyboard remapper: watches a stream of
//! physical key press/release events plus a periodic tick, matches the held
//! keys against a table of configured chords, and on a match deletes the
//! keystrokes already sent and types the substitute output instead.

pub mod chords;
pub mod kbd;
pub mod trie;
pub mod zipchord;
