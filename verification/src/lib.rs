//! A codec for Extended M3U playlists.
//!
//! [`Playlist::from`] reads a playlist document, [`Playlist::to_string`] and
//! [`Entry::to_string`] write the canonical text. Every function is verified
//! against a contract over sequences of characters, the view of `str` and
//! `String`.
//!
//! The modules `text` and `number` hold what the format is made of: lines,
//! trimming, decimal numbers. `options`, `entry` and `playlist` hold the
//! data and the two directions of the codec. `laws` and `round_trip` state
//! what holds of writing and reading taken together; `text_lemmas` and
//! `scan_lemmas` hold the lemmas behind them.

pub mod entry;
pub mod laws;
pub mod number;
pub mod options;
pub mod playlist;
pub mod round_trip;
pub mod scan_lemmas;
pub mod text;
pub mod text_lemmas;

pub use entry::Entry;
pub use options::VlcOptions;
pub use playlist::Playlist;
