//! Core of a desktop music player: a library index that groups tracks
//! into albums, and a playback engine that owns the queue and the
//! playback cursors. All decisions are made here; reading tags, decoding
//! audio and drawing the interface stay outside, behind plain values.

pub mod engine;
pub mod library;
pub mod text;
pub mod track;
