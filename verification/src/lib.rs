//! Turns an audio file into a Clone Hero song folder: the verified core.
//!
//! The modules hold the rules of the song folder (difficulty lanes, chart
//! placement, `song.ini` text, folder names, placeholder album art) as
//! executable functions with contracts; reading and writing files happens
//! in the application around this crate.

pub mod album_art;
pub mod audio;
pub mod builder;
pub mod cli;
pub mod error;
pub mod metadata;
pub mod midi;
pub mod midi_laws;
pub mod notes;
pub mod song_ini;
pub mod text;
