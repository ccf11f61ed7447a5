//! A MIDI editor's core: Standard MIDI File import into a song model, tempo-map
//! arithmetic, playback scheduling and the audio/loader state machines, all
//! proved against their specifications.

pub mod audio;
pub mod sort;
pub mod text;
pub mod ui;
