//! The panels of the editor window. Each is drawn by the application; what they
//! show of a song comes from [`crate::ui::views`].
use vstd::prelude::*;

verus! {

/// The panel that summarises the selected track.
#[derive(Debug, Default, Clone, Copy)]
pub struct Attributes;

/// The piano keyboard that lights up the keys sounding at the playback cursor.
#[derive(Debug, Default, Clone, Copy)]
pub struct Keyboard;

/// The menu bar (open, close, panel toggles).
#[derive(Debug, Default, Clone, Copy)]
pub struct Menu;

/// The piano roll with the playback cursor.
#[derive(Debug, Default, Clone, Copy)]
pub struct NoteGrid;

/// The track list with solo, mute, channel and instrument controls.
#[derive(Debug, Default, Clone, Copy)]
pub struct TrackList;

/// The transport bar: title, open/close, rewind, play/pause, stop, repeat, seek.
#[derive(Debug, Default, Clone, Copy)]
pub struct Transport;

} // verus!
