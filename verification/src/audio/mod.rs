pub mod midi;
pub mod midi_struct;
pub mod render;
pub mod smf;
pub mod state;
pub mod tempo;
