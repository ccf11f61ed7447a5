# midi_editor

A small MIDI editor: it opens Standard MIDI Files, shows their tracks on a piano
roll, and plays them through a SoundFont synthesizer.

The core is a Verus-verified library (`src/`); the desktop application around it
(`app/`) is ordinary Rust.

## Library (`src/`)

- `audio::smf` — reads a file's bytes with `midly` into plain values (`SmfData`).
- `audio::midi` — turns a parsed file into a `Song`: track names, channels and
  programs, notes paired first in first out, song metadata, and a normalised tempo
  map; `MidiManager` is the load state machine shared with the loader thread.
- `audio::midi_struct` — the song model, and the playback timeline built from it.
- `audio::tempo` — exact conversions between ticks, tempo time and output samples.
- `audio::state` — the playback state shared with the audio callback: cursors,
  seeking, play and stop.
- `audio::render` — what one audio block does: which events it plays, whether it
  is silent, and how the cursors move at the song's end.
- `sort`, `text` — a stable sort by key, and the cleaning of text found in files.
- `ui` — what the panels show: selected track, key ranges, sounding keys,
  instrument names, the transport title, and the message box.

Each public function states its result in its contract, and the `lemma_*` proof
functions state the laws that hold across calls (for instance that a tick read back
from a sample is the tick sounding at that sample, or that a load result is handed
out once).

## Application (`app/`)

`main`, the `egui`/`eframe` window and its panels, file dialogs (`rfd`), reading
files, and audio output (`cpal`, `rustysynth`). It reads assets from `assets/`
in the working directory: `NanumGothic.ttf` (optional) and `GeneralUser-GS.sf2`.
