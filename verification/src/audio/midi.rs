use vstd::prelude::*;
use crate::audio::midi_struct::{
    empty_song_meta, NoteSpan, ProgramChangeEvent, Song, SongMeta, SongMetaView, SongView,
    TempoChange, TrackModel, TrackView,
};
use crate::audio::smf::{
    midly_error_message, midly_error_text, midly_parse, parse_smf_data, MetaEventData, MidiEventData, SmfData, SmfEvent, SmfEventKind,
    SmfModel, SmfTiming,
};
use crate::audio::tempo::DEFAULT_MICROS_PER_QUARTER;
use crate::sort::{key_le, sorted_by_key, spec_stable_sort, stable_sort_by_key, Keyed};
use crate::text::{decimal, push_decimal, sanitize_text, spec_sanitize_text};
use vstd::string::StringExecFns;

verus! {

/// Collapses changes at one tick into one, keeping the tempo of the last of them.
pub open spec fn spec_merge_same_tick(s: Seq<TempoChange>) -> Seq<TempoChange>
    decreases s.len(),
{
    if s.len() == 0 {
        s
    } else {
        let merged = spec_merge_same_tick(s.drop_last());
        let change = s.last();
        if merged.len() > 0 && merged.last().tick == change.tick {
            merged.update(merged.len() - 1, change)
        } else {
            merged.push(change)
        }
    }
}

/// A tempo map in normal form: changes stably sorted by tick, changes at the same tick
/// collapsed into the last of them, and the default tempo at tick 0 unless a change
/// lies there.
pub open spec fn spec_normalize_tempo_changes(s: Seq<TempoChange>) -> Seq<TempoChange> {
    let merged = spec_merge_same_tick(spec_stable_sort(s));
    if merged.len() == 0 || merged[0].tick != 0 {
        seq![TempoChange { tick: 0, micros_per_quarter: DEFAULT_MICROS_PER_QUARTER }] + merged
    } else {
        merged
    }
}

/// Ticks strictly increase along the map, which starts at tick 0.
pub open spec fn is_normal_tempo_map(s: Seq<TempoChange>) -> bool {
    &&& s.len() > 0
    &&& s[0].tick == 0
    &&& forall|i: int, j: int| 0 <= i < j < s.len() ==> #[trigger] s[i].tick < #[trigger] s[j].tick
}

/// Sorts the tempo map by tick, keeps only the last change at each tick and makes
/// sure the map starts at tick 0 (with the default tempo when nothing is set there).
pub fn normalize_tempo_changes(tempo_changes: Vec<TempoChange>) -> (normalized: Vec<TempoChange>)
    ensures
        normalized@ == spec_normalize_tempo_changes(tempo_changes@),
        is_normal_tempo_map(normalized@),
{
    let sorted = stable_sort_by_key(&tempo_changes);
    let ghost sorted_view = sorted@;
    let mut normalized: Vec<TempoChange> = Vec::with_capacity(sorted.len());
    let mut i: usize = 0;
    while i < sorted.len()
        invariant
            sorted_view == sorted@,
            sorted@ == spec_stable_sort(tempo_changes@),
            sorted_by_key(sorted@),
            i <= sorted.len(),
            normalized@ == spec_merge_same_tick(sorted@.take(i as int)),
            forall|a: int, b: int|
                0 <= a < b < normalized@.len() ==> #[trigger] normalized@[a].tick
                    < #[trigger] normalized@[b].tick,
            i > 0 ==> normalized@.len() > 0 && normalized@.last().tick == sorted@[i - 1].tick,
            i == 0 ==> normalized@.len() == 0,
            forall|a: int| 0 <= a < normalized@.len() ==> #[trigger] normalized@[a].tick <= (if i
                > 0 {
                sorted@[i - 1].tick
            } else {
                0
            }),
        decreases sorted.len() - i,
    {
        let change = sorted[i];
        let n = normalized.len();
        proof {
            assert(sorted@.take(i + 1).drop_last() == sorted@.take(i as int));
            if i > 0 {
                assert(key_le(sorted@[i - 1].spec_key(), sorted@[i as int].spec_key()));
            }
        }
        if n > 0 && normalized[n - 1].tick == change.tick {
            normalized.set(n - 1, change);
        } else {
            normalized.push(change);
        }
        i = i + 1;
    }
    proof {
        assert(sorted@.take(i as int) == sorted@);
    }
    if normalized.len() == 0 || normalized[0].tick != 0 {
        normalized.insert(
            0,
            TempoChange { tick: 0, micros_per_quarter: DEFAULT_MICROS_PER_QUARTER },
        );
        proof {
            assert(normalized@ == seq![
                TempoChange { tick: 0, micros_per_quarter: DEFAULT_MICROS_PER_QUARTER },
            ] + spec_merge_same_tick(sorted_view));
        }
    }
    normalized
}

/// The predicate "lies at `tick`".
pub open spec fn at_tick(tick: u64) -> spec_fn(TempoChange) -> bool {
    |c: TempoChange| c.tick == tick
}

/// The changes of `s` that lie at `tick`, in their order in `s`.
pub open spec fn changes_at(s: Seq<TempoChange>, tick: u64) -> Seq<TempoChange> {
    s.filter(at_tick(tick))
}

/// A note that has started and not ended yet.
#[derive(Clone, Copy, Debug, PartialEq, Eq)]
pub struct ActiveNote {
    pub key: u8,
    pub start_tick: u64,
    pub velocity: u8,
}

/// A track while its events are read: what has been learnt so far, the finished
/// notes and the notes still sounding, in the order they started.
#[derive(Debug)]
pub struct TrackAccumulator {
    pub track_index: usize,
    pub name: String,
    pub channel: Option<u8>,
    pub program: u8,
    pub instrument_name: String,
    pub program_changes: Vec<ProgramChangeEvent>,
    pub note_spans: Vec<NoteSpan>,
    pub active_notes: Vec<ActiveNote>,
}

/// Mathematical model of [`TrackAccumulator`].
pub struct TrackAccumulatorView {
    pub track_index: usize,
    pub name: Seq<char>,
    pub channel: Option<u8>,
    pub program: u8,
    pub instrument_name: Seq<char>,
    pub program_changes: Seq<ProgramChangeEvent>,
    pub note_spans: Seq<NoteSpan>,
    pub active_notes: Seq<ActiveNote>,
}

impl View for TrackAccumulator {
    type V = TrackAccumulatorView;

    open spec fn view(&self) -> TrackAccumulatorView {
        TrackAccumulatorView {
            track_index: self.track_index,
            name: self.name@,
            channel: self.channel,
            program: self.program,
            instrument_name: self.instrument_name@,
            program_changes: self.program_changes@,
            note_spans: self.note_spans@,
            active_notes: self.active_notes@,
        }
    }
}

/// The default name of the track at `index`: "Track " and its 1-based number.
pub open spec fn default_track_name(index: nat) -> Seq<char> {
    seq!['T', 'r', 'a', 'c', 'k', ' '] + decimal(index + 1)
}

/// A fresh track: default name, no channel yet, program 0, nothing recorded.
pub open spec fn spec_new_accumulator(track_index: usize) -> TrackAccumulatorView {
    TrackAccumulatorView {
        track_index,
        name: default_track_name(track_index as nat),
        channel: None,
        program: 0,
        instrument_name: Seq::empty(),
        program_changes: Seq::empty(),
        note_spans: Seq::empty(),
        active_notes: Seq::empty(),
    }
}

/// Index of the earliest started sounding note of `key` (the number of sounding
/// notes when there is none).
pub open spec fn first_active(active: Seq<ActiveNote>, key: u8) -> int
    decreases active.len(),
{
    if active.len() == 0 || active[0].key == key {
        0
    } else {
        1 + first_active(active.drop_first(), key)
    }
}

/// The span of a sounding note that ends at `end_tick`.
pub open spec fn ended_note(note: ActiveNote, end_tick: u64) -> NoteSpan {
    NoteSpan {
        key: note.key,
        start_tick: note.start_tick,
        end_tick,
        velocity: note.velocity,
    }
}

/// Ends the earliest started sounding note of `key` at `end_tick` (nothing when none sounds).
pub open spec fn spec_close_note(
    track: TrackAccumulatorView,
    key: u8,
    end_tick: u64,
) -> TrackAccumulatorView {
    let i = first_active(track.active_notes, key);
    if i < track.active_notes.len() {
        TrackAccumulatorView {
            note_spans: track.note_spans.push(ended_note(track.active_notes[i], end_tick)),
            active_notes: track.active_notes.remove(i),
            ..track
        }
    } else {
        track
    }
}

/// Ends every sounding note at `end_tick`, in the order they started.
pub open spec fn spec_close_dangling_notes(
    track: TrackAccumulatorView,
    end_tick: u64,
) -> TrackAccumulatorView {
    TrackAccumulatorView {
        note_spans: track.note_spans + track.active_notes.map_values(
            |note: ActiveNote| ended_note(note, end_tick),
        ),
        active_notes: Seq::empty(),
        ..track
    }
}

/// The finished track: notes stably sorted by (start, end, key), program changes by
/// tick, channel 0 when none was seen, unmuted at full volume.
pub open spec fn spec_finish(track: TrackAccumulatorView) -> TrackView {
    TrackView {
        track_index: track.track_index,
        name: track.name,
        channel: match track.channel {
            Some(c) => c,
            None => 0,
        },
        program: track.program,
        instrument_name: track.instrument_name,
        program_changes: spec_stable_sort(track.program_changes),
        note_spans: spec_stable_sort(track.note_spans),
        is_muted: false,
        volume: 100,
    }
}

impl TrackAccumulator {
    /// A fresh track named "Track n" after its 1-based position.
    pub fn new(track_index: usize) -> (track: Self)
        requires
            track_index < usize::MAX,
        ensures
            track@ == spec_new_accumulator(track_index),
    {
        let mut name = String::new();
        name.push('T');
        name.push('r');
        name.push('a');
        name.push('c');
        name.push('k');
        name.push(' ');
        push_decimal(&mut name, (track_index + 1) as u64);
        proof {
            assert(name@ == default_track_name(track_index as nat));
        }
        TrackAccumulator {
            track_index,
            name,
            channel: None,
            program: 0,
            instrument_name: String::new(),
            program_changes: Vec::new(),
            note_spans: Vec::new(),
            active_notes: Vec::new(),
        }
    }

    /// Ends the earliest started sounding note of `key` (notes of one key end in the
    /// order they started); does nothing when no such note sounds.
    pub fn close_note(&mut self, key: u8, end_tick: u64)
        ensures
            final(self)@ == spec_close_note(old(self)@, key, end_tick),
    {
        let n = self.active_notes.len();
        let mut i: usize = 0;
        proof {
            assert(self.active_notes@.skip(0) == self.active_notes@);
        }
        while i < n && self.active_notes[i].key != key
            invariant
                n == self.active_notes.len(),
                self@ == old(self)@,
                i <= n,
                first_active(self.active_notes@, key) == i + first_active(
                    self.active_notes@.skip(i as int),
                    key,
                ),
            decreases n - i,
        {
            proof {
                let rest = self.active_notes@.skip(i as int);
                assert(rest.drop_first() == self.active_notes@.skip(i + 1));
            }
            i = i + 1;
        }
        proof {
            assert(self.active_notes@.skip(i as int).len() == n - i);
            if i < n {
                assert(self.active_notes@.skip(i as int)[0] == self.active_notes@[i as int]);
            }
        }
        if i < n {
            let note = self.active_notes.remove(i);
            self.note_spans.push(
                NoteSpan {
                    key,
                    start_tick: note.start_tick,
                    end_tick,
                    velocity: note.velocity,
                },
            );
        }
    }

    /// Ends every note still sounding at `end_tick`, so that a file that never
    /// releases a note still shows and plays it.
    pub fn close_dangling_notes(&mut self, end_tick: u64)
        ensures
            final(self)@ == spec_close_dangling_notes(old(self)@, end_tick),
    {
        let ghost spans = self.note_spans@;
        let n = self.active_notes.len();
        let mut i: usize = 0;
        while i < n
            invariant
                n == self.active_notes.len(),
                self.active_notes@ == old(self)@.active_notes,
                spans == old(self)@.note_spans,
                i <= n,
                self.note_spans@ == spans + self.active_notes@.take(i as int).map_values(
                    |note: ActiveNote| ended_note(note, end_tick),
                ),
                self.track_index == old(self).track_index,
                self.name@ == old(self)@.name,
                self.channel == old(self).channel,
                self.program == old(self).program,
                self.instrument_name@ == old(self)@.instrument_name,
                self.program_changes@ == old(self)@.program_changes,
            decreases n - i,
        {
            let note = self.active_notes[i];
            self.note_spans.push(
                NoteSpan {
                    key: note.key,
                    start_tick: note.start_tick,
                    end_tick,
                    velocity: note.velocity,
                },
            );
            proof {
                assert(self.active_notes@.take(i + 1) == self.active_notes@.take(i as int).push(
                    note,
                ));
            }
            i = i + 1;
        }
        proof {
            assert(self.active_notes@.take(n as int) == self.active_notes@);
        }
        self.active_notes.clear();
    }

    /// The finished track: notes sorted by (start, end, key) and program changes by
    /// tick, both stably; channel 0 when the track had no channel message.
    pub fn finish(self) -> (track: TrackModel)
        ensures
            track@ == spec_finish(self@),
    {
        let note_spans = stable_sort_by_key(&self.note_spans);
        let program_changes = stable_sort_by_key(&self.program_changes);
        let channel = match self.channel {
            Some(c) => c,
            None => 0,
        };
        TrackModel {
            track_index: self.track_index,
            name: self.name,
            channel,
            program: self.program,
            instrument_name: self.instrument_name,
            program_changes,
            note_spans,
            is_muted: false,
            volume: 100,
        }
    }
}

/// Song metadata, track and tempo map after a meta event at `tick`:
/// a non-empty track name names the track (and the song, when it has no title yet);
/// a non-empty instrument name names the track's instrument; program name, text,
/// copyright and marker fill the song's field when it is still empty; a tempo event
/// adds a tempo change; time and key signatures overwrite the song's.
pub open spec fn spec_apply_meta_event(
    message: MetaEventData<Seq<u8>>,
    tick: u64,
    meta: SongMetaView,
    track: TrackAccumulatorView,
    tempo_changes: Seq<TempoChange>,
) -> (SongMetaView, TrackAccumulatorView, Seq<TempoChange>) {
    match message {
        MetaEventData::TrackName(data) => {
            let value = spec_sanitize_text(data);
            if value.len() == 0 {
                (meta, track, tempo_changes)
            } else {
                (
                    if meta.title.len() == 0 {
                        SongMetaView { title: value, ..meta }
                    } else {
                        meta
                    },
                    TrackAccumulatorView { name: value, ..track },
                    tempo_changes,
                )
            }
        },
        MetaEventData::InstrumentName(data) => {
            let value = spec_sanitize_text(data);
            if value.len() == 0 {
                (meta, track, tempo_changes)
            } else {
                (meta, TrackAccumulatorView { instrument_name: value, ..track }, tempo_changes)
            }
        },
        MetaEventData::ProgramName(data) => (
            if meta.program_name.len() == 0 {
                SongMetaView { program_name: spec_sanitize_text(data), ..meta }
            } else {
                meta
            },
            track,
            tempo_changes,
        ),
        MetaEventData::Text(data) => (
            if meta.text.len() == 0 {
                SongMetaView { text: spec_sanitize_text(data), ..meta }
            } else {
                meta
            },
            track,
            tempo_changes,
        ),
        MetaEventData::Copyright(data) => (
            if meta.copyright.len() == 0 {
                SongMetaView { copyright: spec_sanitize_text(data), ..meta }
            } else {
                meta
            },
            track,
            tempo_changes,
        ),
        MetaEventData::Marker(data) => (
            if meta.marker.len() == 0 {
                SongMetaView { marker: spec_sanitize_text(data), ..meta }
            } else {
                meta
            },
            track,
            tempo_changes,
        ),
        MetaEventData::Tempo(micros) => (
            meta,
            track,
            tempo_changes.push(TempoChange { tick, micros_per_quarter: micros }),
        ),
        MetaEventData::TimeSignature(a, b, c, d) => (
            SongMetaView { time_signature: (a, b, c, d), ..meta },
            track,
            tempo_changes,
        ),
        MetaEventData::KeySignature(sharps, minor) => (
            SongMetaView { key_signature: sharps, is_minor: minor, ..meta },
            track,
            tempo_changes,
        ),
        MetaEventData::Other => (meta, track, tempo_changes),
    }
}

/// Applies a meta event at `current_tick` to the song metadata, the track being read
/// and the tempo map.
pub fn apply_meta_event(
    message: &MetaEventData<Vec<u8>>,
    current_tick: u64,
    meta: &mut SongMeta,
    track: &mut TrackAccumulator,
    tempo_changes: &mut Vec<TempoChange>,
)
    ensures
        (final(meta)@, final(track)@, final(tempo_changes)@) == spec_apply_meta_event(
            message@,
            current_tick,
            old(meta)@,
            old(track)@,
            old(tempo_changes)@,
        ),
{
    match message {
        MetaEventData::TrackName(data) => {
            let value = sanitize_text(data.as_slice());
            if !value.as_str().is_empty() {
                track.name = value.clone();
                if meta.title.as_str().is_empty() {
                    meta.title = value;
                }
            }
        },
        MetaEventData::InstrumentName(data) => {
            let value = sanitize_text(data.as_slice());
            if !value.as_str().is_empty() {
                track.instrument_name = value;
            }
        },
        MetaEventData::ProgramName(data) => {
            let value = sanitize_text(data.as_slice());
            if meta.program_name.as_str().is_empty() {
                meta.program_name = value;
            }
        },
        MetaEventData::Text(data) => {
            let value = sanitize_text(data.as_slice());
            if meta.text.as_str().is_empty() {
                meta.text = value;
            }
        },
        MetaEventData::Copyright(data) => {
            let value = sanitize_text(data.as_slice());
            if meta.copyright.as_str().is_empty() {
                meta.copyright = value;
            }
        },
        MetaEventData::Marker(data) => {
            let value = sanitize_text(data.as_slice());
            if meta.marker.as_str().is_empty() {
                meta.marker = value;
            }
        },
        MetaEventData::Tempo(micros) => {
            tempo_changes.push(TempoChange { tick: current_tick, micros_per_quarter: *micros });
        },
        MetaEventData::TimeSignature(a, b, c, d) => {
            meta.time_signature = [*a, *b, *c, *d];
        },
        MetaEventData::KeySignature(sharps, minor) => {
            meta.key_signature = *sharps;
            meta.is_minor = *minor;
        },
        MetaEventData::Other => {},
    }
}

/// The track after a channel message at `tick`: the first message fixes the track's
/// channel; a program change is recorded (and becomes the track's program when it is
/// the first); a note-on with positive velocity starts a note; a note-off, or a
/// note-on with velocity 0, ends the earliest started sounding note of its key.
pub open spec fn spec_apply_midi_event(
    channel: u8,
    message: MidiEventData,
    tick: u64,
    track: TrackAccumulatorView,
) -> TrackAccumulatorView {
    let track = if track.channel.is_none() {
        TrackAccumulatorView { channel: Some(channel), ..track }
    } else {
        track
    };
    match message {
        MidiEventData::ProgramChange { program } => TrackAccumulatorView {
            program: if track.program_changes.len() == 0 {
                program
            } else {
                track.program
            },
            program_changes: track.program_changes.push(ProgramChangeEvent { tick, program }),
            ..track
        },
        MidiEventData::NoteOn { key, vel } => if vel > 0 {
            TrackAccumulatorView {
                active_notes: track.active_notes.push(
                    ActiveNote { key, start_tick: tick, velocity: vel },
                ),
                ..track
            }
        } else {
            spec_close_note(track, key, tick)
        },
        MidiEventData::NoteOff { key, .. } => spec_close_note(track, key, tick),
        MidiEventData::Other => track,
    }
}

/// Applies a channel message at `current_tick` to the track being read.
pub fn apply_midi_event(
    channel: u8,
    message: MidiEventData,
    current_tick: u64,
    track: &mut TrackAccumulator,
)
    ensures
        final(track)@ == spec_apply_midi_event(channel, message, current_tick, old(track)@),
{
    if track.channel.is_none() {
        track.channel = Some(channel);
    }
    match message {
        MidiEventData::ProgramChange { program } => {
            if track.program_changes.len() == 0 {
                track.program = program;
            }
            track.program_changes.push(ProgramChangeEvent { tick: current_tick, program });
        },
        MidiEventData::NoteOn { key, vel } => {
            if vel > 0 {
                track.active_notes.push(
                    ActiveNote { key, start_tick: current_tick, velocity: vel },
                );
            } else {
                track.close_note(key, current_tick);
            }
        },
        MidiEventData::NoteOff { key, .. } => {
            track.close_note(key, current_tick);
        },
        MidiEventData::Other => {},
    }
}

/// The state of the reader after some events of a track: the current tick, the song
/// metadata and tempo map gathered so far, and the track being read.
pub struct ParseState {
    pub tick: u64,
    pub meta: SongMetaView,
    pub tempo_changes: Seq<TempoChange>,
    pub track: TrackAccumulatorView,
}

/// `a + b`, or `u64::MAX` when that is larger.
pub open spec fn saturating_add_u64(a: u64, b: u64) -> u64 {
    if a + b > u64::MAX {
        u64::MAX
    } else {
        (a + b) as u64
    }
}

/// The reader after one more event: the tick advances by the event's delta (stopping
/// at `u64::MAX`), then the event applies at the new tick.
pub open spec fn spec_step(state: ParseState, event: SmfEvent<Seq<u8>>) -> ParseState {
    let tick = saturating_add_u64(state.tick, event.delta as u64);
    match event.kind {
        SmfEventKind::Meta(message) => {
            let applied = spec_apply_meta_event(
                message,
                tick,
                state.meta,
                state.track,
                state.tempo_changes,
            );
            ParseState { tick, meta: applied.0, track: applied.1, tempo_changes: applied.2 }
        },
        SmfEventKind::Midi { channel, message } => ParseState {
            tick,
            track: spec_apply_midi_event(channel, message, tick, state.track),
            ..state
        },
        SmfEventKind::Other => ParseState { tick, ..state },
    }
}

/// The reader after the first `n` events of a track.
pub open spec fn spec_run_events(
    events: Seq<SmfEvent<Seq<u8>>>,
    n: int,
    start: ParseState,
) -> ParseState
    decreases n,
{
    if n <= 0 {
        start
    } else {
        spec_step(spec_run_events(events, n - 1, start), events[n - 1])
    }
}

/// What reading the first tracks of a file yields: song metadata, the tempo changes in
/// the order they were read (after the default one at tick 0), the finished tracks
/// and the greatest end tick.
pub struct SongBuild {
    pub meta: SongMetaView,
    pub tempo_changes: Seq<TempoChange>,
    pub tracks: Seq<TrackView>,
    pub total_ticks: u64,
}

/// The tempo map before any tempo event: the default tempo at tick 0.
pub open spec fn initial_tempo_map() -> Seq<TempoChange> {
    seq![TempoChange { tick: 0, micros_per_quarter: DEFAULT_MICROS_PER_QUARTER }]
}

/// Reads the first `k` tracks in order; each starts at tick 0 with a fresh track, and
/// its notes still sounding at its last event end there.
pub open spec fn spec_read_tracks(tracks: Seq<Seq<SmfEvent<Seq<u8>>>>, k: int) -> SongBuild
    decreases k,
{
    if k <= 0 {
        SongBuild {
            meta: empty_song_meta(),
            tempo_changes: initial_tempo_map(),
            tracks: Seq::empty(),
            total_ticks: 0,
        }
    } else {
        let before = spec_read_tracks(tracks, k - 1);
        let events = tracks[k - 1];
        let end = spec_run_events(
            events,
            events.len() as int,
            ParseState {
                tick: 0,
                meta: before.meta,
                tempo_changes: before.tempo_changes,
                track: spec_new_accumulator((k - 1) as usize),
            },
        );
        SongBuild {
            meta: end.meta,
            tempo_changes: end.tempo_changes,
            tracks: before.tracks.push(spec_finish(spec_close_dangling_notes(end.track, end.tick))),
            total_ticks: if end.tick > before.total_ticks {
                end.tick
            } else {
                before.total_ticks
            },
        }
    }
}

/// The song a file holds; `None` for a timecode-based file.
pub open spec fn spec_song_from_smf(smf: SmfModel) -> Option<SongView> {
    match smf.timing {
        SmfTiming::Timecode => None,
        SmfTiming::Metrical(ppq) => {
            let read = spec_read_tracks(smf.tracks, smf.tracks.len() as int);
            Some(
                SongView {
                    ppq,
                    total_ticks: read.total_ticks,
                    meta: read.meta,
                    tempo_changes: spec_normalize_tempo_changes(read.tempo_changes),
                    tracks: read.tracks,
                },
            )
        },
    }
}

/// Why a MIDI file could not be loaded.
#[derive(Debug)]
pub enum MidiLoadError {
    Io(std::io::Error),
    Parse(midly::Error),
    UnsupportedTimecode,
}

#[verifier::external_type_specification]
#[verifier::external_body]
pub struct ExIoError(std::io::Error);

/// The text that `std::io::Error`'s `Display` writes (the operating system's wording);
/// nothing is claimed of it.
#[verifier::external_body]
fn io_error_text(error: &std::io::Error) -> (text: String) {
    format!("{}", error)
}

/// `text` begins with `prefix`.
pub open spec fn starts_with(text: Seq<char>, prefix: Seq<char>) -> bool {
    prefix.len() <= text.len() && text.subrange(0, prefix.len() as int) == prefix
}

impl MidiLoadError {
    /// The message for a file that could not be read, given the read error's own text.
    pub fn read_error_message(cause: &str) -> (text: String)
        ensures
            text@ == "failed to read MIDI file: "@ + cause@,
    {
        let mut text = "failed to read MIDI file: ".to_string();
        text.append(cause);
        text
    }

    /// The message shown when a load fails: what failed, followed by the cause's own
    /// text for read and parse errors (midly's message for a parse error; for a read
    /// error `read_error_message` of the operating system's wording, of which nothing
    /// is claimed).
    pub fn message(&self) -> (text: String)
        ensures
            match self {
                MidiLoadError::Io(_) => starts_with(text@, "failed to read MIDI file: "@),
                MidiLoadError::Parse(error) => text@ == "failed to parse MIDI file: "@
                    + midly_error_message(*error),
                MidiLoadError::UnsupportedTimecode => text@
                    == "timecode-based MIDI files are not supported"@,
            },
    {
        match self {
            MidiLoadError::Io(error) => {
                let cause = io_error_text(error);
                let text = Self::read_error_message(cause.as_str());
                assert(text@.subrange(0, "failed to read MIDI file: "@.len() as int)
                    =~= "failed to read MIDI file: "@);
                text
            },
            MidiLoadError::Parse(error) => {
                let mut text = "failed to parse MIDI file: ".to_string();
                let cause = midly_error_text(error);
                text.append(cause.as_str());
                text
            },
            MidiLoadError::UnsupportedTimecode => {
                "timecode-based MIDI files are not supported".to_string()
            },
        }
    }
}

/// Reads a parsed file into a song: the file's tracks in order, the song metadata from
/// their meta events, the tempo map normalised, and the song's length in ticks.
/// Timecode-based files are refused.
pub fn song_from_smf(smf: &SmfData) -> (result: Result<Song, MidiLoadError>)
    ensures
        match spec_song_from_smf(smf@) {
            Some(song) => result matches Ok(s) && s@ == song,
            None => result matches Err(MidiLoadError::UnsupportedTimecode),
        },
{
    let ppq = match smf.timing {
        SmfTiming::Metrical(ticks) => ticks,
        SmfTiming::Timecode => {
            return Err(MidiLoadError::UnsupportedTimecode);
        },
    };
    let ghost model = smf@;
    let mut meta = SongMeta::default();
    let mut tempo_changes: Vec<TempoChange> = Vec::new();
    tempo_changes.push(TempoChange { tick: 0, micros_per_quarter: DEFAULT_MICROS_PER_QUARTER });
    let mut tracks: Vec<TrackModel> = Vec::with_capacity(smf.tracks.len());
    let mut total_ticks: u64 = 0;
    let mut t: usize = 0;
    proof {
        assert(tempo_changes@ == initial_tempo_map());
        assert(tracks@.map_values(|m: TrackModel| m@) == Seq::<TrackView>::empty());
    }
    while t < smf.tracks.len()
        invariant
            model == smf@,
            t <= smf.tracks.len(),
            ({
                let read = spec_read_tracks(model.tracks, t as int);
                &&& meta@ == read.meta
                &&& tempo_changes@ == read.tempo_changes
                &&& tracks@.map_values(|m: TrackModel| m@) == read.tracks
                &&& total_ticks == read.total_ticks
            }),
        decreases smf.tracks.len() - t,
    {
        let events = &smf.tracks[t];
        let ghost event_models = model.tracks[t as int];
        let ghost start = ParseState {
            tick: 0,
            meta: meta@,
            tempo_changes: tempo_changes@,
            track: spec_new_accumulator(t),
        };
        proof {
            assert(event_models == crate::audio::smf::track_view(*events));
        }
        let mut current_tick: u64 = 0;
        let mut parsed_track = TrackAccumulator::new(t);
        let mut e: usize = 0;
        while e < events.len()
            invariant
                event_models == crate::audio::smf::track_view(*events),
                e <= events.len(),
                (ParseState {
                    tick: current_tick,
                    meta: meta@,
                    tempo_changes: tempo_changes@,
                    track: parsed_track@,
                }) == spec_run_events(event_models, e as int, start),
            decreases events.len() - e,
        {
            let event = &events[e];
            proof {
                assert(event_models[e as int] == event@);
            }
            current_tick = current_tick.saturating_add(event.delta as u64);
            match &event.kind {
                SmfEventKind::Meta(message) => {
                    apply_meta_event(
                        message,
                        current_tick,
                        &mut meta,
                        &mut parsed_track,
                        &mut tempo_changes,
                    );
                },
                SmfEventKind::Midi { channel, message } => {
                    apply_midi_event(*channel, *message, current_tick, &mut parsed_track);
                },
                SmfEventKind::Other => {},
            }
            e = e + 1;
        }
        parsed_track.close_dangling_notes(current_tick);
        if current_tick > total_ticks {
            total_ticks = current_tick;
        }
        let finished = parsed_track.finish();
        let ghost before = tracks@.map_values(|m: TrackModel| m@);
        tracks.push(finished);
        proof {
            assert(tracks@.map_values(|m: TrackModel| m@) == before.push(finished@));
        }
        t = t + 1;
    }
    let tempo_changes = normalize_tempo_changes(tempo_changes);
    let song = Song { ppq, total_ticks, meta, tempo_changes, tracks };
    Ok(song)
}

/// A song loaded from a file, with the file's name.
pub struct LoadedSong {
    pub file_name: String,
    pub song: Song,
}

/// Mathematical model of [`LoadedSong`].
pub struct LoadedSongView {
    pub file_name: Seq<char>,
    pub song: SongView,
}

impl View for LoadedSong {
    type V = LoadedSongView;

    open spec fn view(&self) -> LoadedSongView {
        LoadedSongView { file_name: self.file_name@, song: self.song@ }
    }
}

/// The outcome of a background load: the song, or the message of what went wrong.
pub enum LoadResult {
    Success(LoadedSong),
    Error(String),
}

/// Mathematical model of [`LoadResult`].
pub enum LoadResultView {
    Success(LoadedSongView),
    Error(Seq<char>),
}

impl View for LoadResult {
    type V = LoadResultView;

    open spec fn view(&self) -> LoadResultView {
        match self {
            LoadResult::Success(loaded) => LoadResultView::Success(loaded@),
            LoadResult::Error(message) => LoadResultView::Error(message@),
        }
    }
}

/// The song currently open, and the state of loading another one.
pub struct MidiManager {
    is_loading: bool,
    song: Option<Song>,
    pending_result: Option<LoadResult>,
}

/// Mathematical model of [`MidiManager`].
pub struct MidiManagerView {
    pub is_loading: bool,
    pub song: Option<SongView>,
    pub pending_result: Option<LoadResultView>,
}

impl View for MidiManager {
    type V = MidiManagerView;

    closed spec fn view(&self) -> MidiManagerView {
        MidiManagerView {
            is_loading: self.is_loading,
            song: match self.song {
                Some(s) => Some(s@),
                None => None,
            },
            pending_result: match self.pending_result {
                Some(r) => Some(r@),
                None => None,
            },
        }
    }
}

/// Nothing open, nothing loading.
pub open spec fn idle_manager() -> MidiManagerView {
    MidiManagerView { is_loading: false, song: None, pending_result: None }
}

/// A song is open and no load is under way.
pub open spec fn spec_is_loaded(m: MidiManagerView) -> bool {
    !m.is_loading && m.song.is_some()
}

/// Loading starts: any unclaimed result is dropped.
pub open spec fn spec_begin_loading(m: MidiManagerView) -> MidiManagerView {
    MidiManagerView { is_loading: true, pending_result: None, ..m }
}

/// Loading ends with `result`, which waits to be claimed.
pub open spec fn spec_finish_loading(m: MidiManagerView, result: LoadResultView) -> MidiManagerView {
    MidiManagerView { is_loading: false, pending_result: Some(result), ..m }
}

/// Claiming the waiting result: it is handed out and no longer waits.
pub open spec fn spec_take_pending_result(m: MidiManagerView) -> (
    Option<LoadResultView>,
    MidiManagerView,
) {
    (m.pending_result, MidiManagerView { pending_result: None, ..m })
}

/// `song` becomes the open song.
pub open spec fn spec_apply_song(m: MidiManagerView, song: SongView) -> MidiManagerView {
    MidiManagerView { song: Some(song), ..m }
}

impl Default for MidiManager {
    fn default() -> (m: Self)
        ensures
            m@ == idle_manager(),
    {
        MidiManager { is_loading: false, song: None, pending_result: None }
    }
}

impl MidiManager {
    /// Whether a song is open and no load is under way.
    pub fn is_loaded(&self) -> (b: bool)
        ensures
            b == spec_is_loaded(self@),
    {
        !self.is_loading && self.song.is_some()
    }

    /// Whether a load is under way.
    pub fn is_loading(&self) -> (b: bool)
        ensures
            b == self@.is_loading,
    {
        self.is_loading
    }

    /// The open song, if any.
    pub fn song(&self) -> (song: Option<&Song>)
        ensures
            match song {
                Some(s) => self@.song == Some(s@),
                None => self@.song.is_none(),
            },
    {
        self.song.as_ref()
    }

    /// The open song, for editing its tracks; nothing else of the manager changes.
    pub fn song_mut(&mut self) -> (song: Option<&mut Song>)
        ensures
            match song {
                Some(s) => old(self)@.song == Some(s@) && final(self)@ == (MidiManagerView {
                    song: Some(final(s)@),
                    ..old(self)@
                }),
                None => old(self)@.song.is_none() && final(self)@ == old(self)@,
            },
    {
        self.song.as_mut()
    }

    /// Marks a load as started, dropping any result not yet claimed.
    pub fn begin_loading(&mut self)
        ensures
            final(self)@ == spec_begin_loading(old(self)@),
    {
        self.is_loading = true;
        self.pending_result = None;
    }

    /// Records a successful load of `song` from `file_name`.
    pub fn finish_loading(&mut self, file_name: String, song: Song)
        ensures
            final(self)@ == spec_finish_loading(
                old(self)@,
                LoadResultView::Success(LoadedSongView { file_name: file_name@, song: song@ }),
            ),
    {
        self.is_loading = false;
        self.pending_result = Some(LoadResult::Success(LoadedSong { file_name, song }));
    }

    /// Records a failed load with its message.
    pub fn finish_loading_error(&mut self, error: String)
        ensures
            final(self)@ == spec_finish_loading(old(self)@, LoadResultView::Error(error@)),
    {
        self.is_loading = false;
        self.pending_result = Some(LoadResult::Error(error));
    }

    /// Hands out the result of the last load, once.
    pub fn take_pending_result(&mut self) -> (result: Option<LoadResult>)
        ensures
            (match result {
                Some(r) => Some(r@),
                None => None,
            }, final(self)@) == spec_take_pending_result(old(self)@),
    {
        self.pending_result.take()
    }

    /// Makes `song` the open song.
    pub fn apply_song(&mut self, song: Song)
        ensures
            final(self)@ == spec_apply_song(old(self)@, song@),
    {
        self.song = Some(song);
    }

    /// Parses the raw bytes of a MIDI file into a song: bytes `midly` rejects give
    /// `Parse`, timecode-based files `UnsupportedTimecode`, any other file its song.
    pub fn parse_bytes(data: &[u8]) -> (result: Result<Song, MidiLoadError>)
        ensures
            match midly_parse(data@) {
                Err(cause) => result matches Err(MidiLoadError::Parse(e)) && midly_error_message(e)
                    == cause,
                Ok(smf) => match spec_song_from_smf(smf) {
                    Some(song) => result matches Ok(s) && s@ == song,
                    None => result matches Err(MidiLoadError::UnsupportedTimecode),
                },
            },
    {
        match parse_smf_data(data) {
            Ok(smf) => song_from_smf(&smf),
            Err(error) => Err(MidiLoadError::Parse(error)),
        }
    }

    /// Closes the open song and forgets any load.
    pub fn close(&mut self)
        ensures
            final(self)@ == idle_manager(),
    {
        self.is_loading = false;
        self.pending_result = None;
        self.song = None;
    }
}

/// Law: a load's result is handed out exactly once; claiming again yields nothing.
pub proof fn lemma_result_taken_once(m: MidiManagerView, result: LoadResultView)
    ensures
        spec_take_pending_result(spec_finish_loading(m, result)).0 == Some(result),
        spec_take_pending_result(spec_take_pending_result(spec_finish_loading(m, result)).1).0
            is None,
{
}

/// Law: starting a load makes the manager busy and drops any unclaimed result, so a
/// stale result is never handed out for the new load.
pub proof fn lemma_begin_loading_drops_stale_result(m: MidiManagerView)
    ensures
        spec_begin_loading(m).is_loading,
        !spec_is_loaded(spec_begin_loading(m)),
        spec_take_pending_result(spec_begin_loading(m)).0 is None,
{
}

/// Law: once a finished load's song is applied, the manager holds that song and counts
/// as loaded.
pub proof fn lemma_finish_then_apply_is_loaded(
    m: MidiManagerView,
    result: LoadResultView,
    song: SongView,
)
    ensures
        spec_is_loaded(spec_apply_song(spec_finish_loading(m, result), song)),
        spec_apply_song(spec_finish_loading(m, result), song).song == Some(song),
{
}

/// Law: after closing nothing is open, loading or waiting.
pub proof fn lemma_closed_is_idle()
    ensures
        !spec_is_loaded(idle_manager()),
        !idle_manager().is_loading,
        spec_take_pending_result(idle_manager()).0 is None,
{
}

proof fn lemma_sorted_drop_last<T: Keyed>(s: Seq<T>)
    requires
        sorted_by_key(s),
        s.len() > 0,
    ensures
        sorted_by_key(s.drop_last()),
{
    let t = s.drop_last();
    assert forall|i: int, j: int| 0 <= i <= j < t.len() implies #[trigger] key_le(
        t[i].spec_key(),
        t[j].spec_key(),
    ) by {
        assert(key_le(s[i].spec_key(), s[j].spec_key()));
    }
}

proof fn lemma_merge_same_tick_increasing(s: Seq<TempoChange>)
    requires
        sorted_by_key(s),
    ensures
        ({
            let m = spec_merge_same_tick(s);
            &&& forall|a: int, b: int| 0 <= a < b < m.len() ==> #[trigger] m[a].tick < #[trigger] m[b].tick
            &&& s.len() > 0 ==> m.len() > 0 && m.last().tick == s.last().tick
            &&& s.len() == 0 ==> m.len() == 0
        }),
    decreases s.len(),
{
    if s.len() > 0 {
        let rest = s.drop_last();
        lemma_sorted_drop_last(s);
        lemma_merge_same_tick_increasing(rest);
        let m = spec_merge_same_tick(rest);
        let x = s.last();
        if rest.len() > 0 {
            assert(key_le(s[rest.len() - 1].spec_key(), s[s.len() - 1].spec_key()));
            assert(m.last().tick <= x.tick);
        }
    }
}

proof fn lemma_changes_at_nonempty(s: Seq<TempoChange>, tick: u64)
    requires
        changes_at(s, tick).len() > 0,
    ensures
        exists|j: int| 0 <= j < s.len() && #[trigger] s[j].tick == tick,
{
    let f = changes_at(s, tick);
    s.lemma_filter_pred(at_tick(tick), 0);
    s.lemma_filter_contains_rev(at_tick(tick), f[0]);
    let j = choose|j: int| 0 <= j < s.len() && s[j] == f[0];
    assert(s[j].tick == tick);
}

/// Merging a map sorted by tick leaves, at each tick, the last change there.
proof fn lemma_merge_changes_at(u: Seq<TempoChange>, tick: u64)
    requires
        sorted_by_key(u),
    ensures
        changes_at(u, tick).len() == 0 ==> changes_at(spec_merge_same_tick(u), tick).len() == 0,
        changes_at(u, tick).len() > 0 ==> changes_at(spec_merge_same_tick(u), tick) == seq![
            changes_at(u, tick).last(),
        ],
    decreases u.len(),
{
    if u.len() == 0 {
        reveal(Seq::filter);
    } else {
        let p = at_tick(tick);
        let u1 = u.drop_last();
        let x = u.last();
        assert(u1.push(x) == u);
        lemma_sorted_drop_last(u);
        lemma_merge_changes_at(u1, tick);
        lemma_merge_same_tick_increasing(u1);
        let m1 = spec_merge_same_tick(u1);
        let m = spec_merge_same_tick(u);
        u1.lemma_filter_push(x, p);
        if m1.len() > 0 && m1.last().tick == x.tick {
            let m0 = m1.drop_last();
            let y = m1.last();
            assert(m0.push(y) == m1);
            assert(m == m0.push(x));
            m0.lemma_filter_push(y, p);
            m0.lemma_filter_push(x, p);
            if x.tick == tick {
                assert(changes_at(m1, tick).len() > 0);
            }
        } else {
            assert(m == m1.push(x));
            m1.lemma_filter_push(x, p);
            if x.tick == tick && changes_at(u1, tick).len() > 0 {
                lemma_changes_at_nonempty(u1, tick);
                let j = choose|j: int| 0 <= j < u1.len() && #[trigger] u1[j].tick == tick;
                assert(key_le(u[j].spec_key(), u[u1.len() - 1].spec_key()));
                assert(key_le(u[u1.len() - 1].spec_key(), u[u.len() - 1].spec_key()));
                assert(u1.last().tick == tick);
            }
            if x.tick == tick {
                assert(changes_at(m1, tick) == Seq::<TempoChange>::empty());
            }
        }
    }
}

/// Law: normalising a tempo map keeps, at each tick where the map has changes, the
/// last of them (in the map's own order) and nothing else; a tick without changes
/// gets none, but for tick 0, which gets the default tempo.
pub proof fn lemma_normalize_keeps_last_change_at_each_tick(s: Seq<TempoChange>, tick: u64)
    ensures
        changes_at(s, tick).len() > 0 ==> changes_at(spec_normalize_tempo_changes(s), tick)
            == seq![changes_at(s, tick).last()],
        changes_at(s, tick).len() == 0 ==> changes_at(spec_normalize_tempo_changes(s), tick)
            == if tick == 0 {
            seq![TempoChange { tick: 0, micros_per_quarter: DEFAULT_MICROS_PER_QUARTER }]
        } else {
            Seq::<TempoChange>::empty()
        },
{
    let p = at_tick(tick);
    let sorted = spec_stable_sort(s);
    crate::sort::lemma_spec_stable_sort_is_stable(s);
    let k = (tick, 0u64, 0u64, 0u64);
    assert(crate::sort::has_key::<TempoChange>(k) =~= p);
    assert(crate::sort::key_class(sorted, k) == crate::sort::key_class(s, k));
    assert(changes_at(sorted, tick) == changes_at(s, tick));
    lemma_merge_changes_at(sorted, tick);
    lemma_merge_same_tick_increasing(sorted);
    let m = spec_merge_same_tick(sorted);
    let d = TempoChange { tick: 0, micros_per_quarter: DEFAULT_MICROS_PER_QUARTER };
    let r = spec_normalize_tempo_changes(s);
    if changes_at(m, tick).len() == 0 {
        reveal(Seq::filter);
        assert(changes_at(m, tick) == Seq::<TempoChange>::empty());
    }
    if m.len() == 0 || m[0].tick != 0 {
        assert(r == seq![d] + m);
        Seq::filter_distributes_over_add(seq![d], m, p);
        assert(seq![d] == Seq::<TempoChange>::empty().push(d));
        Seq::<TempoChange>::empty().lemma_filter_push(d, p);
        reveal(Seq::filter);
        if tick == 0 && changes_at(m, 0).len() > 0 {
            lemma_changes_at_nonempty(m, 0);
            let j = choose|j: int| 0 <= j < m.len() && #[trigger] m[j].tick == 0;
            if j > 0 {
                assert(m[0].tick < m[j].tick);
            }
        }
    } else if tick == 0 {
        m.lemma_filter_contains(p, 0);
    }
}

/// Merging a map whose ticks strictly increase changes nothing.
proof fn lemma_merge_increasing_unchanged(s: Seq<TempoChange>)
    requires
        forall|i: int, j: int| 0 <= i < j < s.len() ==> #[trigger] s[i].tick < #[trigger] s[j].tick,
    ensures
        spec_merge_same_tick(s) == s,
    decreases s.len(),
{
    if s.len() > 0 {
        let rest = s.drop_last();
        assert forall|i: int, j: int| 0 <= i < j < rest.len() implies #[trigger] rest[i].tick
            < #[trigger] rest[j].tick by {
            assert(s[i].tick < s[j].tick);
        }
        lemma_merge_increasing_unchanged(rest);
        if rest.len() > 0 {
            assert(s[rest.len() - 1].tick < s[s.len() - 1].tick);
        }
        assert(rest.push(s.last()) == s);
    }
}

/// Law: normalising a tempo map that is already normal returns it unchanged.
pub proof fn lemma_normalize_normal_map_unchanged(s: Seq<TempoChange>)
    requires
        is_normal_tempo_map(s),
    ensures
        spec_normalize_tempo_changes(s) == s,
{
    assert(sorted_by_key(s)) by {
        assert forall|i: int, j: int| 0 <= i <= j < s.len() implies #[trigger] key_le(
            s[i].spec_key(),
            s[j].spec_key(),
        ) by {
            if i < j {
                assert(s[i].tick < s[j].tick);
            }
        }
    }
    crate::sort::lemma_stable_sort_of_sorted(s);
    lemma_merge_increasing_unchanged(s);
}

/// Law: a normalised tempo map starts at tick 0 and its ticks strictly increase,
/// whatever map it was made from.
pub proof fn lemma_normalized_tempo_map_is_normal(s: Seq<TempoChange>)
    ensures
        is_normal_tempo_map(spec_normalize_tempo_changes(s)),
{
    crate::sort::lemma_spec_stable_sort_is_stable(s);
    let sorted = spec_stable_sort(s);
    lemma_merge_same_tick_increasing(sorted);
    let m = spec_merge_same_tick(sorted);
    let r = spec_normalize_tempo_changes(s);
    if m.len() == 0 || m[0].tick != 0 {
        assert forall|a: int, b: int| 0 <= a < b < r.len() implies #[trigger] r[a].tick
            < #[trigger] r[b].tick by {
            if a == 0 {
                assert(r[b] == m[b - 1]);
                if b - 1 > 0 {
                    assert(m[0].tick < m[b - 1].tick);
                }
            } else {
                assert(r[a] == m[a - 1]);
                assert(r[b] == m[b - 1]);
            }
        }
    }
}

/// Every sounding note of the track started no later than `tick`, and every finished
/// note starts no later than it ends, which is no later than `tick`.
pub open spec fn notes_within(track: TrackAccumulatorView, tick: u64) -> bool {
    &&& forall|i: int|
        0 <= i < track.active_notes.len() ==> #[trigger] track.active_notes[i].start_tick <= tick
    &&& forall|i: int|
        0 <= i < track.note_spans.len() ==> #[trigger] track.note_spans[i].start_tick
            <= track.note_spans[i].end_tick <= tick
}

proof fn lemma_first_active_bounds(active: Seq<ActiveNote>, key: u8)
    ensures
        0 <= first_active(active, key) <= active.len(),
        first_active(active, key) < active.len() ==> active[first_active(active, key)].key == key,
    decreases active.len(),
{
    if !(active.len() == 0 || active[0].key == key) {
        lemma_first_active_bounds(active.drop_first(), key);
    }
}

proof fn lemma_close_note_within(track: TrackAccumulatorView, key: u8, tick: u64)
    requires
        notes_within(track, tick),
    ensures
        notes_within(spec_close_note(track, key, tick), tick),
{
    lemma_first_active_bounds(track.active_notes, key);
    let i = first_active(track.active_notes, key);
    if i < track.active_notes.len() {
        let closed = spec_close_note(track, key, tick);
        assert forall|j: int| 0 <= j < closed.active_notes.len() implies #[trigger] closed.active_notes[j].start_tick
            <= tick by {
            if j < i {
                assert(closed.active_notes[j] == track.active_notes[j]);
            } else {
                assert(closed.active_notes[j] == track.active_notes[j + 1]);
            }
        }
        assert(track.active_notes[i].start_tick <= tick);
    }
}

proof fn lemma_notes_within_later(track: TrackAccumulatorView, a: u64, b: u64)
    requires
        notes_within(track, a),
        a <= b,
    ensures
        notes_within(track, b),
{
}

proof fn lemma_notes_within_same(a: TrackAccumulatorView, b: TrackAccumulatorView, tick: u64)
    requires
        notes_within(a, tick),
        a.active_notes == b.active_notes,
        a.note_spans == b.note_spans,
    ensures
        notes_within(b, tick),
{
    assert forall|i: int| 0 <= i < b.active_notes.len() implies #[trigger] b.active_notes[i].start_tick
        <= tick by {
        assert(b.active_notes[i] == a.active_notes[i]);
    }
    assert forall|i: int| 0 <= i < b.note_spans.len() implies #[trigger] b.note_spans[i].start_tick
        <= b.note_spans[i].end_tick <= tick by {
        assert(b.note_spans[i] == a.note_spans[i]);
    }
}

proof fn lemma_step_within(state: ParseState, event: SmfEvent<Seq<u8>>)
    requires
        notes_within(state.track, state.tick),
    ensures
        spec_step(state, event).tick >= state.tick,
        notes_within(spec_step(state, event).track, spec_step(state, event).tick),
{
    let tick = saturating_add_u64(state.tick, event.delta as u64);
    lemma_notes_within_later(state.track, state.tick, tick);
    match event.kind {
        SmfEventKind::Meta(message) => {
            let applied = spec_apply_meta_event(
                message,
                tick,
                state.meta,
                state.track,
                state.tempo_changes,
            );
            assert(applied.1.active_notes == state.track.active_notes);
            assert(applied.1.note_spans == state.track.note_spans);
            lemma_notes_within_same(state.track, applied.1, tick);
            let next = spec_step(state, event);
            assert(next.track == applied.1);
            assert(next.tick == tick);
            assert(notes_within(next.track, next.tick));
        },
        SmfEventKind::Midi { channel, message } => {
            let t1 = if state.track.channel.is_none() {
                TrackAccumulatorView { channel: Some(channel), ..state.track }
            } else {
                state.track
            };
            lemma_notes_within_same(state.track, t1, tick);
            let next = spec_step(state, event);
            assert(next.track == spec_apply_midi_event(channel, message, tick, state.track));
            match message {
                MidiEventData::NoteOn { key, vel } => {
                    if vel == 0 {
                        lemma_close_note_within(t1, key, tick);
                    } else {
                        let t2 = next.track;
                        assert(t2.active_notes == t1.active_notes.push(
                            ActiveNote { key, start_tick: tick, velocity: vel },
                        ));
                        assert forall|i: int| 0 <= i < t2.active_notes.len() implies #[trigger] t2.active_notes[i].start_tick
                            <= tick by {
                            if i < t1.active_notes.len() {
                                assert(t2.active_notes[i] == t1.active_notes[i]);
                            }
                        }
                        lemma_notes_within_same(t1, TrackAccumulatorView { active_notes: t1.active_notes, ..t2 }, tick);
                    }
                },
                MidiEventData::NoteOff { key, .. } => {
                    lemma_close_note_within(t1, key, tick);
                },
                MidiEventData::ProgramChange { .. } => {
                    lemma_notes_within_same(t1, next.track, tick);
                },
                MidiEventData::Other => {
                    lemma_notes_within_same(t1, next.track, tick);
                },
            }
            assert(notes_within(next.track, next.tick));
        },
        SmfEventKind::Other => {
            lemma_notes_within_same(state.track, spec_step(state, event).track, tick);
        },
    }
}

proof fn lemma_run_within(events: Seq<SmfEvent<Seq<u8>>>, n: int, start: ParseState)
    requires
        notes_within(start.track, start.tick),
    ensures
        spec_run_events(events, n, start).tick >= start.tick,
        notes_within(spec_run_events(events, n, start).track, spec_run_events(events, n, start).tick),
        spec_run_events(events, n, start).track.track_index == start.track.track_index,
    decreases n,
{
    if n > 0 {
        lemma_run_within(events, n - 1, start);
        lemma_step_within(spec_run_events(events, n - 1, start), events[n - 1]);
    }
}

proof fn lemma_sorted_member<T: Keyed>(out: Seq<T>, inp: Seq<T>, i: int)
    requires
        crate::sort::is_stable_sort_of(out, inp),
        0 <= i < out.len(),
    ensures
        inp.contains(out[i]),
{
    let k = out[i].spec_key();
    let pred = crate::sort::has_key::<T>(k);
    out.filter_lemma(pred);
    assert(crate::sort::key_class(out, k) == crate::sort::key_class(inp, k));
    inp.lemma_filter_contains_rev(pred, out[i]);
}

/// Every note of a finished track starts no later than it ends, and ends no later
/// than `tick`.
pub open spec fn track_notes_within(track: TrackView, tick: u64) -> bool {
    forall|i: int|
        0 <= i < track.note_spans.len() ==> #[trigger] track.note_spans[i].start_tick
            <= track.note_spans[i].end_tick <= tick
}

proof fn lemma_finish_within(track: TrackAccumulatorView, tick: u64)
    requires
        notes_within(track, tick),
    ensures
        track_notes_within(spec_finish(spec_close_dangling_notes(track, tick)), tick),
{
    let closed = spec_close_dangling_notes(track, tick);
    assert forall|i: int| 0 <= i < closed.note_spans.len() implies #[trigger] closed.note_spans[i].start_tick
        <= closed.note_spans[i].end_tick <= tick by {
        if i < track.note_spans.len() {
            assert(closed.note_spans[i] == track.note_spans[i]);
        } else {
            assert(closed.note_spans[i] == ended_note(
                track.active_notes[i - track.note_spans.len()],
                tick,
            ));
        }
    }
    crate::sort::lemma_spec_stable_sort_is_stable(closed.note_spans);
    let sorted = spec_stable_sort(closed.note_spans);
    assert forall|i: int| 0 <= i < sorted.len() implies #[trigger] sorted[i].start_tick
        <= sorted[i].end_tick <= tick by {
        lemma_sorted_member(sorted, closed.note_spans, i);
        let j = choose|j: int| 0 <= j < closed.note_spans.len() && closed.note_spans[j] == sorted[i];
        assert(closed.note_spans[j].start_tick <= closed.note_spans[j].end_tick <= tick);
    }
}

proof fn lemma_track_notes_within_later(track: TrackView, a: u64, b: u64)
    requires
        track_notes_within(track, a),
        a <= b,
    ensures
        track_notes_within(track, b),
{
}

proof fn lemma_read_tracks_within(tracks: Seq<Seq<SmfEvent<Seq<u8>>>>, k: int)
    requires
        0 <= k <= tracks.len(),
        k <= usize::MAX,
    ensures
        spec_read_tracks(tracks, k).tracks.len() == k,
        forall|t: int|
            0 <= t < k ==> track_notes_within(
                #[trigger] spec_read_tracks(tracks, k).tracks[t],
                spec_read_tracks(tracks, k).total_ticks,
            ) && spec_read_tracks(tracks, k).tracks[t].track_index == t,
    decreases k,
{
    if k > 0 {
        lemma_read_tracks_within(tracks, k - 1);
        let before = spec_read_tracks(tracks, k - 1);
        let events = tracks[k - 1];
        let start = ParseState {
            tick: 0,
            meta: before.meta,
            tempo_changes: before.tempo_changes,
            track: spec_new_accumulator((k - 1) as usize),
        };
        lemma_run_within(events, events.len() as int, start);
        let end = spec_run_events(events, events.len() as int, start);
        lemma_finish_within(end.track, end.tick);
        let now = spec_read_tracks(tracks, k);
        assert forall|t: int| 0 <= t < k implies track_notes_within(
            #[trigger] now.tracks[t],
            now.total_ticks,
        ) && now.tracks[t].track_index == t by {
            if t < k - 1 {
                assert(now.tracks[t] == before.tracks[t]);
                assert(track_notes_within(before.tracks[t], before.total_ticks));
                lemma_track_notes_within_later(before.tracks[t], before.total_ticks, now.total_ticks);
            } else {
                assert(now.tracks[t] == spec_finish(spec_close_dangling_notes(end.track, end.tick)));
                lemma_track_notes_within_later(now.tracks[t], end.tick, now.total_ticks);
            }
        }
    }
}

/// Law: every track of the file becomes a track of the song, numbered by its
/// position (tracks on the same channel stay apart); every note starts no later than
/// it ends and ends within the song's length; the tempo map is normal.
pub proof fn lemma_parsed_song_well_formed(smf: SmfModel)
    requires
        smf.tracks.len() <= usize::MAX,
    ensures
        spec_song_from_smf(smf) matches Some(song) ==> {
            &&& song.tracks.len() == smf.tracks.len()
            &&& forall|t: int|
                0 <= t < song.tracks.len() ==> #[trigger] song.tracks[t].track_index == t
                    && track_notes_within(song.tracks[t], song.total_ticks)
            &&& is_normal_tempo_map(song.tempo_changes)
        },
{
    lemma_read_tracks_within(smf.tracks, smf.tracks.len() as int);
    let read = spec_read_tracks(smf.tracks, smf.tracks.len() as int);
    lemma_normalized_tempo_map_is_normal(read.tempo_changes);
    if let Some(song) = spec_song_from_smf(smf) {
        assert forall|t: int| 0 <= t < song.tracks.len() implies #[trigger] song.tracks[t].track_index
            == t && track_notes_within(song.tracks[t], song.total_ticks) by {
            assert(track_notes_within(read.tracks[t], read.total_ticks));
            assert(song.tracks[t] == read.tracks[t]);
        }
    }
}

/// Law: each finished track lists its notes in order of (start, end, key) and its
/// program changes in order of tick, both stably.
pub proof fn lemma_finished_track_sorted(track: TrackAccumulatorView)
    ensures
        crate::sort::is_stable_sort_of(spec_finish(track).note_spans, track.note_spans),
        crate::sort::is_stable_sort_of(spec_finish(track).program_changes, track.program_changes),
{
    crate::sort::lemma_spec_stable_sort_is_stable(track.note_spans);
    crate::sort::lemma_spec_stable_sort_is_stable(track.program_changes);
}

/// Law: notes of one key are paired first-in, first-out: a note-off ends the earliest
/// started note of its key, with that note's start tick and velocity.
pub proof fn lemma_note_off_closes_earliest(track: TrackAccumulatorView, key: u8, tick: u64, i: int)
    requires
        0 <= i < track.active_notes.len(),
        track.active_notes[i].key == key,
        forall|j: int| 0 <= j < i ==> #[trigger] track.active_notes[j].key != key,
    ensures
        spec_close_note(track, key, tick).note_spans == track.note_spans.push(
            ended_note(track.active_notes[i], tick),
        ),
        spec_close_note(track, key, tick).active_notes == track.active_notes.remove(i),
    decreases i,
{
    lemma_first_active_is(track.active_notes, key, i);
}

proof fn lemma_first_active_is(active: Seq<ActiveNote>, key: u8, i: int)
    requires
        0 <= i < active.len(),
        active[i].key == key,
        forall|j: int| 0 <= j < i ==> #[trigger] active[j].key != key,
    ensures
        first_active(active, key) == i,
    decreases i,
{
    if i > 0 {
        let rest = active.drop_first();
        assert forall|j: int| 0 <= j < i - 1 implies #[trigger] rest[j].key != key by {
            assert(rest[j] == active[j + 1]);
        }
        lemma_first_active_is(rest, key, i - 1);
    }
}

/// The tick of the `n`-th event of a track counted from 1: the sum of the deltas of
/// its first `n` events, whatever their kind (stopping at `u64::MAX`).
pub open spec fn elapsed_ticks(events: Seq<SmfEvent<Seq<u8>>>, n: int) -> u64
    decreases n,
{
    if n <= 0 {
        0
    } else {
        let sum = elapsed_ticks(events, n - 1) + events[n - 1].delta;
        if sum > u64::MAX {
            u64::MAX
        } else {
            sum as u64
        }
    }
}

/// The longest of the first `k` tracks, in ticks: the greatest sum of a track's deltas.
pub open spec fn longest_track_ticks(tracks: Seq<Seq<SmfEvent<Seq<u8>>>>, k: int) -> u64
    decreases k,
{
    if k <= 0 {
        0
    } else {
        let here = elapsed_ticks(tracks[k - 1], tracks[k - 1].len() as int);
        let rest = longest_track_ticks(tracks, k - 1);
        if here > rest {
            here
        } else {
            rest
        }
    }
}

/// Whether an event starts a note of `key` with velocity `velocity`.
pub open spec fn starts_note(kind: SmfEventKind<Seq<u8>>, key: u8, velocity: u8) -> bool {
    match kind {
        SmfEventKind::Midi { message: MidiEventData::NoteOn { key: k, vel }, .. } => k == key
            && vel == velocity && vel > 0,
        _ => false,
    }
}

/// Whether an event releases `key`: a note-off, or a note-on of velocity 0.
pub open spec fn releases_note(kind: SmfEventKind<Seq<u8>>, key: u8) -> bool {
    match kind {
        SmfEventKind::Midi { message: MidiEventData::NoteOff { key: k, .. }, .. } => k == key,
        SmfEventKind::Midi { message: MidiEventData::NoteOn { key: k, vel }, .. } => k == key
            && vel == 0,
        _ => false,
    }
}

/// Law: reading a track from tick 0, the reader stands after its first `n` events at
/// the sum of their deltas, whatever kinds of event they are.
pub proof fn lemma_events_happen_at_elapsed_ticks(
    events: Seq<SmfEvent<Seq<u8>>>,
    n: int,
    start: ParseState,
)
    requires
        start.tick == 0,
        0 <= n <= events.len(),
    ensures
        spec_run_events(events, n, start).tick == elapsed_ticks(events, n),
    decreases n,
{
    if n > 0 {
        lemma_events_happen_at_elapsed_ticks(events, n - 1, start);
    }
}

/// Law: a note starts at the tick of its note-on, and a release ends the earliest
/// started sounding note of its key at the tick of the release: in both cases the
/// sum of the deltas of the track's events up to and including that event.
pub proof fn lemma_notes_start_and_end_at_their_events(
    events: Seq<SmfEvent<Seq<u8>>>,
    n: int,
    start: ParseState,
    key: u8,
    velocity: u8,
    i: int,
)
    requires
        start.tick == 0,
        0 <= n < events.len(),
    ensures
        ({
            let before = spec_run_events(events, n, start).track;
            let after = spec_run_events(events, n + 1, start).track;
            let tick = elapsed_ticks(events, n + 1);
            &&& starts_note(events[n].kind, key, velocity) ==> after.active_notes
                == before.active_notes.push(ActiveNote { key, start_tick: tick, velocity })
                && after.note_spans == before.note_spans
            &&& releases_note(events[n].kind, key) && 0 <= i < before.active_notes.len()
                && before.active_notes[i].key == key && (forall|j: int|
                0 <= j < i ==> #[trigger] before.active_notes[j].key != key) ==> after.note_spans
                == before.note_spans.push(
                NoteSpan {
                    key,
                    start_tick: before.active_notes[i].start_tick,
                    end_tick: tick,
                    velocity: before.active_notes[i].velocity,
                },
            )
        }),
{
    lemma_events_happen_at_elapsed_ticks(events, n + 1, start);
    let state = spec_run_events(events, n, start);
    let before = state.track;
    let tick = elapsed_ticks(events, n + 1);
    if releases_note(events[n].kind, key) && 0 <= i < before.active_notes.len()
        && before.active_notes[i].key == key && (forall|j: int|
        0 <= j < i ==> #[trigger] before.active_notes[j].key != key) {
        match events[n].kind {
            SmfEventKind::Midi { channel, message } => {
                let t = if before.channel.is_none() {
                    TrackAccumulatorView { channel: Some(channel), ..before }
                } else {
                    before
                };
                lemma_note_off_closes_earliest(t, key, tick, i);
            },
            _ => {},
        }
    }
}

/// Law: a song is as long as its longest track: the greatest sum of a track's deltas
/// over all its events, whatever their kind.
pub proof fn lemma_song_length_is_longest_track(smf: SmfModel)
    ensures
        spec_song_from_smf(smf) matches Some(song) ==> song.total_ticks == longest_track_ticks(
            smf.tracks,
            smf.tracks.len() as int,
        ),
{
    lemma_read_tracks_length(smf.tracks, smf.tracks.len() as int);
}

proof fn lemma_read_tracks_length(tracks: Seq<Seq<SmfEvent<Seq<u8>>>>, k: int)
    requires
        0 <= k <= tracks.len(),
    ensures
        spec_read_tracks(tracks, k).total_ticks == longest_track_ticks(tracks, k),
    decreases k,
{
    if k > 0 {
        lemma_read_tracks_length(tracks, k - 1);
        let before = spec_read_tracks(tracks, k - 1);
        let events = tracks[k - 1];
        lemma_events_happen_at_elapsed_ticks(
            events,
            events.len() as int,
            ParseState {
                tick: 0,
                meta: before.meta,
                tempo_changes: before.tempo_changes,
                track: spec_new_accumulator((k - 1) as usize),
            },
        );
    }
}

} // verus!
