use vstd::prelude::*;
use std::sync::Arc;
use crate::audio::tempo::{
    sample_index_for_tick, spec_sample_index_for_tick, spec_tick_for_sample, tick_for_sample,
};
use crate::sort::{is_stable_sort_of, spec_stable_sort, stable_sort_by_key, Keyed, SortKey};

verus! {

/// Song-wide metadata gathered from the meta events of all tracks.
#[derive(Debug, PartialEq, Eq)]
pub struct SongMeta {
    pub title: String,
    pub text: String,
    pub copyright: String,
    pub program_name: String,
    pub time_signature: [u8; 4],
    pub key_signature: i8,
    pub is_minor: bool,
    pub marker: String,
}

/// Mathematical model of [`SongMeta`].
pub struct SongMetaView {
    pub title: Seq<char>,
    pub text: Seq<char>,
    pub copyright: Seq<char>,
    pub program_name: Seq<char>,
    pub time_signature: (u8, u8, u8, u8),
    pub key_signature: i8,
    pub is_minor: bool,
    pub marker: Seq<char>,
}

impl View for SongMeta {
    type V = SongMetaView;

    open spec fn view(&self) -> SongMetaView {
        SongMetaView {
            title: self.title@,
            text: self.text@,
            copyright: self.copyright@,
            program_name: self.program_name@,
            time_signature: (
                self.time_signature[0],
                self.time_signature[1],
                self.time_signature[2],
                self.time_signature[3],
            ),
            key_signature: self.key_signature,
            is_minor: self.is_minor,
            marker: self.marker@,
        }
    }
}

/// The metadata of a file that holds no meta events.
pub open spec fn empty_song_meta() -> SongMetaView {
    SongMetaView {
        title: Seq::empty(),
        text: Seq::empty(),
        copyright: Seq::empty(),
        program_name: Seq::empty(),
        time_signature: (0, 0, 0, 0),
        key_signature: 0,
        is_minor: false,
        marker: Seq::empty(),
    }
}

impl Default for SongMeta {
    fn default() -> (meta: Self)
        ensures
            meta@ == empty_song_meta(),
    {
        SongMeta {
            title: String::new(),
            text: String::new(),
            copyright: String::new(),
            program_name: String::new(),
            time_signature: [0, 0, 0, 0],
            key_signature: 0,
            is_minor: false,
            marker: String::new(),
        }
    }
}

/// A tempo change: from `tick` on, a quarter note lasts `micros_per_quarter` microseconds.
#[derive(Clone, Copy, Debug, PartialEq, Eq)]
pub struct TempoChange {
    pub tick: u64,
    pub micros_per_quarter: u32,
}

/// A program (instrument) change at an absolute tick.
#[derive(Clone, Copy, Debug, PartialEq, Eq)]
pub struct ProgramChangeEvent {
    pub tick: u64,
    pub program: u8,
}

/// A sounding note: `key` is held from `start_tick` until `end_tick`.
#[derive(Clone, Copy, Debug, PartialEq, Eq)]
pub struct NoteSpan {
    pub key: u8,
    pub start_tick: u64,
    pub end_tick: u64,
    pub velocity: u8,
}

/// One track of a song, normalised for display and playback.
///
/// `volume` is the track's mixer level in percent (0 to 100).
#[derive(Debug)]
pub struct TrackModel {
    pub track_index: usize,
    pub name: String,
    pub channel: u8,
    pub program: u8,
    pub instrument_name: String,
    pub program_changes: Vec<ProgramChangeEvent>,
    pub note_spans: Vec<NoteSpan>,
    pub is_muted: bool,
    pub volume: u8,
}

/// Mathematical model of [`TrackModel`].
pub struct TrackView {
    pub track_index: usize,
    pub name: Seq<char>,
    pub channel: u8,
    pub program: u8,
    pub instrument_name: Seq<char>,
    pub program_changes: Seq<ProgramChangeEvent>,
    pub note_spans: Seq<NoteSpan>,
    pub is_muted: bool,
    pub volume: u8,
}

impl View for TrackModel {
    type V = TrackView;

    open spec fn view(&self) -> TrackView {
        TrackView {
            track_index: self.track_index,
            name: self.name@,
            channel: self.channel,
            program: self.program,
            instrument_name: self.instrument_name@,
            program_changes: self.program_changes@,
            note_spans: self.note_spans@,
            is_muted: self.is_muted,
            volume: self.volume,
        }
    }
}

/// The name under which a track is shown: its own name, or its instrument's when it has none.
pub open spec fn spec_display_name(track: TrackView) -> Seq<char> {
    if track.name.len() == 0 {
        track.instrument_name
    } else {
        track.name
    }
}

/// Whether a track takes part in playback: with a solo track only that one (when unmuted),
/// otherwise every unmuted track.
pub open spec fn spec_is_audible(track: TrackView, solo_track: Option<usize>) -> bool {
    match solo_track {
        Some(index) => track.track_index == index && !track.is_muted,
        None => !track.is_muted,
    }
}

impl TrackModel {
    /// The track's name, or its instrument's name when the track has none.
    pub fn display_name(&self) -> (name: &str)
        ensures
            name@ == spec_display_name(self@),
    {
        if self.name.as_str().is_empty() {
            self.instrument_name.as_str()
        } else {
            self.name.as_str()
        }
    }

    /// Whether the track plays on the General MIDI percussion channel (channel 10, index 9).
    pub fn is_percussion(&self) -> (b: bool)
        ensures
            b == (self.channel == 9),
    {
        self.channel == 9
    }

    /// Whether the track is heard given the current solo selection and its mute flag.
    pub fn is_audible(&self, solo_track: Option<usize>) -> (b: bool)
        ensures
            b == spec_is_audible(self@, solo_track),
    {
        match solo_track {
            Some(index) => self.track_index == index && !self.is_muted,
            None => !self.is_muted,
        }
    }
}

/// A whole song: ticks per quarter note, length, metadata, tempo map and tracks.
#[derive(Debug)]
pub struct Song {
    pub ppq: u16,
    pub total_ticks: u64,
    pub meta: SongMeta,
    pub tempo_changes: Vec<TempoChange>,
    pub tracks: Vec<TrackModel>,
}

/// Mathematical model of [`Song`].
pub struct SongView {
    pub ppq: u16,
    pub total_ticks: u64,
    pub meta: SongMetaView,
    pub tempo_changes: Seq<TempoChange>,
    pub tracks: Seq<TrackView>,
}

impl View for Song {
    type V = SongView;

    open spec fn view(&self) -> SongView {
        SongView {
            ppq: self.ppq,
            total_ticks: self.total_ticks,
            meta: self.meta@,
            tempo_changes: self.tempo_changes@,
            tracks: self.tracks@.map_values(|t: TrackModel| t@),
        }
    }
}

/// The title shown for a song: its title, else its program name, else none.
pub open spec fn spec_display_title(meta: SongMetaView) -> Option<Seq<char>> {
    if meta.title.len() != 0 {
        Some(meta.title)
    } else if meta.program_name.len() != 0 {
        Some(meta.program_name)
    } else {
        None
    }
}

impl Song {
    /// Whether the song holds no tracks at all.
    pub fn is_empty(&self) -> (b: bool)
        ensures
            b == (self@.tracks.len() == 0),
    {
        self.tracks.is_empty()
    }

    /// The title to show for the song: the title meta event, else the program name.
    pub fn display_title(&self) -> (title: Option<&str>)
        ensures
            match title {
                Some(t) => spec_display_title(self@.meta) == Some(t@),
                None => spec_display_title(self@.meta).is_none(),
            },
    {
        if !self.meta.title.as_str().is_empty() {
            Some(self.meta.title.as_str())
        } else if !self.meta.program_name.as_str().is_empty() {
            Some(self.meta.program_name.as_str())
        } else {
            None
        }
    }
}

/// What a playback event does on its channel.
#[derive(Clone, Copy, Debug, PartialEq, Eq)]
pub enum PlaybackEventKind {
    ProgramChange { program: u8 },
    NoteOff { key: u8 },
    NoteOn { key: u8, velocity: u8 },
}

/// Order of kinds at one sample position: program changes, then note-offs, then note-ons.
pub open spec fn spec_sort_priority(kind: PlaybackEventKind) -> u8 {
    match kind {
        PlaybackEventKind::ProgramChange { .. } => 0,
        PlaybackEventKind::NoteOff { .. } => 1,
        PlaybackEventKind::NoteOn { .. } => 2,
    }
}

/// The key a note event refers to; 0 for program changes.
pub open spec fn spec_note_key(kind: PlaybackEventKind) -> u8 {
    match kind {
        PlaybackEventKind::ProgramChange { .. } => 0,
        PlaybackEventKind::NoteOff { key } => key,
        PlaybackEventKind::NoteOn { key, .. } => key,
    }
}

impl PlaybackEventKind {
    /// Rank of the kind among events at the same sample position.
    pub fn sort_priority(&self) -> (p: u8)
        ensures
            p == spec_sort_priority(*self),
    {
        match self {
            PlaybackEventKind::ProgramChange { .. } => 0,
            PlaybackEventKind::NoteOff { .. } => 1,
            PlaybackEventKind::NoteOn { .. } => 2,
        }
    }

    /// The key of a note event, 0 for a program change.
    pub fn note_key(&self) -> (k: u8)
        ensures
            k == spec_note_key(*self),
    {
        match self {
            PlaybackEventKind::ProgramChange { .. } => 0,
            PlaybackEventKind::NoteOff { key } => *key,
            PlaybackEventKind::NoteOn { key, .. } => *key,
        }
    }
}

/// An event scheduled at an absolute output sample.
#[derive(Clone, Copy, Debug, PartialEq, Eq)]
pub struct PlaybackEvent {
    pub sample_index: usize,
    pub channel: u8,
    pub kind: PlaybackEventKind,
}

impl Keyed for TempoChange {
    /// Tempo changes are ordered by tick.
    open spec fn spec_key(&self) -> SortKey {
        (self.tick, 0, 0, 0)
    }

    fn key(&self) -> (k: SortKey) {
        (self.tick, 0, 0, 0)
    }
}

impl Keyed for ProgramChangeEvent {
    /// Program changes are ordered by tick.
    open spec fn spec_key(&self) -> SortKey {
        (self.tick, 0, 0, 0)
    }

    fn key(&self) -> (k: SortKey) {
        (self.tick, 0, 0, 0)
    }
}

impl Keyed for NoteSpan {
    /// Notes are ordered by start tick, then end tick, then key.
    open spec fn spec_key(&self) -> SortKey {
        (self.start_tick, self.end_tick, self.key as u64, 0)
    }

    fn key(&self) -> (k: SortKey) {
        (self.start_tick, self.end_tick, self.key as u64, 0)
    }
}

impl Keyed for PlaybackEvent {
    /// Events are ordered by sample, then kind (program change, note-off, note-on),
    /// then channel, then key.
    open spec fn spec_key(&self) -> SortKey {
        (
            self.sample_index as u64,
            spec_sort_priority(self.kind) as u64,
            self.channel as u64,
            spec_note_key(self.kind) as u64,
        )
    }

    fn key(&self) -> (k: SortKey) {
        (
            self.sample_index as u64,
            self.kind.sort_priority() as u64,
            self.channel as u64,
            self.kind.note_key() as u64,
        )
    }
}

/// A song's playback timeline: its length in samples and its events in play order.
#[derive(Clone, Debug)]
pub struct PlaybackData {
    pub song_length_samples: usize,
    pub events: Arc<Vec<PlaybackEvent>>,
}

impl Default for PlaybackData {
    fn default() -> (data: Self)
        ensures
            data.song_length_samples == 0,
            data.events@ == Seq::<PlaybackEvent>::empty(),
    {
        PlaybackData { song_length_samples: 0, events: Arc::new(Vec::new()) }
    }
}

/// The program changes a track plays: its own, preceded by its default program at
/// tick 0 unless its first change already lies at tick 0.
pub open spec fn spec_playback_program_changes(track: TrackView) -> Seq<ProgramChangeEvent> {
    let changes = track.program_changes;
    if changes.len() == 0 || changes[0].tick != 0 {
        seq![ProgramChangeEvent { tick: 0, program: track.program }] + changes
    } else {
        changes
    }
}

/// The program-change events of a track, one per program change, in its order.
pub open spec fn spec_program_events(
    song: SongView,
    track: TrackView,
    sample_rate: u32,
) -> Seq<PlaybackEvent> {
    spec_playback_program_changes(track).map_values(
        |change: ProgramChangeEvent|
            PlaybackEvent {
                sample_index: spec_sample_index_for_tick(
                    song.ppq,
                    song.tempo_changes,
                    change.tick,
                    sample_rate,
                ),
                channel: track.channel,
                kind: PlaybackEventKind::ProgramChange { program: change.program },
            },
    )
}

/// The note events of a track: for each note in order, its note-on at the start
/// sample followed by its note-off at the end sample.
pub open spec fn spec_note_events(
    song: SongView,
    track: TrackView,
    sample_rate: u32,
) -> Seq<PlaybackEvent> {
    Seq::new(
        (2 * track.note_spans.len()) as nat,
        |i: int|
            {
                let note = track.note_spans[i / 2];
                if i % 2 == 0 {
                    PlaybackEvent {
                        sample_index: spec_sample_index_for_tick(
                            song.ppq,
                            song.tempo_changes,
                            note.start_tick,
                            sample_rate,
                        ),
                        channel: track.channel,
                        kind: PlaybackEventKind::NoteOn { key: note.key, velocity: note.velocity },
                    }
                } else {
                    PlaybackEvent {
                        sample_index: spec_sample_index_for_tick(
                            song.ppq,
                            song.tempo_changes,
                            note.end_tick,
                            sample_rate,
                        ),
                        channel: track.channel,
                        kind: PlaybackEventKind::NoteOff { key: note.key },
                    }
                }
            },
    )
}

/// The events of the first `n` tracks that are audible, track by track, before sorting.
pub open spec fn spec_unsorted_events(
    song: SongView,
    sample_rate: u32,
    solo_track: Option<usize>,
    n: int,
) -> Seq<PlaybackEvent>
    decreases n,
{
    if n <= 0 {
        Seq::empty()
    } else {
        let track = song.tracks[n - 1];
        let before = spec_unsorted_events(song, sample_rate, solo_track, n - 1);
        if spec_is_audible(track, solo_track) {
            before + spec_program_events(song, track, sample_rate) + spec_note_events(
                song,
                track,
                sample_rate,
            )
        } else {
            before
        }
    }
}

impl Song {
    /// The output sample at which `tick` falls, at `sample_rate` samples per second.
    pub fn sample_index_for_tick(&self, tick: u64, sample_rate: u32) -> (sample: usize)
        ensures
            sample == spec_sample_index_for_tick(self.ppq, self.tempo_changes@, tick, sample_rate),
    {
        sample_index_for_tick(self.ppq, self.tempo_changes.as_slice(), tick, sample_rate)
    }

    /// The tick reached at output sample `sample_index`.
    pub fn tick_for_sample(&self, sample_index: usize, sample_rate: u32) -> (tick: u64)
        ensures
            tick == spec_tick_for_sample(self.ppq, self.tempo_changes@, sample_index, sample_rate),
    {
        tick_for_sample(self.ppq, self.tempo_changes.as_slice(), sample_index, sample_rate)
    }

    /// The playback timeline of the audible tracks: every program change (with the
    /// track's default program at tick 0 when no change lies there) and a note-on and
    /// note-off per note, stably sorted by sample, then kind (program change, note-off,
    /// note-on), channel and key.
    pub fn playback_data(&self, sample_rate: u32, solo_track: Option<usize>) -> (data: PlaybackData)
        ensures
            data.song_length_samples == spec_sample_index_for_tick(
                self.ppq,
                self.tempo_changes@,
                self.total_ticks,
                sample_rate,
            ),
            data.events@ == spec_stable_sort(
                spec_unsorted_events(self@, sample_rate, solo_track, self@.tracks.len() as int),
            ),
            is_stable_sort_of(
                data.events@,
                spec_unsorted_events(self@, sample_rate, solo_track, self@.tracks.len() as int),
            ),
    {
        let mut events: Vec<PlaybackEvent> = Vec::new();
        let ghost song = self@;
        let mut t: usize = 0;
        while t < self.tracks.len()
            invariant
                song == self@,
                t <= self.tracks.len(),
                events@ == spec_unsorted_events(song, sample_rate, solo_track, t as int),
            decreases self.tracks.len() - t,
        {
            let track = &self.tracks[t];
            proof {
                assert(song.tracks[t as int] == track@);
            }
            if track.is_audible(solo_track) {
                self.push_track_events(track, sample_rate, &mut events);
            }
            t = t + 1;
        }
        let sorted = stable_sort_by_key(&events);
        PlaybackData {
            song_length_samples: self.sample_index_for_tick(self.total_ticks, sample_rate),
            events: Arc::new(sorted),
        }
    }

    /// Appends a track's program-change events and then its note events.
    fn push_track_events(&self, track: &TrackModel, sample_rate: u32, events: &mut Vec<PlaybackEvent>)
        ensures
            final(events)@ == old(events)@ + spec_program_events(self@, track@, sample_rate)
                + spec_note_events(self@, track@, sample_rate),
    {
        let ghost start = events@;
        let ghost changes = spec_playback_program_changes(track@);
        let needs_default = track.program_changes.len() == 0
            || track.program_changes[0].tick != 0;
        let ghost offset: int = if needs_default { 1 } else { 0 };
        if needs_default {
            events.push(
                PlaybackEvent {
                    sample_index: self.sample_index_for_tick(0, sample_rate),
                    channel: track.channel,
                    kind: PlaybackEventKind::ProgramChange { program: track.program },
                },
            );
        }
        let mut i: usize = 0;
        while i < track.program_changes.len()
            invariant
                changes == spec_playback_program_changes(track@),
                offset == (if needs_default { 1int } else { 0int }),
                changes.len() == track.program_changes@.len() + offset,
                forall|j: int| 0 <= j < track.program_changes@.len() ==> #[trigger] changes[j + offset] == track.program_changes@[j],
                needs_default ==> changes[0] == (ProgramChangeEvent { tick: 0, program: track.program }),
                i <= track.program_changes.len(),
                events@ == start + spec_program_events(self@, track@, sample_rate).take(i + offset),
            decreases track.program_changes.len() - i,
        {
            let change = track.program_changes[i];
            events.push(
                PlaybackEvent {
                    sample_index: self.sample_index_for_tick(change.tick, sample_rate),
                    channel: track.channel,
                    kind: PlaybackEventKind::ProgramChange { program: change.program },
                },
            );
            proof {
                assert(spec_program_events(self@, track@, sample_rate).take(i + 1 + offset)
                    == spec_program_events(self@, track@, sample_rate).take(i + offset).push(
                    events@.last(),
                ));
            }
            i = i + 1;
        }
        proof {
            assert(spec_program_events(self@, track@, sample_rate).take(i + offset)
                == spec_program_events(self@, track@, sample_rate));
        }
        let ghost after_programs = events@;
        let mut j: usize = 0;
        while j < track.note_spans.len()
            invariant
                j <= track.note_spans.len(),
                events@ == after_programs + spec_note_events(self@, track@, sample_rate).take(
                    2 * j,
                ),
            decreases track.note_spans.len() - j,
        {
            let note = track.note_spans[j];
            events.push(
                PlaybackEvent {
                    sample_index: self.sample_index_for_tick(note.start_tick, sample_rate),
                    channel: track.channel,
                    kind: PlaybackEventKind::NoteOn { key: note.key, velocity: note.velocity },
                },
            );
            events.push(
                PlaybackEvent {
                    sample_index: self.sample_index_for_tick(note.end_tick, sample_rate),
                    channel: track.channel,
                    kind: PlaybackEventKind::NoteOff { key: note.key },
                },
            );
            proof {
                let all = spec_note_events(self@, track@, sample_rate);
                assert(all.take(2 * j + 2) == all.take(2 * j).push(all[2 * j]).push(
                    all[2 * j + 1],
                ));
            }
            j = j + 1;
        }
        proof {
            let all = spec_note_events(self@, track@, sample_rate);
            assert(all.take(2 * j) == all);
        }
    }
}

/// Law: at one sample position the timeline applies program changes first, then
/// note-offs, then note-ons (and, within a kind, lower channels and keys first).
pub proof fn lemma_same_sample_kind_order(events: Seq<PlaybackEvent>, unsorted: Seq<PlaybackEvent>, i: int, j: int)
    requires
        is_stable_sort_of(events, unsorted),
        0 <= i <= j < events.len(),
        events[i].sample_index == events[j].sample_index,
    ensures
        spec_sort_priority(events[i].kind) <= spec_sort_priority(events[j].kind),
        spec_sort_priority(events[i].kind) == spec_sort_priority(events[j].kind)
            ==> events[i].channel <= events[j].channel,
{
    assert(crate::sort::key_le(events[i].spec_key(), events[j].spec_key()));
}

/// Law: every track that is played sets its program at tick 0, whether or not the
/// file has a program change there, and keeps all of its own program changes after it.
pub proof fn lemma_program_set_at_start(track: TrackView)
    ensures
        spec_playback_program_changes(track).len() >= 1,
        spec_playback_program_changes(track)[0].tick == 0,
        spec_playback_program_changes(track).len() == track.program_changes.len() || spec_playback_program_changes(track).len()
            == track.program_changes.len() + 1,
{
}

/// Law: each note of a played track yields one note-on and one note-off, each program
/// change one event: a track contributes exactly that many events.
pub proof fn lemma_track_event_count(song: SongView, track: TrackView, sample_rate: u32)
    ensures
        spec_program_events(song, track, sample_rate).len() == spec_playback_program_changes(track).len(),
        spec_note_events(song, track, sample_rate).len() == 2 * track.note_spans.len(),
{
}

/// Law: a track with a name of its own is shown under that name; only a track without
/// one is shown under its instrument's name.
pub proof fn lemma_display_name_prefers_own_name(track: TrackView)
    ensures
        track.name.len() > 0 ==> spec_display_name(track) == track.name,
        track.name.len() == 0 ==> spec_display_name(track) == track.instrument_name,
{
}

/// The note-on that starts `note` of `track` in the timeline of `song`.
pub open spec fn note_on_of(song: SongView, track: TrackView, note: NoteSpan, sample_rate: u32) -> PlaybackEvent {
    PlaybackEvent {
        sample_index: spec_sample_index_for_tick(song.ppq, song.tempo_changes, note.start_tick, sample_rate),
        channel: track.channel,
        kind: PlaybackEventKind::NoteOn { key: note.key, velocity: note.velocity },
    }
}

/// The note-off that ends `note` of `track` in the timeline of `song`.
pub open spec fn note_off_of(song: SongView, track: TrackView, note: NoteSpan, sample_rate: u32) -> PlaybackEvent {
    PlaybackEvent {
        sample_index: spec_sample_index_for_tick(song.ppq, song.tempo_changes, note.end_tick, sample_rate),
        channel: track.channel,
        kind: PlaybackEventKind::NoteOff { key: note.key },
    }
}

proof fn lemma_unsorted_grows(
    song: SongView,
    sample_rate: u32,
    solo_track: Option<usize>,
    a: int,
    b: int,
    x: PlaybackEvent,
)
    requires
        0 <= a <= b,
        spec_unsorted_events(song, sample_rate, solo_track, a).contains(x),
    ensures
        spec_unsorted_events(song, sample_rate, solo_track, b).contains(x),
    decreases b - a,
{
    if a < b {
        lemma_unsorted_grows(song, sample_rate, solo_track, a, b - 1, x);
        let before = spec_unsorted_events(song, sample_rate, solo_track, b - 1);
        let i = choose|i: int| 0 <= i < before.len() && before[i] == x;
        let track = song.tracks[b - 1];
        if spec_is_audible(track, solo_track) {
            let after = spec_unsorted_events(song, sample_rate, solo_track, b);
            assert(after[i] == x);
        }
    }
}

proof fn lemma_unsorted_note_on_source(
    song: SongView,
    sample_rate: u32,
    solo_track: Option<usize>,
    m: int,
    x: PlaybackEvent,
)
    requires
        0 <= m <= song.tracks.len(),
        spec_unsorted_events(song, sample_rate, solo_track, m).contains(x),
        x.kind is NoteOn,
    ensures
        exists|t: int, n: int|
            0 <= t < m && spec_is_audible(song.tracks[t], solo_track) && 0 <= n
                < song.tracks[t].note_spans.len() && x == #[trigger] note_on_of(
                song,
                song.tracks[t],
                song.tracks[t].note_spans[n],
                sample_rate,
            ),
    decreases m,
{
    let all = spec_unsorted_events(song, sample_rate, solo_track, m);
    let i = choose|i: int| 0 <= i < all.len() && all[i] == x;
    if m > 0 {
        let before = spec_unsorted_events(song, sample_rate, solo_track, m - 1);
        let track = song.tracks[m - 1];
        if spec_is_audible(track, solo_track) && i >= before.len() {
            let prog = spec_program_events(song, track, sample_rate);
            let notes = spec_note_events(song, track, sample_rate);
            assert(all == before + prog + notes);
            if i < before.len() + prog.len() {
                assert(all[i] == prog[i - before.len()]);
                assert(false);
            } else {
                let j = i - before.len() - prog.len();
                assert(all[i] == notes[j]);
                let n = j / 2;
                assert(j % 2 == 0);
                assert(x == note_on_of(song, track, track.note_spans[n], sample_rate));
            }
        } else {
            assert(before[i] == x);
            lemma_unsorted_note_on_source(song, sample_rate, solo_track, m - 1, x);
        }
    }
}

/// Law: every note of an audible track is played: the timeline holds its note-on, with
/// the note's key and velocity on the track's channel at the note's start sample, and
/// its note-off at its end sample. Conversely every note-on of the timeline starts a
/// note of an audible track, at that note's velocity.
pub proof fn lemma_timeline_plays_each_note(
    song: SongView,
    sample_rate: u32,
    solo_track: Option<usize>,
)
    ensures
        ({
            let timeline = spec_stable_sort(
                spec_unsorted_events(song, sample_rate, solo_track, song.tracks.len() as int),
            );
            &&& forall|t: int, n: int|
                0 <= t < song.tracks.len() && spec_is_audible(song.tracks[t], solo_track) && 0 <= n
                    < song.tracks[t].note_spans.len() ==> {
                    &&& timeline.contains(
                        #[trigger] note_on_of(song, song.tracks[t], song.tracks[t].note_spans[n], sample_rate),
                    )
                    &&& timeline.contains(
                        note_off_of(song, song.tracks[t], song.tracks[t].note_spans[n], sample_rate),
                    )
                }
            &&& forall|x: PlaybackEvent|
                #[trigger] timeline.contains(x) && x.kind is NoteOn ==> exists|t: int, n: int|
                    0 <= t < song.tracks.len() && spec_is_audible(song.tracks[t], solo_track) && 0
                        <= n < song.tracks[t].note_spans.len() && x == #[trigger] note_on_of(
                        song,
                        song.tracks[t],
                        song.tracks[t].note_spans[n],
                        sample_rate,
                    )
        }),
{
    let len = song.tracks.len() as int;
    let unsorted = spec_unsorted_events(song, sample_rate, solo_track, len);
    let timeline = spec_stable_sort(unsorted);
    assert forall|t: int, n: int|
        0 <= t < song.tracks.len() && spec_is_audible(song.tracks[t], solo_track) && 0 <= n
            < song.tracks[t].note_spans.len() implies {
        &&& timeline.contains(
            #[trigger] note_on_of(song, song.tracks[t], song.tracks[t].note_spans[n], sample_rate),
        )
        &&& timeline.contains(
            note_off_of(song, song.tracks[t], song.tracks[t].note_spans[n], sample_rate),
        )
    } by {
        let track = song.tracks[t];
        let note = track.note_spans[n];
        let on = note_on_of(song, track, note, sample_rate);
        let off = note_off_of(song, track, note, sample_rate);
        let before = spec_unsorted_events(song, sample_rate, solo_track, t);
        let prog = spec_program_events(song, track, sample_rate);
        let notes = spec_note_events(song, track, sample_rate);
        let upto = spec_unsorted_events(song, sample_rate, solo_track, t + 1);
        assert(upto == before + prog + notes);
        assert(notes[2 * n] == on);
        assert(notes[2 * n + 1] == off);
        assert(upto[before.len() + prog.len() + 2 * n] == on);
        assert(upto[before.len() + prog.len() + 2 * n + 1] == off);
        lemma_unsorted_grows(song, sample_rate, solo_track, t + 1, len, on);
        lemma_unsorted_grows(song, sample_rate, solo_track, t + 1, len, off);
        crate::sort::lemma_stable_sort_contains(unsorted, on);
        crate::sort::lemma_stable_sort_contains(unsorted, off);
    }
    assert forall|x: PlaybackEvent|
        #[trigger] timeline.contains(x) && x.kind is NoteOn implies exists|t: int, n: int|
            0 <= t < song.tracks.len() && spec_is_audible(song.tracks[t], solo_track) && 0 <= n
                < song.tracks[t].note_spans.len() && x == #[trigger] note_on_of(
                song,
                song.tracks[t],
                song.tracks[t].note_spans[n],
                sample_rate,
            ) by {
        crate::sort::lemma_stable_sort_contains(unsorted, x);
        lemma_unsorted_note_on_source(song, sample_rate, solo_track, len, x);
    }
}

} // verus!
