//! What the editor's panels show of a song: the selected track, a track's key range,
//! the keys sounding at a tick, the transport title, and program selection.
use vstd::prelude::*;
use crate::audio::midi_struct::{
    spec_display_title, spec_is_audible, ProgramChangeEvent, Song, SongView, TrackModel,
    TrackView,
};

verus! {

broadcast use vstd::string::group_string_axioms;

/// Index of the first track numbered `track_index` (the number of tracks when none is).
pub open spec fn first_track_with_index(tracks: Seq<TrackView>, track_index: usize) -> int
    decreases tracks.len(),
{
    if tracks.len() == 0 || tracks[0].track_index == track_index {
        0
    } else {
        1 + first_track_with_index(tracks.drop_first(), track_index)
    }
}

/// The track's lowest and highest keys, or none when it has no notes.
pub open spec fn is_key_range(track: TrackView, range: Option<(u8, u8)>) -> bool {
    let notes = track.note_spans;
    match range {
        None => notes.len() == 0,
        Some((low, high)) => {
            &&& exists|i: int| 0 <= i < notes.len() && #[trigger] notes[i].key == low
            &&& exists|i: int| 0 <= i < notes.len() && #[trigger] notes[i].key == high
            &&& forall|i: int| 0 <= i < notes.len() ==> low <= #[trigger] notes[i].key <= high
        },
    }
}

/// Whether one of the first `n` notes of `track` of `key` sounds at `tick`
/// (started at or before it and ending after it).
pub open spec fn sounds_among(track: TrackView, key: int, tick: u64, n: int) -> bool {
    exists|i: int|
        0 <= i < n && #[trigger] track.note_spans[i].key == key && track.note_spans[i].start_tick
            <= tick < track.note_spans[i].end_tick
}

/// Whether `key` sounds at `tick` in one of the first `n` tracks that are audible.
pub open spec fn sounding_among(
    song: SongView,
    solo_track: Option<usize>,
    key: int,
    tick: u64,
    n: int,
) -> bool {
    exists|t: int|
        0 <= t < n && spec_is_audible(#[trigger] song.tracks[t], solo_track) && sounds_among(
            song.tracks[t],
            key,
            tick,
            song.tracks[t].note_spans.len() as int,
        )
}

/// The title above the transport: a loading notice, else the song's title (or the
/// file's name), else an invitation to open a file.
pub open spec fn spec_transport_title(
    is_loading: bool,
    song: Option<SongView>,
    open_file_name: Seq<char>,
) -> Seq<char> {
    if is_loading {
        "Loading MIDI file..."@
    } else {
        match song {
            Some(s) => match spec_display_title(s.meta) {
                Some(title) => title,
                None => open_file_name,
            },
            None => "Select a MIDI file to play."@,
        }
    }
}

impl TrackModel {
    /// The lowest and highest keys the track plays, or none when it has no notes.
    pub fn key_range(&self) -> (range: Option<(u8, u8)>)
        ensures
            is_key_range(self@, range),
    {
        let notes = &self.note_spans;
        if notes.len() == 0 {
            return None;
        }
        let mut low = notes[0].key;
        let mut high = notes[0].key;
        let mut i: usize = 1;
        while i < notes.len()
            invariant
                1 <= i <= notes@.len(),
                notes@ == self.note_spans@,
                exists|j: int| 0 <= j < i && #[trigger] notes@[j].key == low,
                exists|j: int| 0 <= j < i && #[trigger] notes@[j].key == high,
                forall|j: int| 0 <= j < i ==> low <= #[trigger] notes@[j].key <= high,
            decreases notes.len() - i,
        {
            let key = notes[i].key;
            if key < low {
                low = key;
            }
            if key > high {
                high = key;
            }
            i = i + 1;
        }
        proof {
            let a = choose|j: int| 0 <= j < i && #[trigger] notes@[j].key == low;
            let b = choose|j: int| 0 <= j < i && #[trigger] notes@[j].key == high;
            assert(self@.note_spans[a].key == low);
            assert(self@.note_spans[b].key == high);
        }
        Some((low, high))
    }

    /// Makes `program` the track's instrument from the start: its program, its
    /// instrument name, and a single program change at tick 0.
    pub fn select_program(&mut self, program: u8, instrument_name: String)
        ensures
            final(self)@ == (TrackView {
                program,
                instrument_name: instrument_name@,
                program_changes: seq![ProgramChangeEvent { tick: 0, program }],
                ..old(self)@
            }),
    {
        self.program = program;
        self.instrument_name = instrument_name;
        let mut changes = Vec::new();
        changes.push(ProgramChangeEvent { tick: 0, program });
        self.program_changes = changes;
    }
}

impl Song {
    /// The first track numbered `track_index`, if any.
    pub fn find_track(&self, track_index: usize) -> (track: Option<&TrackModel>)
        ensures
            ({
                let i = first_track_with_index(self@.tracks, track_index);
                match track {
                    Some(t) => i < self@.tracks.len() && t@ == self@.tracks[i],
                    None => i == self@.tracks.len(),
                }
            }),
    {
        let ghost tracks = self@.tracks;
        let n = self.tracks.len();
        let mut i: usize = 0;
        proof {
            assert(tracks.skip(0) == tracks);
        }
        while i < n && self.tracks[i].track_index != track_index
            invariant
                n == self.tracks@.len(),
                tracks == self@.tracks,
                i <= n,
                first_track_with_index(tracks, track_index) == i + first_track_with_index(
                    tracks.skip(i as int),
                    track_index,
                ),
            decreases n - i,
        {
            proof {
                assert(tracks[i as int] == self.tracks@[i as int]@);
                assert(tracks.skip(i as int).drop_first() == tracks.skip(i + 1));
            }
            i = i + 1;
        }
        proof {
            assert(tracks.skip(i as int).len() == n - i);
            if i < n {
                assert(tracks.skip(i as int)[0] == tracks[i as int]);
                assert(tracks[i as int] == self.tracks@[i as int]@);
            }
        }
        if i < n {
            Some(&self.tracks[i])
        } else {
            None
        }
    }

    /// For each key value (0 to 255), whether a note of that key sounds at `tick` in a
    /// track that is audible with the given solo selection.
    pub fn sounding_keys(&self, tick: u64, solo_track: Option<usize>) -> (keys: Vec<bool>)
        ensures
            keys@.len() == 256,
            forall|k: int|
                0 <= k < 256 ==> #[trigger] keys@[k] == sounding_among(
                    self@,
                    solo_track,
                    k,
                    tick,
                    self@.tracks.len() as int,
                ),
    {
        let ghost song = self@;
        let mut keys: Vec<bool> = Vec::new();
        let mut k: usize = 0;
        while k < 256
            invariant
                k <= 256,
                keys@.len() == k,
                forall|j: int| 0 <= j < k ==> !#[trigger] keys@[j],
            decreases 256 - k,
        {
            keys.push(false);
            k = k + 1;
        }
        let mut t: usize = 0;
        while t < self.tracks.len()
            invariant
                song == self@,
                t <= self.tracks.len(),
                keys@.len() == 256,
                forall|j: int|
                    0 <= j < 256 ==> #[trigger] keys@[j] == sounding_among(
                        song,
                        solo_track,
                        j,
                        tick,
                        t as int,
                    ),
            decreases self.tracks.len() - t,
        {
            let track = &self.tracks[t];
            proof {
                assert(song.tracks[t as int] == track@);
            }
            if track.is_audible(solo_track) {
                let ghost before = keys@;
                let mut n: usize = 0;
                while n < track.note_spans.len()
                    invariant
                        song == self@,
                        song.tracks[t as int] == track@,
                        spec_is_audible(track@, solo_track),
                        t < self.tracks.len(),
                        n <= track.note_spans.len(),
                        keys@.len() == 256,
                        forall|j: int|
                            0 <= j < 256 ==> #[trigger] keys@[j] == (before[j] || sounds_among(
                                track@,
                                j,
                                tick,
                                n as int,
                            )),
                    decreases track.note_spans.len() - n,
                {
                    let note = track.note_spans[n];
                    if note.start_tick <= tick && tick < note.end_tick {
                        keys.set(note.key as usize, true);
                    }
                    proof {
                        assert forall|j: int| 0 <= j < 256 implies #[trigger] keys@[j] == (before[j]
                            || sounds_among(track@, j, tick, n + 1)) by {
                            if sounds_among(track@, j, tick, n + 1) && !sounds_among(
                                track@,
                                j,
                                tick,
                                n as int,
                            ) {
                                let w = choose|i: int|
                                    0 <= i < n + 1 && #[trigger] track@.note_spans[i].key == j
                                        && track@.note_spans[i].start_tick <= tick
                                        < track@.note_spans[i].end_tick;
                                assert(w == n);
                            }
                            if j == note.key && note.start_tick <= tick && tick < note.end_tick {
                                assert(track@.note_spans[n as int].key == j);
                            }
                        }
                    }
                    n = n + 1;
                }
                proof {
                    assert forall|j: int| 0 <= j < 256 implies #[trigger] keys@[j]
                        == sounding_among(song, solo_track, j, tick, t + 1) by {
                        if sounding_among(song, solo_track, j, tick, t + 1) && !sounding_among(
                            song,
                            solo_track,
                            j,
                            tick,
                            t as int,
                        ) {
                            let w = choose|u: int|
                                0 <= u < t + 1 && spec_is_audible(#[trigger] song.tracks[u], solo_track)
                                    && sounds_among(
                                    song.tracks[u],
                                    j,
                                    tick,
                                    song.tracks[u].note_spans.len() as int,
                                );
                            assert(w == t);
                        }
                        if sounds_among(track@, j, tick, track@.note_spans.len() as int) {
                            assert(spec_is_audible(song.tracks[t as int], solo_track));
                        }
                    }
                }
            } else {
                proof {
                    assert forall|j: int| 0 <= j < 256 implies #[trigger] keys@[j]
                        == sounding_among(song, solo_track, j, tick, t + 1) by {
                        if sounding_among(song, solo_track, j, tick, t + 1) {
                            let w = choose|u: int|
                                0 <= u < t + 1 && spec_is_audible(#[trigger] song.tracks[u], solo_track)
                                    && sounds_among(
                                    song.tracks[u],
                                    j,
                                    tick,
                                    song.tracks[u].note_spans.len() as int,
                                );
                            assert(w != t);
                        }
                    }
                }
            }
            t = t + 1;
        }
        keys
    }
}

/// The title shown above the transport controls.
pub fn transport_title(is_loading: bool, song: Option<&Song>, open_file_name: &str) -> (title: String)
    ensures
        title@ == spec_transport_title(
            is_loading,
            match song {
                Some(s) => Some(s@),
                None => None,
            },
            open_file_name@,
        ),
{
    if is_loading {
        "Loading MIDI file...".to_string()
    } else {
        match song {
            Some(s) => match s.display_title() {
                Some(title) => title.to_string(),
                None => open_file_name.to_string(),
            },
            None => "Select a MIDI file to play.".to_string(),
        }
    }
}

} // verus!
