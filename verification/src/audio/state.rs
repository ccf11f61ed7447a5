//! The playback state shared between the user interface and the audio callback.
use vstd::prelude::*;
use std::sync::Arc;
use crate::audio::midi_struct::{PlaybackData, PlaybackEvent};
use crate::sort::is_stable_sort_of;

verus! {

/// Events lie in order of their sample positions.
pub open spec fn sorted_by_sample(events: Seq<PlaybackEvent>) -> bool {
    forall|i: int, j: int|
        0 <= i <= j < events.len() ==> #[trigger] events[i].sample_index
            <= #[trigger] events[j].sample_index
}

/// The events before `sample_index` form a prefix, those at or after it the rest.
pub open spec fn partitioned_at(events: Seq<PlaybackEvent>, sample_index: usize) -> bool {
    forall|i: int, j: int|
        0 <= i <= j < events.len() && #[trigger] events[j].sample_index < sample_index
            ==> #[trigger] events[i].sample_index < sample_index
}

/// For events partitioned at `sample_index`: `cursor` is the number of events before it.
pub open spec fn is_event_cursor(events: Seq<PlaybackEvent>, sample_index: usize, cursor: int) -> bool {
    &&& 0 <= cursor <= events.len()
    &&& partitioned_at(events, sample_index) ==> {
        &&& forall|i: int| 0 <= i < cursor ==> #[trigger] events[i].sample_index < sample_index
        &&& forall|i: int| cursor <= i < events.len() ==> #[trigger] events[i].sample_index
            >= sample_index
    }
}

/// The revision after a change: one more, wrapping around after `u64::MAX`.
pub open spec fn next_revision(revision: u64) -> u64 {
    if revision == u64::MAX {
        0
    } else {
        (revision + 1) as u64
    }
}

/// Playback state: whether and how it plays, the cursors into the timeline, the
/// timeline itself, whether the synthesizer must be rebuilt, and a revision that
/// every change bumps.
#[derive(Debug)]
pub struct SharedAudioState {
    pub is_playing: bool,
    pub repeat_enabled: bool,
    pub playback_cursor_samples: usize,
    pub song_length_samples: usize,
    pub event_cursor: usize,
    pub playback_events: Arc<Vec<PlaybackEvent>>,
    pub pending_reset: bool,
    pub revision: u64,
}

impl Default for SharedAudioState {
    fn default() -> (state: Self)
        ensures
            !state.is_playing,
            !state.repeat_enabled,
            state.playback_cursor_samples == 0,
            state.song_length_samples == 0,
            state.event_cursor == 0,
            state.playback_events@ == Seq::<PlaybackEvent>::empty(),
            !state.pending_reset,
            state.revision == 0,
    {
        SharedAudioState {
            is_playing: false,
            repeat_enabled: false,
            playback_cursor_samples: 0,
            song_length_samples: 0,
            event_cursor: 0,
            playback_events: Arc::new(Vec::new()),
            pending_reset: false,
            revision: 0,
        }
    }
}

impl SharedAudioState {
    /// Number of events before `sample_index`: where playback from that sample
    /// resumes in the timeline (which is kept sorted by sample).
    pub fn find_event_cursor(&self, sample_index: usize) -> (cursor: usize)
        ensures
            is_event_cursor(self.playback_events@, sample_index, cursor as int),
    {
        let events: &Vec<PlaybackEvent> = &self.playback_events;
        let mut lo: usize = 0;
        let mut hi: usize = events.len();
        while lo < hi
            invariant
                0 <= lo <= hi <= events@.len(),
                events@ == self.playback_events@,
                partitioned_at(events@, sample_index) ==> {
                    &&& forall|i: int| 0 <= i < lo ==> #[trigger] events@[i].sample_index
                        < sample_index
                    &&& forall|i: int| hi <= i < events@.len() ==> #[trigger] events@[i].sample_index
                        >= sample_index
                },
            decreases hi - lo,
        {
            let mid = lo + (hi - lo) / 2;
            if events[mid].sample_index < sample_index {
                lo = mid + 1;
            } else {
                hi = mid;
            }
        }
        lo
    }

    /// Installs a new timeline: the cursor goes back to the start when asked, or
    /// otherwise stays (within the new length); the event cursor follows it, the
    /// synthesizer is to be rebuilt, and the revision moves on.
    pub fn set_playback_data(&mut self, playback_data: PlaybackData, reset_cursor: bool)
        ensures
            final(self).playback_events@ == playback_data.events@,
            final(self).song_length_samples == playback_data.song_length_samples,
            final(self).playback_cursor_samples == if reset_cursor {
                0
            } else if old(self).playback_cursor_samples <= playback_data.song_length_samples {
                old(self).playback_cursor_samples
            } else {
                playback_data.song_length_samples
            },
            is_event_cursor(
                final(self).playback_events@,
                final(self).playback_cursor_samples,
                final(self).event_cursor as int,
            ),
            final(self).pending_reset,
            final(self).revision == next_revision(old(self).revision),
            final(self).is_playing == old(self).is_playing,
            final(self).repeat_enabled == old(self).repeat_enabled,
    {
        self.playback_events = playback_data.events;
        self.song_length_samples = playback_data.song_length_samples;
        if reset_cursor {
            self.playback_cursor_samples = 0;
        } else if self.playback_cursor_samples > self.song_length_samples {
            self.playback_cursor_samples = self.song_length_samples;
        }
        self.event_cursor = self.find_event_cursor(self.playback_cursor_samples);
        self.pending_reset = true;
        self.revision = self.revision.wrapping_add(1);
    }

    /// Stops and empties playback entirely, as when the song is closed.
    pub fn clear_playback(&mut self)
        ensures
            !final(self).is_playing,
            !final(self).repeat_enabled,
            final(self).playback_cursor_samples == 0,
            final(self).song_length_samples == 0,
            final(self).event_cursor == 0,
            final(self).playback_events@ == Seq::<PlaybackEvent>::empty(),
            final(self).pending_reset,
            final(self).revision == next_revision(old(self).revision),
    {
        self.is_playing = false;
        self.repeat_enabled = false;
        self.playback_cursor_samples = 0;
        self.song_length_samples = 0;
        self.event_cursor = 0;
        self.playback_events = Arc::new(Vec::new());
        self.pending_reset = true;
        self.revision = self.revision.wrapping_add(1);
    }

    /// Switches repeat on or off; the revision moves on so the audio side notices.
    pub fn set_repeat_enabled(&mut self, enabled: bool)
        ensures
            final(self).repeat_enabled == enabled,
            final(self).revision == next_revision(old(self).revision),
            final(self).is_playing == old(self).is_playing,
            final(self).playback_cursor_samples == old(self).playback_cursor_samples,
            final(self).song_length_samples == old(self).song_length_samples,
            final(self).event_cursor == old(self).event_cursor,
            final(self).playback_events@ == old(self).playback_events@,
            final(self).pending_reset == old(self).pending_reset,
    {
        self.repeat_enabled = enabled;
        self.revision = self.revision.wrapping_add(1);
    }

    /// Starts or pauses playback. A change re-aligns the event cursor with the sample
    /// cursor and asks for the synthesizer to be rebuilt; asking for the current
    /// state changes nothing.
    pub fn set_playing(&mut self, is_playing: bool)
        ensures
            old(self).is_playing == is_playing ==> {
                &&& final(self).revision == old(self).revision
                &&& final(self).event_cursor == old(self).event_cursor
                &&& final(self).pending_reset == old(self).pending_reset
            },
            old(self).is_playing != is_playing ==> {
                &&& final(self).revision == next_revision(old(self).revision)
                &&& is_event_cursor(
                    final(self).playback_events@,
                    final(self).playback_cursor_samples,
                    final(self).event_cursor as int,
                )
                &&& final(self).pending_reset
            },
            final(self).is_playing == is_playing,
            final(self).repeat_enabled == old(self).repeat_enabled,
            final(self).playback_cursor_samples == old(self).playback_cursor_samples,
            final(self).song_length_samples == old(self).song_length_samples,
            final(self).playback_events@ == old(self).playback_events@,
    {
        if self.is_playing == is_playing {
            return;
        }
        self.is_playing = is_playing;
        self.event_cursor = self.find_event_cursor(self.playback_cursor_samples);
        self.pending_reset = true;
        self.revision = self.revision.wrapping_add(1);
    }

    /// Moves the sample cursor to `sample_index` (at most the song's length) and the
    /// event cursor with it; the synthesizer is to be rebuilt.
    pub fn seek_samples(&mut self, sample_index: usize)
        ensures
            final(self).playback_cursor_samples == if sample_index
                <= old(self).song_length_samples {
                sample_index
            } else {
                old(self).song_length_samples
            },
            is_event_cursor(
                final(self).playback_events@,
                final(self).playback_cursor_samples,
                final(self).event_cursor as int,
            ),
            final(self).pending_reset,
            final(self).revision == next_revision(old(self).revision),
            final(self).is_playing == old(self).is_playing,
            final(self).repeat_enabled == old(self).repeat_enabled,
            final(self).song_length_samples == old(self).song_length_samples,
            final(self).playback_events@ == old(self).playback_events@,
    {
        self.playback_cursor_samples = if sample_index <= self.song_length_samples {
            sample_index
        } else {
            self.song_length_samples
        };
        self.event_cursor = self.find_event_cursor(self.playback_cursor_samples);
        self.pending_reset = true;
        self.revision = self.revision.wrapping_add(1);
    }

    /// Starts playback at the cursor; a cursor at or past the song's end first goes
    /// back to the start, so that playing a finished song plays it again.
    pub fn play(&mut self)
        ensures
            ({
                let rewound = old(self).playback_cursor_samples >= old(self).song_length_samples;
                &&& final(self).is_playing
                &&& final(self).playback_cursor_samples == if rewound {
                    0
                } else {
                    old(self).playback_cursor_samples
                }
                &&& final(self).revision == if rewound && !old(self).is_playing {
                    next_revision(next_revision(old(self).revision))
                } else if rewound || !old(self).is_playing {
                    next_revision(old(self).revision)
                } else {
                    old(self).revision
                }
                &&& rewound || !old(self).is_playing ==> {
                    &&& is_event_cursor(
                        final(self).playback_events@,
                        final(self).playback_cursor_samples,
                        final(self).event_cursor as int,
                    )
                    &&& final(self).pending_reset
                }
                &&& !rewound && old(self).is_playing ==> {
                    &&& final(self).event_cursor == old(self).event_cursor
                    &&& final(self).pending_reset == old(self).pending_reset
                }
            }),
            final(self).repeat_enabled == old(self).repeat_enabled,
            final(self).song_length_samples == old(self).song_length_samples,
            final(self).playback_events@ == old(self).playback_events@,
    {
        if self.playback_cursor_samples >= self.song_length_samples {
            self.seek_samples(0);
        }
        self.set_playing(true);
    }

    /// Stops playback and rewinds to the start of the song.
    pub fn stop(&mut self)
        ensures
            !final(self).is_playing,
            final(self).playback_cursor_samples == 0,
            is_event_cursor(final(self).playback_events@, 0, final(self).event_cursor as int),
            final(self).pending_reset,
            final(self).revision == if old(self).is_playing {
                next_revision(next_revision(old(self).revision))
            } else {
                next_revision(old(self).revision)
            },
            final(self).repeat_enabled == old(self).repeat_enabled,
            final(self).song_length_samples == old(self).song_length_samples,
            final(self).playback_events@ == old(self).playback_events@,
    {
        self.set_playing(false);
        self.seek_samples(0);
    }
}

/// Law: a timeline sorted by sample is partitioned at every sample, so the event
/// cursor found for any sample is exactly the number of events before it.
pub proof fn lemma_sorted_is_partitioned(events: Seq<PlaybackEvent>, sample_index: usize)
    requires
        sorted_by_sample(events),
    ensures
        partitioned_at(events, sample_index),
{
    assert forall|i: int, j: int|
        0 <= i <= j < events.len() && #[trigger] events[j].sample_index
            < sample_index implies #[trigger] events[i].sample_index < sample_index by {
        assert(events[i].sample_index <= events[j].sample_index);
    }
}

/// Law: the event cursor of a partitioned timeline is unique: the number of events
/// before the sample.
pub proof fn lemma_event_cursor_unique(
    events: Seq<PlaybackEvent>,
    sample_index: usize,
    a: int,
    b: int,
)
    requires
        partitioned_at(events, sample_index),
        is_event_cursor(events, sample_index, a),
        is_event_cursor(events, sample_index, b),
    ensures
        a == b,
{
    if a < b {
        assert(events[a].sample_index < sample_index);
    } else if b < a {
        assert(events[b].sample_index < sample_index);
    }
}

/// Law: the timeline that `Song::playback_data` builds (a stable sort by sample
/// first) is sorted by sample, so seeking in it finds exact event cursors.
pub proof fn lemma_playback_timeline_sorted(events: Seq<PlaybackEvent>, unsorted: Seq<PlaybackEvent>)
    requires
        is_stable_sort_of(events, unsorted),
    ensures
        sorted_by_sample(events),
{
    assert forall|i: int, j: int| 0 <= i <= j < events.len() implies #[trigger] events[i].sample_index
        <= #[trigger] events[j].sample_index by {
        assert(crate::sort::key_le(
            crate::sort::Keyed::spec_key(&events[i]),
            crate::sort::Keyed::spec_key(&events[j]),
        ));
    }
}

/// Law: after a seek to the start of a sorted timeline, playback resumes at its first
/// event.
pub proof fn lemma_seek_to_start(events: Seq<PlaybackEvent>, cursor: int)
    requires
        is_event_cursor(events, 0, cursor),
    ensures
        cursor == 0,
{
    if cursor > 0 {
        assert(partitioned_at(events, 0));
        assert(events[0].sample_index < 0);
    }
}

} // verus!
