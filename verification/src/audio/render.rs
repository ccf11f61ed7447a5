//! The decisions of the audio callback for one output block: what to do with the
//! synthesizer, which events to play and how the shared state moves on.
use vstd::prelude::*;
use std::sync::Arc;
use crate::audio::midi_struct::PlaybackEvent;
use crate::audio::state::SharedAudioState;

verus! {

/// The playback state as read at the start of a block.
pub struct AudioSnapshot {
    pub is_playing: bool,
    pub repeat_enabled: bool,
    pub playback_cursor_samples: usize,
    pub song_length_samples: usize,
    pub event_cursor: usize,
    pub playback_events: Arc<Vec<PlaybackEvent>>,
    pub pending_reset: bool,
    pub revision: u64,
}

/// How the shared state is updated after a block, provided nothing changed it meanwhile.
#[derive(Clone, Copy, Debug, PartialEq, Eq)]
pub enum BlockCommit {
    /// Only the rebuild request is settled.
    SettleReset,
    /// The cursors advance and playing continues or stops (a stop asks for a rebuild).
    Advance { playback_cursor_samples: usize, event_cursor: usize, still_playing: bool },
}

/// What the audio callback does for one block, in this order: rebuild the synthesizer
/// and replay the first `prime_count` events (when `prime_count` is some); output
/// silence, or else reset the synthesizer first when `reset_before`, play the events
/// `apply_start..apply_end`, render, and reset the synthesizer when `reset_after`;
/// finally commit.
#[derive(Clone, Copy, Debug, PartialEq, Eq)]
pub struct RenderPlan {
    pub prime_count: Option<usize>,
    pub silence: bool,
    pub reset_before: bool,
    pub apply_start: usize,
    pub apply_end: usize,
    pub reset_after: bool,
    pub commit: BlockCommit,
}

/// `a + b`, or `usize::MAX` when that is larger.
pub open spec fn saturating_add_usize(a: usize, b: usize) -> usize {
    if a + b > usize::MAX {
        usize::MAX
    } else {
        (a + b) as usize
    }
}

/// The first index from `i` on whose event lies at or after sample `until` (or the
/// number of events).
pub open spec fn events_before(events: Seq<PlaybackEvent>, i: int, until: usize) -> int
    decreases events.len() - i,
{
    if i >= events.len() || events[i].sample_index >= until {
        i
    } else {
        events_before(events, i + 1, until)
    }
}

/// The plan for a block of `frame_count` frames.
///
/// A pending rebuild replays the events before the event cursor. Without anything to
/// play (paused, empty song or timeline) the block is silent and only the rebuild is
/// settled. A cursor at or past the end wraps to the start when repeating (resetting
/// the synthesizer), and otherwise gives a silent block that stops playback. Else the
/// events before the block's end are played, the block is rendered and the cursor
/// advances; reaching the end wraps (resetting) when repeating and stops otherwise.
pub open spec fn spec_render_plan(
    is_playing: bool,
    repeat_enabled: bool,
    cursor: usize,
    song_length: usize,
    event_cursor: usize,
    events: Seq<PlaybackEvent>,
    pending_reset: bool,
    frame_count: usize,
) -> RenderPlan {
    let prime_count = if pending_reset {
        Some(
            if event_cursor <= events.len() {
                event_cursor
            } else {
                events.len() as usize
            },
        )
    } else {
        None
    };
    if !is_playing || song_length == 0 || events.len() == 0 {
        RenderPlan {
            prime_count,
            silence: true,
            reset_before: false,
            apply_start: event_cursor,
            apply_end: event_cursor,
            reset_after: false,
            commit: BlockCommit::SettleReset,
        }
    } else if cursor >= song_length && !repeat_enabled {
        RenderPlan {
            prime_count,
            silence: true,
            reset_before: false,
            apply_start: event_cursor,
            apply_end: event_cursor,
            reset_after: false,
            commit: BlockCommit::Advance {
                playback_cursor_samples: cursor,
                event_cursor,
                still_playing: false,
            },
        }
    } else {
        let wrapped = cursor >= song_length;
        let start_cursor: usize = if wrapped {
            0
        } else {
            cursor
        };
        let start_event: usize = if wrapped {
            0
        } else {
            event_cursor
        };
        let next = saturating_add_usize(start_cursor, frame_count);
        let end_event = events_before(events, start_event as int, next) as usize;
        let at_end = next >= song_length;
        RenderPlan {
            prime_count,
            silence: false,
            reset_before: wrapped,
            apply_start: start_event,
            apply_end: end_event,
            reset_after: at_end && repeat_enabled,
            commit: if at_end && repeat_enabled {
                BlockCommit::Advance {
                    playback_cursor_samples: 0,
                    event_cursor: 0,
                    still_playing: true,
                }
            } else {
                BlockCommit::Advance {
                    playback_cursor_samples: next,
                    event_cursor: end_event,
                    still_playing: !at_end,
                }
            },
        }
    }
}

proof fn lemma_events_before_bounds(events: Seq<PlaybackEvent>, i: int, until: usize)
    requires
        0 <= i,
    ensures
        i <= events_before(events, i, until),
        i <= events.len() ==> events_before(events, i, until) <= events.len(),
    decreases events.len() - i,
{
    if !(i >= events.len() || events[i].sample_index >= until) {
        lemma_events_before_bounds(events, i + 1, until);
    }
}

/// Plans the work of the audio callback for one block of `frame_count` frames.
pub fn plan_render_block(snapshot: &AudioSnapshot, frame_count: usize) -> (plan: RenderPlan)
    ensures
        plan == spec_render_plan(
            snapshot.is_playing,
            snapshot.repeat_enabled,
            snapshot.playback_cursor_samples,
            snapshot.song_length_samples,
            snapshot.event_cursor,
            snapshot.playback_events@,
            snapshot.pending_reset,
            frame_count,
        ),
{
    let events: &Vec<PlaybackEvent> = &snapshot.playback_events;
    let n = events.len();
    let prime_count = if snapshot.pending_reset {
        Some(
            if snapshot.event_cursor <= n {
                snapshot.event_cursor
            } else {
                n
            },
        )
    } else {
        None
    };
    if !snapshot.is_playing || snapshot.song_length_samples == 0 || n == 0 {
        return RenderPlan {
            prime_count,
            silence: true,
            reset_before: false,
            apply_start: snapshot.event_cursor,
            apply_end: snapshot.event_cursor,
            reset_after: false,
            commit: BlockCommit::SettleReset,
        };
    }
    let song_length = snapshot.song_length_samples;
    if snapshot.playback_cursor_samples >= song_length && !snapshot.repeat_enabled {
        return RenderPlan {
            prime_count,
            silence: true,
            reset_before: false,
            apply_start: snapshot.event_cursor,
            apply_end: snapshot.event_cursor,
            reset_after: false,
            commit: BlockCommit::Advance {
                playback_cursor_samples: snapshot.playback_cursor_samples,
                event_cursor: snapshot.event_cursor,
                still_playing: false,
            },
        };
    }
    let wrapped = snapshot.playback_cursor_samples >= song_length;
    let start_cursor: usize = if wrapped {
        0
    } else {
        snapshot.playback_cursor_samples
    };
    let start_event: usize = if wrapped {
        0
    } else {
        snapshot.event_cursor
    };
    let next = start_cursor.saturating_add(frame_count);
    let mut end_event = start_event;
    while end_event < n && events[end_event].sample_index < next
        invariant
            n == events@.len(),
            start_event <= end_event,
            events_before(events@, start_event as int, next) == events_before(
                events@,
                end_event as int,
                next,
            ),
        decreases n - end_event,
    {
        end_event = end_event + 1;
    }
    proof {
        lemma_events_before_bounds(events@, start_event as int, next);
    }
    let at_end = next >= song_length;
    let repeat = snapshot.repeat_enabled;
    RenderPlan {
        prime_count,
        silence: false,
        reset_before: wrapped,
        apply_start: start_event,
        apply_end: end_event,
        reset_after: at_end && repeat,
        commit: if at_end && repeat {
            BlockCommit::Advance { playback_cursor_samples: 0, event_cursor: 0, still_playing: true }
        } else {
            BlockCommit::Advance {
                playback_cursor_samples: next,
                event_cursor: end_event,
                still_playing: !at_end,
            }
        },
    }
}

impl SharedAudioState {
    /// Records the outcome of a block planned from the state at `revision`; when the
    /// state changed meanwhile (another revision) the outcome is dropped.
    pub fn commit_render_block(&mut self, revision: u64, commit: BlockCommit)
        ensures
            old(self).revision != revision ==> final(self).is_playing == old(self).is_playing
                && final(self).playback_cursor_samples == old(self).playback_cursor_samples
                && final(self).event_cursor == old(self).event_cursor
                && final(self).pending_reset == old(self).pending_reset,
            old(self).revision == revision ==> match commit {
                BlockCommit::SettleReset => !final(self).pending_reset && final(self).is_playing
                    == old(self).is_playing && final(self).playback_cursor_samples == old(
                    self,
                ).playback_cursor_samples && final(self).event_cursor == old(self).event_cursor,
                BlockCommit::Advance { playback_cursor_samples, event_cursor, still_playing } => {
                    &&& final(self).playback_cursor_samples == playback_cursor_samples
                    &&& final(self).event_cursor == event_cursor
                    &&& final(self).is_playing == still_playing
                    &&& final(self).pending_reset == !still_playing
                },
            },
            final(self).revision == old(self).revision,
            final(self).repeat_enabled == old(self).repeat_enabled,
            final(self).song_length_samples == old(self).song_length_samples,
            final(self).playback_events@ == old(self).playback_events@,
    {
        if self.revision != revision {
            return;
        }
        match commit {
            BlockCommit::SettleReset => {
                self.pending_reset = false;
            },
            BlockCommit::Advance { playback_cursor_samples, event_cursor, still_playing } => {
                self.playback_cursor_samples = playback_cursor_samples;
                self.event_cursor = event_cursor;
                self.is_playing = still_playing;
                self.pending_reset = !still_playing;
            },
        }
    }
}

/// Law: a block plays only events of the timeline, in order, each lying before the
/// block's end sample, and leaves the event cursor where it stopped; the events it
/// skips over are exactly those it plays.
pub proof fn lemma_block_plays_events_in_range(
    is_playing: bool,
    repeat_enabled: bool,
    cursor: usize,
    song_length: usize,
    event_cursor: usize,
    events: Seq<PlaybackEvent>,
    pending_reset: bool,
    frame_count: usize,
)
    requires
        event_cursor <= events.len() <= usize::MAX,
    ensures
        ({
            let plan = spec_render_plan(
                is_playing,
                repeat_enabled,
                cursor,
                song_length,
                event_cursor,
                events,
                pending_reset,
                frame_count,
            );
            &&& plan.apply_start <= plan.apply_end <= events.len()
            &&& !plan.silence ==> forall|i: int|
                plan.apply_start <= i < plan.apply_end ==> #[trigger] events[i].sample_index
                    < saturating_add_usize(
                    if plan.reset_before {
                        0
                    } else {
                        cursor
                    },
                    frame_count,
                )
            &&& (!plan.silence && !plan.reset_after) ==> (plan.commit matches BlockCommit::Advance {
                event_cursor: e,
                ..
            } && e == plan.apply_end)
        }),
{
    let wrapped = cursor >= song_length;
    let start_event: int = if wrapped {
        0
    } else {
        event_cursor as int
    };
    let start_cursor: usize = if wrapped {
        0
    } else {
        cursor
    };
    let next = saturating_add_usize(start_cursor, frame_count);
    lemma_events_before_bounds(events, start_event, next);
    lemma_events_before_range(events, start_event, next);
}

proof fn lemma_events_before_range(events: Seq<PlaybackEvent>, i: int, until: usize)
    requires
        0 <= i,
    ensures
        forall|j: int| i <= j < events_before(events, i, until) ==> #[trigger] events[j].sample_index
            < until,
    decreases events.len() - i,
{
    if !(i >= events.len() || events[i].sample_index >= until) {
        lemma_events_before_range(events, i + 1, until);
    }
}

/// Law: a paused (or empty) state never advances: its block is silent, plays nothing
/// and only settles the rebuild request.
pub proof fn lemma_paused_block_is_silent(
    repeat_enabled: bool,
    cursor: usize,
    song_length: usize,
    event_cursor: usize,
    events: Seq<PlaybackEvent>,
    pending_reset: bool,
    frame_count: usize,
)
    ensures
        ({
            let plan = spec_render_plan(
                false,
                repeat_enabled,
                cursor,
                song_length,
                event_cursor,
                events,
                pending_reset,
                frame_count,
            );
            plan.silence && plan.apply_start == plan.apply_end && plan.commit
                == BlockCommit::SettleReset
        }),
{
}

/// Law: without repeat, playback that reaches the song's end stops there.
pub proof fn lemma_end_without_repeat_stops(
    cursor: usize,
    song_length: usize,
    event_cursor: usize,
    events: Seq<PlaybackEvent>,
    pending_reset: bool,
    frame_count: usize,
)
    requires
        song_length > 0,
        events.len() > 0,
        saturating_add_usize(cursor, frame_count) >= song_length,
    ensures
        spec_render_plan(
            true,
            false,
            cursor,
            song_length,
            event_cursor,
            events,
            pending_reset,
            frame_count,
        ).commit matches BlockCommit::Advance { still_playing: false, .. },
{
}

/// Law: with repeat on, playback that reaches the song's end continues from the start.
pub proof fn lemma_end_with_repeat_wraps(
    cursor: usize,
    song_length: usize,
    event_cursor: usize,
    events: Seq<PlaybackEvent>,
    pending_reset: bool,
    frame_count: usize,
)
    requires
        song_length > 0,
        events.len() > 0,
        cursor < song_length,
        saturating_add_usize(cursor, frame_count) >= song_length,
    ensures
        spec_render_plan(
            true,
            true,
            cursor,
            song_length,
            event_cursor,
            events,
            pending_reset,
            frame_count,
        ).commit == (BlockCommit::Advance {
            playback_cursor_samples: 0,
            event_cursor: 0,
            still_playing: true,
        }),
{
}

/// Law: a pending rebuild replays exactly the events before the event cursor (all of
/// them when the cursor lies past the timeline), and no rebuild replays nothing. When
/// the event cursor is that of the playback cursor on a timeline partitioned there,
/// the replayed events are exactly those before the playback cursor.
pub proof fn lemma_rebuild_replays_events_before_cursor(
    is_playing: bool,
    repeat_enabled: bool,
    cursor: usize,
    song_length: usize,
    event_cursor: usize,
    events: Seq<PlaybackEvent>,
    pending_reset: bool,
    frame_count: usize,
)
    ensures
        ({
            let plan = spec_render_plan(
                is_playing,
                repeat_enabled,
                cursor,
                song_length,
                event_cursor,
                events,
                pending_reset,
                frame_count,
            );
            &&& pending_reset && event_cursor <= events.len() ==> plan.prime_count == Some(
                event_cursor,
            )
            &&& pending_reset && event_cursor > events.len() ==> plan.prime_count == Some(
                events.len() as usize,
            )
            &&& !pending_reset ==> plan.prime_count is None
            &&& pending_reset && crate::audio::state::partitioned_at(events, cursor)
                && crate::audio::state::is_event_cursor(events, cursor, event_cursor as int)
                ==> {
                &&& plan.prime_count == Some(event_cursor)
                &&& forall|i: int| 0 <= i < event_cursor ==> #[trigger] events[i].sample_index < cursor
                &&& forall|i: int| event_cursor <= i < events.len() ==> #[trigger] events[i].sample_index >= cursor
            }
        }),
{
}

} // verus!
