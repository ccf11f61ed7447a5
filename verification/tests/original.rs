use std::io::Cursor;
use std::sync::Arc;

use midi_editor::audio::midi::MidiManager;
use midi_editor::audio::midi_struct::{
    NoteSpan, PlaybackData, PlaybackEvent, PlaybackEventKind, ProgramChangeEvent, Song, SongMeta,
    TempoChange, TrackModel,
};
use midi_editor::audio::state::SharedAudioState;
use midi_editor::audio::tempo::tempo_time_for_tick;
use midly::{
    num::{u15, u24, u28, u4, u7},
    Format, Header, MetaMessage, MidiMessage, Smf, Timing, TrackEvent, TrackEventKind,
};

fn write_smf(smf: Smf<'static>) -> Vec<u8> {
    let mut out = Cursor::new(Vec::new());
    smf.write_std(&mut out).unwrap();
    out.into_inner()
}

/// Seconds elapsed at `tick`, from the exact tempo time.
fn seconds_for_tick(song: &Song, tick: u64) -> f64 {
    tempo_time_for_tick(&song.tempo_changes, tick) as f64 / 1_000_000.0 / song.ppq as f64
}

#[test]
fn parses_zero_velocity_note_on_as_note_off() {
    let song = MidiManager::parse_bytes(&write_smf(Smf {
        header: Header::new(Format::SingleTrack, Timing::Metrical(u15::from(480))),
        tracks: vec![vec![
            TrackEvent {
                delta: u28::from(0),
                kind: TrackEventKind::Midi {
                    channel: u4::from(0),
                    message: MidiMessage::NoteOn {
                        key: u7::from(60),
                        vel: u7::from(100),
                    },
                },
            },
            TrackEvent {
                delta: u28::from(480),
                kind: TrackEventKind::Midi {
                    channel: u4::from(0),
                    message: MidiMessage::NoteOn {
                        key: u7::from(60),
                        vel: u7::from(0),
                    },
                },
            },
        ]],
    }))
    .unwrap();

    assert_eq!(song.tracks.len(), 1);
    assert_eq!(song.tracks[0].note_spans.len(), 1);
    assert_eq!(song.tracks[0].note_spans[0].start_tick, 0);
    assert_eq!(song.tracks[0].note_spans[0].end_tick, 480);
}

#[test]
fn keeps_multiple_tracks_on_same_channel_distinct() {
    let song = MidiManager::parse_bytes(&write_smf(Smf {
        header: Header::new(Format::Parallel, Timing::Metrical(u15::from(480))),
        tracks: vec![
            vec![
                TrackEvent {
                    delta: u28::from(0),
                    kind: TrackEventKind::Meta(MetaMessage::TrackName(b"Track A")),
                },
                TrackEvent {
                    delta: u28::from(0),
                    kind: TrackEventKind::Midi {
                        channel: u4::from(0),
                        message: MidiMessage::NoteOn {
                            key: u7::from(60),
                            vel: u7::from(100),
                        },
                    },
                },
                TrackEvent {
                    delta: u28::from(240),
                    kind: TrackEventKind::Midi {
                        channel: u4::from(0),
                        message: MidiMessage::NoteOff {
                            key: u7::from(60),
                            vel: u7::from(0),
                        },
                    },
                },
            ],
            vec![
                TrackEvent {
                    delta: u28::from(0),
                    kind: TrackEventKind::Meta(MetaMessage::TrackName(b"Track B")),
                },
                TrackEvent {
                    delta: u28::from(0),
                    kind: TrackEventKind::Midi {
                        channel: u4::from(0),
                        message: MidiMessage::NoteOn {
                            key: u7::from(64),
                            vel: u7::from(96),
                        },
                    },
                },
                TrackEvent {
                    delta: u28::from(240),
                    kind: TrackEventKind::Midi {
                        channel: u4::from(0),
                        message: MidiMessage::NoteOff {
                            key: u7::from(64),
                            vel: u7::from(0),
                        },
                    },
                },
            ],
        ],
    }))
    .unwrap();

    assert_eq!(song.tracks.len(), 2);
    assert_eq!(song.tracks[0].name, "Track A");
    assert_eq!(song.tracks[1].name, "Track B");
    assert_eq!(song.tracks[0].channel, 0);
    assert_eq!(song.tracks[1].channel, 0);
}

#[test]
fn sorts_tempo_changes_before_converting_song_length() {
    let song = MidiManager::parse_bytes(&write_smf(Smf {
        header: Header::new(Format::Parallel, Timing::Metrical(u15::from(480))),
        tracks: vec![
            vec![TrackEvent {
                delta: u28::from(480),
                kind: TrackEventKind::Meta(MetaMessage::Tempo(u24::from(1_000_000))),
            }],
            vec![TrackEvent {
                delta: u28::from(240),
                kind: TrackEventKind::Midi {
                    channel: u4::from(0),
                    message: MidiMessage::NoteOn {
                        key: u7::from(60),
                        vel: u7::from(100),
                    },
                },
            }],
        ],
    }))
    .unwrap();

    assert_eq!(song.tempo_changes[0].tick, 0);
    assert_eq!(song.tempo_changes[1].tick, 480);
    let total_seconds = seconds_for_tick(&song, song.total_ticks);
    assert!((total_seconds - 0.5).abs() < f64::EPSILON);
}

#[test]
fn converts_ticks_with_tempo_changes_in_both_directions() {
    let song = Song {
        ppq: 480,
        total_ticks: 960,
        meta: SongMeta::default(),
        tempo_changes: vec![
            TempoChange {
                tick: 0,
                micros_per_quarter: 500_000,
            },
            TempoChange {
                tick: 480,
                micros_per_quarter: 1_000_000,
            },
        ],
        tracks: vec![],
    };

    assert!((seconds_for_tick(&song, 480) - 0.5).abs() < f64::EPSILON);
    assert!((seconds_for_tick(&song, 960) - 1.5).abs() < f64::EPSILON);
    assert_eq!(song.tick_for_sample(44_100, 44_100), 720);
}

#[test]
fn builds_playback_events_in_stable_order() {
    let song = Song {
        ppq: 480,
        total_ticks: 480,
        meta: SongMeta::default(),
        tempo_changes: vec![TempoChange {
            tick: 0,
            micros_per_quarter: 500_000,
        }],
        tracks: vec![TrackModel {
            track_index: 0,
            name: "Track 1".to_string(),
            channel: 0,
            program: 10,
            instrument_name: String::new(),
            program_changes: vec![ProgramChangeEvent {
                tick: 0,
                program: 10,
            }],
            note_spans: vec![NoteSpan {
                key: 60,
                start_tick: 0,
                end_tick: 480,
                velocity: 100,
            }],
            is_muted: false,
            volume: 100,
        }],
    };

    let playback = song.playback_data(48_000, None);
    assert_eq!(playback.song_length_samples, 24_000);
    assert!(matches!(
        playback.events[0].kind,
        PlaybackEventKind::ProgramChange { program: 10 }
    ));
    assert!(matches!(
        playback.events[1].kind,
        PlaybackEventKind::NoteOn {
            key: 60,
            velocity: 100
        }
    ));
    assert!(matches!(
        playback.events[2].kind,
        PlaybackEventKind::NoteOff { key: 60 }
    ));
}

#[test]
fn seeking_recomputes_event_cursor() {
    let mut state = SharedAudioState::default();
    state.set_playback_data(
        PlaybackData {
            song_length_samples: 10_000,
            events: Arc::new(vec![
                PlaybackEvent {
                    sample_index: 0,
                    channel: 0,
                    kind: PlaybackEventKind::ProgramChange { program: 0 },
                },
                PlaybackEvent {
                    sample_index: 5_000,
                    channel: 0,
                    kind: PlaybackEventKind::NoteOn {
                        key: 60,
                        velocity: 100,
                    },
                },
                PlaybackEvent {
                    sample_index: 7_500,
                    channel: 0,
                    kind: PlaybackEventKind::NoteOff { key: 60 },
                },
            ]),
        },
        true,
    );

    state.seek_samples(6_000);
    assert_eq!(state.event_cursor, 2);
}
