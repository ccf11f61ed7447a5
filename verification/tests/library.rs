use std::io::Cursor;
use std::sync::Arc;

use midi_editor::audio::midi::{
    normalize_tempo_changes, LoadResult, MidiLoadError, MidiManager, TrackAccumulator,
};
use midi_editor::audio::midi_struct::{
    NoteSpan, PlaybackData, PlaybackEvent, PlaybackEventKind, ProgramChangeEvent, Song, SongMeta,
    TempoChange, TrackModel,
};
use midi_editor::audio::render::{plan_render_block, AudioSnapshot, BlockCommit};
use midi_editor::audio::state::SharedAudioState;
use midi_editor::audio::tempo::{sample_index_for_tick, tempo_time_for_tick, tick_for_sample};
use midi_editor::sort::stable_sort_by_key;
use midi_editor::text::{push_decimal, sanitize_text};
use midi_editor::ui::instruments::current_instrument_name;
use midi_editor::ui::message_box::MessageBox;
use midi_editor::ui::views::transport_title;
use midly::{
    num::{u15, u24, u28, u4, u7},
    Format, Fps, Header, MetaMessage, MidiMessage, Smf, Timing, TrackEvent, TrackEventKind,
};

fn write_smf(smf: Smf<'static>) -> Vec<u8> {
    let mut out = Cursor::new(Vec::new());
    smf.write_std(&mut out).unwrap();
    out.into_inner()
}

fn midi(delta: u32, channel: u8, message: MidiMessage) -> TrackEvent<'static> {
    TrackEvent {
        delta: u28::from(delta),
        kind: TrackEventKind::Midi { channel: u4::from(channel), message },
    }
}

fn meta(delta: u32, message: MetaMessage<'static>) -> TrackEvent<'static> {
    TrackEvent { delta: u28::from(delta), kind: TrackEventKind::Meta(message) }
}

fn note_on(key: u8, vel: u8) -> MidiMessage {
    MidiMessage::NoteOn { key: u7::from(key), vel: u7::from(vel) }
}

fn note_off(key: u8) -> MidiMessage {
    MidiMessage::NoteOff { key: u7::from(key), vel: u7::from(0) }
}

fn parse(tracks: Vec<Vec<TrackEvent<'static>>>) -> Song {
    MidiManager::parse_bytes(&write_smf(Smf {
        header: Header::new(Format::Parallel, Timing::Metrical(u15::from(480))),
        tracks,
    }))
    .unwrap()
}

fn track(index: usize, channel: u8, notes: Vec<NoteSpan>) -> TrackModel {
    TrackModel {
        track_index: index,
        name: format!("Track {}", index + 1),
        channel,
        program: 0,
        instrument_name: String::new(),
        program_changes: vec![],
        note_spans: notes,
        is_muted: false,
        volume: 100,
    }
}

fn song(tracks: Vec<TrackModel>) -> Song {
    Song {
        ppq: 480,
        total_ticks: 960,
        meta: SongMeta::default(),
        tempo_changes: vec![TempoChange { tick: 0, micros_per_quarter: 500_000 }],
        tracks,
    }
}

fn note(key: u8, start_tick: u64, end_tick: u64, velocity: u8) -> NoteSpan {
    NoteSpan { key, start_tick, end_tick, velocity }
}

fn event(sample_index: usize, kind: PlaybackEventKind) -> PlaybackEvent {
    PlaybackEvent { sample_index, channel: 0, kind }
}

#[test]
fn normalize_keeps_last_tempo_at_each_tick() {
    let normalized = normalize_tempo_changes(vec![
        TempoChange { tick: 480, micros_per_quarter: 1_000_000 },
        TempoChange { tick: 0, micros_per_quarter: 400_000 },
        TempoChange { tick: 480, micros_per_quarter: 600_000 },
    ]);
    assert_eq!(
        normalized,
        vec![
            TempoChange { tick: 0, micros_per_quarter: 400_000 },
            TempoChange { tick: 480, micros_per_quarter: 600_000 },
        ]
    );
}

#[test]
fn normalize_starts_the_map_at_tick_zero() {
    assert_eq!(
        normalize_tempo_changes(vec![TempoChange { tick: 100, micros_per_quarter: 300_000 }]),
        vec![
            TempoChange { tick: 0, micros_per_quarter: 500_000 },
            TempoChange { tick: 100, micros_per_quarter: 300_000 },
        ]
    );
    assert_eq!(
        normalize_tempo_changes(vec![]),
        vec![TempoChange { tick: 0, micros_per_quarter: 500_000 }]
    );
}

#[test]
fn sanitize_drops_nul_and_surrounding_white_space() {
    assert_eq!(sanitize_text(b" \0Lead Synth\0 \t"), "Lead Synth");
    assert_eq!(sanitize_text(b"\0\0"), "");
    assert_eq!(sanitize_text(b"a\0b"), "ab");
}

#[test]
fn sanitize_replaces_invalid_utf8() {
    assert_eq!(sanitize_text(&[0xFF, b'A']), "\u{FFFD}A");
    assert_eq!(sanitize_text("\u{3000}곡\u{3000}".as_bytes()), "곡");
}

#[test]
fn normalizing_a_normal_map_changes_nothing() {
    let normal = normalize_tempo_changes(vec![
        TempoChange { tick: 960, micros_per_quarter: 250_000 },
        TempoChange { tick: 480, micros_per_quarter: 1_000_000 },
        TempoChange { tick: 480, micros_per_quarter: 700_000 },
    ]);
    assert_eq!(normalize_tempo_changes(normal.clone()), normal);
    let map = vec![
        TempoChange { tick: 0, micros_per_quarter: 400_000 },
        TempoChange { tick: 10, micros_per_quarter: 300_000 },
    ];
    assert_eq!(normalize_tempo_changes(map.clone()), map);
}

#[test]
fn cleaning_text_twice_changes_nothing() {
    for data in [
        &b" \0Lead Synth\0 \t"[..],
        &[0xFF, b' ', b'A', 0x00, b' '][..],
        "\u{3000}\u{0}곡 \n".as_bytes(),
        &b"\0 \0"[..],
    ] {
        let once = sanitize_text(data);
        assert_eq!(sanitize_text(once.as_bytes()), once);
        assert!(!once.contains('\0'));
        assert_eq!(once.trim(), once);
    }
    let valid = "  Piano\0 Left ";
    assert_eq!(sanitize_text(valid.as_bytes()), valid.replace('\0', "").trim());
}

#[test]
fn decimal_numbers_and_default_track_names() {
    let mut s = String::new();
    push_decimal(&mut s, 0);
    assert_eq!(s, "0");
    let mut s = String::from("n=");
    push_decimal(&mut s, 1_234_567);
    assert_eq!(s, "n=1234567");
    assert_eq!(TrackAccumulator::new(0).name, "Track 1");
    assert_eq!(TrackAccumulator::new(11).name, "Track 12");
}

#[test]
fn rejects_bytes_that_are_not_midi() {
    assert!(matches!(
        MidiManager::parse_bytes(b"not a midi file"),
        Err(MidiLoadError::Parse(_))
    ));
}

#[test]
fn load_error_messages_name_what_failed() {
    let parse_error = MidiManager::parse_bytes(b"not a midi file").unwrap_err();
    let MidiLoadError::Parse(cause) = &parse_error else {
        panic!("expected a parse error");
    };
    assert_eq!(parse_error.message(), format!("failed to parse MIDI file: {cause}"));
    assert!(parse_error.message().starts_with("failed to parse MIDI file: invalid midi: "));
    let io_error = MidiLoadError::Io(std::io::Error::new(std::io::ErrorKind::NotFound, "gone"));
    assert_eq!(io_error.message(), "failed to read MIDI file: gone");
    assert_eq!(
        MidiLoadError::UnsupportedTimecode.message(),
        "timecode-based MIDI files are not supported"
    );
}

#[test]
fn rejects_timecode_files() {
    let bytes = write_smf(Smf {
        header: Header::new(Format::SingleTrack, Timing::Timecode(Fps::Fps25, 40)),
        tracks: vec![vec![]],
    });
    assert!(matches!(
        MidiManager::parse_bytes(&bytes),
        Err(MidiLoadError::UnsupportedTimecode)
    ));
}

#[test]
fn pairs_notes_of_one_key_first_in_first_out() {
    let song = parse(vec![vec![
        midi(0, 0, note_on(60, 100)),
        midi(10, 0, note_on(60, 80)),
        midi(10, 0, note_off(60)),
        midi(10, 0, note_off(60)),
    ]]);
    assert_eq!(
        song.tracks[0].note_spans,
        vec![note(60, 0, 20, 100), note(60, 10, 30, 80)]
    );
}

#[test]
fn closes_dangling_notes_at_track_end() {
    let song = parse(vec![vec![
        midi(0, 0, note_on(62, 90)),
        midi(0, 0, note_on(64, 91)),
        midi(40, 0, note_off(64)),
        meta(60, MetaMessage::EndOfTrack),
    ]]);
    assert_eq!(
        song.tracks[0].note_spans,
        vec![note(64, 0, 40, 91), note(62, 0, 100, 90)]
    );
    assert_eq!(song.total_ticks, 100);
}

#[test]
fn sorts_notes_by_start_end_and_key() {
    let song = parse(vec![vec![
        midi(0, 0, note_on(67, 1)),
        midi(0, 0, note_on(60, 2)),
        midi(10, 0, note_off(67)),
        midi(0, 0, note_on(55, 3)),
        midi(10, 0, note_off(60)),
        midi(0, 0, note_off(55)),
    ]]);
    assert_eq!(
        song.tracks[0].note_spans,
        vec![note(67, 0, 10, 1), note(60, 0, 20, 2), note(55, 10, 20, 3)]
    );
}

#[test]
fn gathers_song_metadata_from_meta_events() {
    let song = parse(vec![
        vec![
            meta(0, MetaMessage::Text(b"first text")),
            meta(0, MetaMessage::Copyright(b"(c) 2024")),
            meta(0, MetaMessage::TrackName(b"  Piano \0")),
            meta(0, MetaMessage::InstrumentName(b"Grand")),
            meta(0, MetaMessage::TimeSignature(3, 2, 24, 8)),
            meta(0, MetaMessage::KeySignature(-2, true)),
            meta(0, MetaMessage::Marker(b"A")),
            meta(0, MetaMessage::ProgramName(b"Prog")),
        ],
        vec![
            meta(0, MetaMessage::TrackName(b"Strings")),
            meta(0, MetaMessage::Text(b"second text")),
            meta(0, MetaMessage::TrackName(b"   ")),
        ],
    ]);
    assert_eq!(song.meta.title, "Piano");
    assert_eq!(song.meta.text, "first text");
    assert_eq!(song.meta.copyright, "(c) 2024");
    assert_eq!(song.meta.program_name, "Prog");
    assert_eq!(song.meta.marker, "A");
    assert_eq!(song.meta.time_signature, [3, 2, 24, 8]);
    assert_eq!(song.meta.key_signature, -2);
    assert!(song.meta.is_minor);
    assert_eq!(song.tracks[0].name, "Piano");
    assert_eq!(song.tracks[0].instrument_name, "Grand");
    assert_eq!(song.tracks[1].name, "Strings");
    assert_eq!(song.tracks[1].track_index, 1);
    assert_eq!(song.display_title(), Some("Piano"));
}

#[test]
fn first_channel_message_sets_channel_and_program() {
    let song = parse(vec![
        vec![
            midi(0, 3, MidiMessage::ProgramChange { program: u7::from(7) }),
            midi(100, 5, MidiMessage::ProgramChange { program: u7::from(9) }),
        ],
        vec![meta(10, MetaMessage::Tempo(u24::from(250_000)))],
    ]);
    let first = &song.tracks[0];
    assert_eq!(first.channel, 3);
    assert_eq!(first.program, 7);
    assert_eq!(
        first.program_changes,
        vec![
            ProgramChangeEvent { tick: 0, program: 7 },
            ProgramChangeEvent { tick: 100, program: 9 },
        ]
    );
    assert_eq!(song.tracks[1].channel, 0);
    assert_eq!(song.tracks[1].name, "Track 2");
    assert_eq!(song.total_ticks, 100);
    assert_eq!(
        song.tempo_changes,
        vec![
            TempoChange { tick: 0, micros_per_quarter: 500_000 },
            TempoChange { tick: 10, micros_per_quarter: 250_000 },
        ]
    );
}

#[test]
fn tempo_time_sums_each_segment() {
    let changes = [
        TempoChange { tick: 0, micros_per_quarter: 500_000 },
        TempoChange { tick: 480, micros_per_quarter: 1_000_000 },
    ];
    assert_eq!(tempo_time_for_tick(&changes, 0), 0);
    assert_eq!(tempo_time_for_tick(&changes, 480), 240_000_000);
    assert_eq!(tempo_time_for_tick(&changes, 960), 720_000_000);
    assert_eq!(tempo_time_for_tick(&[], 2), 1_000_000);
}

#[test]
fn sample_index_rounds_halves_up() {
    let changes = [TempoChange { tick: 0, micros_per_quarter: 500_000 }];
    assert_eq!(sample_index_for_tick(1, &changes, 1, 3), 2);
    assert_eq!(sample_index_for_tick(1, &changes, 1, 48_000), 24_000);
    assert_eq!(sample_index_for_tick(0, &changes, 1, 48_000), 0);
    let fast = [TempoChange { tick: 0, micros_per_quarter: 1 }];
    assert_eq!(sample_index_for_tick(1, &fast, 1, 1), 0);
}

#[test]
fn tick_for_sample_edge_cases() {
    let changes = [TempoChange { tick: 0, micros_per_quarter: 500_000 }];
    assert_eq!(tick_for_sample(0, &changes, 10, 44_100), 0);
    assert_eq!(tick_for_sample(480, &changes, 10, 0), 0);
    assert_eq!(tick_for_sample(480, &changes, 0, 44_100), 0);
    assert_eq!(tick_for_sample(480, &changes, 22_050, 44_100), 480);
    let frozen = [TempoChange { tick: 0, micros_per_quarter: 0 }];
    assert_eq!(tick_for_sample(480, &frozen, 10, 44_100), u64::MAX);
}

#[test]
fn later_ticks_never_play_earlier() {
    let changes = [
        TempoChange { tick: 0, micros_per_quarter: 500_000 },
        TempoChange { tick: 100, micros_per_quarter: 250_000 },
        TempoChange { tick: 50, micros_per_quarter: 900_000 },
    ];
    let mut previous = 0;
    for tick in 0..300u64 {
        let sample = sample_index_for_tick(96, &changes, tick, 44_100);
        assert!(sample >= previous);
        previous = sample;
    }
}

#[test]
fn tick_for_sample_finds_the_tick_sounding_at_the_sample() {
    let changes = [
        TempoChange { tick: 0, micros_per_quarter: 500_000 },
        TempoChange { tick: 480, micros_per_quarter: 1_000_000 },
        TempoChange { tick: 960, micros_per_quarter: 250_000 },
    ];
    let ppq: u16 = 480;
    let sample_rate: u32 = 44_100;
    let units_per_second = 1_000_000u128 * ppq as u128;
    for sample in (0..200_000usize).step_by(997) {
        let tick = tick_for_sample(ppq, &changes, sample, sample_rate);
        let at_sample = sample as u128 * units_per_second;
        assert!(tempo_time_for_tick(&changes, tick) * sample_rate as u128 <= at_sample);
        assert!(at_sample < tempo_time_for_tick(&changes, tick + 1) * sample_rate as u128);
        assert!(sample_index_for_tick(ppq, &changes, tick, sample_rate) <= sample);
    }
    assert_eq!(tick_for_sample(ppq, &changes, 44_100, sample_rate), 720);
    assert_eq!(sample_index_for_tick(ppq, &changes, 720, sample_rate), 44_100);
}

#[test]
fn tick_to_sample_and_back_gives_the_tick_or_the_one_before() {
    let changes = [
        TempoChange { tick: 0, micros_per_quarter: 500_000 },
        TempoChange { tick: 480, micros_per_quarter: 1_000_000 },
        TempoChange { tick: 500, micros_per_quarter: 30_000 },
    ];
    let ppq: u16 = 96;
    let sample_rate: u32 = 44_100;
    for tick in 0..2_000u64 {
        let sample = sample_index_for_tick(ppq, &changes, tick, sample_rate);
        let back = tick_for_sample(ppq, &changes, sample, sample_rate);
        assert!(back <= tick && tick <= back + 1, "tick {tick} came back as {back}");
    }
}

#[test]
fn playback_respects_mute_and_solo() {
    let mut muted = track(1, 1, vec![note(64, 0, 480, 90)]);
    muted.is_muted = true;
    let song = song(vec![track(0, 0, vec![note(60, 0, 480, 100)]), muted]);
    let data = song.playback_data(48_000, None);
    assert_eq!(data.events.len(), 3);
    assert!(data.events.iter().all(|e| e.channel == 0));

    let mut song = song;
    song.tracks[1].is_muted = false;
    let solo = song.playback_data(48_000, Some(1));
    assert_eq!(solo.events.len(), 3);
    assert!(solo.events.iter().all(|e| e.channel == 1));
    assert_eq!(solo.song_length_samples, 48_000);
}

#[test]
fn playback_sets_default_program_at_start() {
    let mut t = track(0, 2, vec![]);
    t.program = 5;
    t.program_changes = vec![ProgramChangeEvent { tick: 480, program: 6 }];
    let data = song(vec![t]).playback_data(48_000, None);
    assert_eq!(
        *data.events,
        vec![
            PlaybackEvent {
                sample_index: 0,
                channel: 2,
                kind: PlaybackEventKind::ProgramChange { program: 5 },
            },
            PlaybackEvent {
                sample_index: 24_000,
                channel: 2,
                kind: PlaybackEventKind::ProgramChange { program: 6 },
            },
        ]
    );
}

#[test]
fn playback_puts_note_offs_before_note_ons_at_one_sample() {
    let data = song(vec![track(0, 0, vec![note(60, 0, 480, 100), note(62, 480, 960, 100)])])
        .playback_data(48_000, None);
    let kinds: Vec<PlaybackEventKind> = data.events.iter().map(|e| e.kind).collect();
    assert_eq!(
        kinds,
        vec![
            PlaybackEventKind::ProgramChange { program: 0 },
            PlaybackEventKind::NoteOn { key: 60, velocity: 100 },
            PlaybackEventKind::NoteOff { key: 60 },
            PlaybackEventKind::NoteOn { key: 62, velocity: 100 },
            PlaybackEventKind::NoteOff { key: 62 },
        ]
    );
    assert_eq!(data.events[2].sample_index, 24_000);
    assert_eq!(data.events[3].sample_index, 24_000);
}

#[test]
fn stable_sort_keeps_order_of_equal_keys() {
    let sorted = stable_sort_by_key(&vec![
        note(60, 5, 9, 1),
        note(60, 0, 9, 2),
        note(60, 5, 9, 3),
        note(59, 5, 9, 4),
    ]);
    let velocities: Vec<u8> = sorted.iter().map(|n| n.velocity).collect();
    assert_eq!(velocities, vec![2, 4, 1, 3]);
}

#[test]
fn stable_sort_of_many_notes_matches_a_stable_sort() {
    let notes: Vec<NoteSpan> = (0..50_000u64)
        .map(|i| note((i * 7919 % 13) as u8, i * 104_729 % 97, 100, (i % 251) as u8))
        .collect();
    let sorted = stable_sort_by_key(&notes);
    let mut expected = notes.clone();
    expected.sort_by_key(|n| (n.start_tick, n.end_tick, n.key));
    assert_eq!(sorted, expected);
}

fn timeline() -> PlaybackData {
    PlaybackData {
        song_length_samples: 1_000,
        events: Arc::new(vec![
            event(0, PlaybackEventKind::ProgramChange { program: 0 }),
            event(100, PlaybackEventKind::NoteOn { key: 60, velocity: 1 }),
            event(500, PlaybackEventKind::NoteOff { key: 60 }),
        ]),
    }
}

#[test]
fn event_cursor_counts_events_before_sample() {
    let mut state = SharedAudioState::default();
    state.set_playback_data(timeline(), true);
    assert_eq!(state.find_event_cursor(0), 0);
    assert_eq!(state.find_event_cursor(1), 1);
    assert_eq!(state.find_event_cursor(100), 1);
    assert_eq!(state.find_event_cursor(101), 2);
    assert_eq!(state.find_event_cursor(5_000), 3);
}

#[test]
fn seeking_clamps_to_song_length() {
    let mut state = SharedAudioState::default();
    state.set_playback_data(timeline(), true);
    state.seek_samples(5_000);
    assert_eq!(state.playback_cursor_samples, 1_000);
    assert_eq!(state.event_cursor, 3);
    assert!(state.pending_reset);
}

#[test]
fn new_timeline_keeps_cursor_within_its_length() {
    let mut state = SharedAudioState::default();
    state.set_playback_data(timeline(), true);
    state.seek_samples(800);
    state.set_playback_data(PlaybackData { song_length_samples: 300, ..timeline() }, false);
    assert_eq!(state.playback_cursor_samples, 300);
    assert_eq!(state.event_cursor, 2);
    state.set_playback_data(timeline(), true);
    assert_eq!(state.playback_cursor_samples, 0);
    assert_eq!(state.event_cursor, 0);
}

#[test]
fn setting_the_same_play_state_changes_nothing() {
    let mut state = SharedAudioState::default();
    state.set_playing(false);
    assert_eq!(state.revision, 0);
    assert!(!state.pending_reset);
    state.set_playing(true);
    assert_eq!(state.revision, 1);
    assert!(state.pending_reset);
}

#[test]
fn playing_a_finished_song_starts_it_again() {
    let mut state = SharedAudioState::default();
    state.set_playback_data(timeline(), true);
    state.seek_samples(400);
    state.play();
    assert!(state.is_playing);
    assert_eq!(state.playback_cursor_samples, 400);
    assert_eq!(state.event_cursor, 2);
    state.seek_samples(1_000);
    let revision = state.revision;
    state.play();
    assert_eq!(state.playback_cursor_samples, 0);
    assert_eq!(state.event_cursor, 0);
    assert_eq!(state.revision, revision + 1);
    let revision = state.revision;
    state.play();
    assert_eq!(state.revision, revision);
}

#[test]
fn stopping_rewinds_to_the_start() {
    let mut state = SharedAudioState::default();
    state.set_playback_data(timeline(), true);
    state.seek_samples(600);
    state.play();
    state.stop();
    assert!(!state.is_playing);
    assert_eq!(state.playback_cursor_samples, 0);
    assert_eq!(state.event_cursor, 0);
    assert!(state.pending_reset);
}

#[test]
fn clearing_playback_resets_everything() {
    let mut state = SharedAudioState::default();
    state.set_playback_data(timeline(), true);
    state.set_repeat_enabled(true);
    state.set_playing(true);
    state.seek_samples(400);
    state.clear_playback();
    assert!(!state.is_playing);
    assert!(!state.repeat_enabled);
    assert_eq!(state.playback_cursor_samples, 0);
    assert_eq!(state.song_length_samples, 0);
    assert_eq!(state.event_cursor, 0);
    assert!(state.playback_events.is_empty());
    assert_eq!(state.revision, 5);
}

#[test]
fn revision_wraps_around() {
    let mut state = SharedAudioState::default();
    state.revision = u64::MAX;
    state.set_repeat_enabled(true);
    assert_eq!(state.revision, 0);
    assert!(state.repeat_enabled);
}

fn snapshot(is_playing: bool, repeat_enabled: bool, cursor: usize, event_cursor: usize) -> AudioSnapshot {
    AudioSnapshot {
        is_playing,
        repeat_enabled,
        playback_cursor_samples: cursor,
        song_length_samples: 1_000,
        event_cursor,
        playback_events: timeline().events,
        pending_reset: false,
        revision: 7,
    }
}

#[test]
fn paused_block_is_silent() {
    let plan = plan_render_block(&snapshot(false, false, 0, 0), 256);
    assert!(plan.silence);
    assert_eq!(plan.commit, BlockCommit::SettleReset);
    assert_eq!(plan.apply_start, plan.apply_end);
}

#[test]
fn playing_block_applies_events_before_its_end() {
    let plan = plan_render_block(&snapshot(true, false, 0, 0), 256);
    assert!(!plan.silence);
    assert_eq!((plan.apply_start, plan.apply_end), (0, 2));
    assert_eq!(
        plan.commit,
        BlockCommit::Advance { playback_cursor_samples: 256, event_cursor: 2, still_playing: true }
    );
}

#[test]
fn block_reaching_the_end_stops_or_wraps() {
    let stop = plan_render_block(&snapshot(true, false, 900, 3), 256);
    assert_eq!(
        stop.commit,
        BlockCommit::Advance { playback_cursor_samples: 1_156, event_cursor: 3, still_playing: false }
    );
    let wrap = plan_render_block(&snapshot(true, true, 900, 3), 256);
    assert!(wrap.reset_after);
    assert_eq!(
        wrap.commit,
        BlockCommit::Advance { playback_cursor_samples: 0, event_cursor: 0, still_playing: true }
    );
    let restart = plan_render_block(&snapshot(true, true, 1_000, 3), 256);
    assert!(restart.reset_before);
    assert_eq!((restart.apply_start, restart.apply_end), (0, 2));
    let ended = plan_render_block(&snapshot(true, false, 1_000, 3), 256);
    assert!(ended.silence);
    assert_eq!(
        ended.commit,
        BlockCommit::Advance { playback_cursor_samples: 1_000, event_cursor: 3, still_playing: false }
    );
}

#[test]
fn pending_reset_replays_events_before_cursor() {
    let mut s = snapshot(true, false, 600, 9);
    s.pending_reset = true;
    assert_eq!(plan_render_block(&s, 16).prime_count, Some(3));
}

#[test]
fn stale_block_results_are_dropped() {
    let mut state = SharedAudioState::default();
    state.revision = 3;
    let commit = BlockCommit::Advance { playback_cursor_samples: 50, event_cursor: 1, still_playing: false };
    state.commit_render_block(2, commit);
    assert_eq!(state.playback_cursor_samples, 0);
    state.commit_render_block(3, commit);
    assert_eq!(state.playback_cursor_samples, 50);
    assert_eq!(state.event_cursor, 1);
    assert!(state.pending_reset);
}

#[test]
fn load_results_are_handed_out_once() {
    let mut manager = MidiManager::default();
    assert!(!manager.is_loaded());
    manager.begin_loading();
    assert!(manager.is_loading());
    manager.finish_loading("a.mid".to_string(), song(vec![]));
    assert!(!manager.is_loading());
    match manager.take_pending_result() {
        Some(LoadResult::Success(loaded)) => {
            assert_eq!(loaded.file_name, "a.mid");
            manager.apply_song(loaded.song);
        }
        _ => panic!("expected a loaded song"),
    }
    assert!(manager.take_pending_result().is_none());
    assert!(manager.is_loaded());
    manager.finish_loading_error("bad file".to_string());
    assert!(matches!(manager.take_pending_result(), Some(LoadResult::Error(m)) if m == "bad file"));
    manager.close();
    assert!(!manager.is_loaded());
    assert!(manager.song().is_none());
}

#[test]
fn message_box_captions() {
    let mut message_box = MessageBox::default();
    assert_eq!(message_box.caption(), "Message");
    assert!(!message_box.is_open());
    message_box.show("File loaded successfully.".to_string());
    assert_eq!(message_box.caption(), "OK");
    assert_eq!(message_box.message(), "File loaded successfully.");
    assert!(message_box.is_open());
    message_box.error("No file selected.".to_string());
    assert_eq!(message_box.caption(), "Error");
    message_box.dismiss();
    assert!(!message_box.is_open());
    assert_eq!(message_box.message(), "No file selected.");
}

#[test]
fn instrument_names_by_channel_and_program() {
    let kits = [(0u8, "Standard"), (8, "Room")];
    let instruments = ["Acoustic Grand Piano", "Bright Acoustic Piano"];
    assert_eq!(current_instrument_name(9, 8, &kits, &instruments), "Room");
    assert_eq!(current_instrument_name(9, 3, &kits, &instruments), "Standard Kit");
    assert_eq!(current_instrument_name(0, 1, &kits, &instruments), "Bright Acoustic Piano");
    assert_eq!(current_instrument_name(0, 7, &kits, &instruments), "Unknown");
}

#[test]
fn track_views() {
    let mut t = track(4, 9, vec![note(60, 0, 10, 1), note(48, 5, 20, 1), note(72, 8, 9, 1)]);
    assert_eq!(t.key_range(), Some((48, 72)));
    assert_eq!(track(0, 0, vec![]).key_range(), None);
    assert!(t.is_percussion());
    t.name = String::new();
    t.instrument_name = "Drums".to_string();
    assert_eq!(t.display_name(), "Drums");
    t.select_program(16, "Power".to_string());
    assert_eq!(t.program, 16);
    assert_eq!(t.instrument_name, "Power");
    assert_eq!(t.program_changes, vec![ProgramChangeEvent { tick: 0, program: 16 }]);
}

#[test]
fn song_views() {
    let mut s = song(vec![
        track(2, 0, vec![note(60, 0, 480, 1)]),
        track(5, 1, vec![note(62, 100, 200, 1), note(64, 150, 151, 1)]),
    ]);
    assert!(!s.is_empty());
    assert_eq!(s.find_track(5).map(|t| t.channel), Some(1));
    assert!(s.find_track(3).is_none());
    let keys = s.sounding_keys(150, None);
    assert_eq!(keys.len(), 256);
    let sounding: Vec<usize> = (0..256).filter(|&k| keys[k]).collect();
    assert_eq!(sounding, vec![60, 62, 64]);
    let solo = s.sounding_keys(150, Some(2));
    assert!(solo[60] && !solo[62]);
    assert_eq!(s.display_title(), None);
    assert_eq!(transport_title(false, Some(&s), "song.mid"), "song.mid");
    s.meta.program_name = "Program".to_string();
    assert_eq!(transport_title(false, Some(&s), "song.mid"), "Program");
    assert_eq!(transport_title(true, Some(&s), "song.mid"), "Loading MIDI file...");
    assert_eq!(transport_title(false, None, ""), "Select a MIDI file to play.");
}
