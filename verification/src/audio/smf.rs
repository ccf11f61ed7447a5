//! Standard MIDI File contents as plain values, read through the `midly` parser.
use vstd::prelude::*;
use midly::{MetaMessage, MidiMessage, TrackEventKind};

verus! {

/// How a file measures time: ticks per quarter note, or SMPTE timecode.
#[derive(Clone, Copy, Debug, PartialEq, Eq)]
pub enum SmfTiming {
    Metrical(u16),
    Timecode,
}

/// The channel messages the song model reads; every other one is `Other`.
#[derive(Clone, Copy, Debug, PartialEq, Eq)]
pub enum MidiEventData {
    NoteOff { key: u8, vel: u8 },
    NoteOn { key: u8, vel: u8 },
    ProgramChange { program: u8 },
    Other,
}

/// The meta messages the song model reads, with their payload (text bytes as `B`);
/// every other one is `Other`.
#[derive(Clone, Debug, PartialEq, Eq)]
pub enum MetaEventData<B> {
    Text(B),
    Copyright(B),
    TrackName(B),
    InstrumentName(B),
    Marker(B),
    ProgramName(B),
    Tempo(u32),
    TimeSignature(u8, u8, u8, u8),
    KeySignature(i8, bool),
    Other,
}

/// A track event's content: a channel message, a meta message, or anything else
/// (system exclusive and escape events).
#[derive(Clone, Debug, PartialEq, Eq)]
pub enum SmfEventKind<B> {
    Midi { channel: u8, message: MidiEventData },
    Meta(MetaEventData<B>),
    Other,
}

/// A track event: ticks since the previous event of its track, and its content.
#[derive(Clone, Debug, PartialEq, Eq)]
pub struct SmfEvent<B> {
    pub delta: u32,
    pub kind: SmfEventKind<B>,
}

impl View for MetaEventData<Vec<u8>> {
    type V = MetaEventData<Seq<u8>>;

    open spec fn view(&self) -> MetaEventData<Seq<u8>> {
        match self {
            MetaEventData::Text(b) => MetaEventData::Text(b@),
            MetaEventData::Copyright(b) => MetaEventData::Copyright(b@),
            MetaEventData::TrackName(b) => MetaEventData::TrackName(b@),
            MetaEventData::InstrumentName(b) => MetaEventData::InstrumentName(b@),
            MetaEventData::Marker(b) => MetaEventData::Marker(b@),
            MetaEventData::ProgramName(b) => MetaEventData::ProgramName(b@),
            MetaEventData::Tempo(t) => MetaEventData::Tempo(*t),
            MetaEventData::TimeSignature(a, b, c, d) => MetaEventData::TimeSignature(*a, *b, *c, *d),
            MetaEventData::KeySignature(s, m) => MetaEventData::KeySignature(*s, *m),
            MetaEventData::Other => MetaEventData::Other,
        }
    }
}

impl<'a> View for MetaEventData<&'a [u8]> {
    type V = MetaEventData<Seq<u8>>;

    open spec fn view(&self) -> MetaEventData<Seq<u8>> {
        match self {
            MetaEventData::Text(b) => MetaEventData::Text(b@),
            MetaEventData::Copyright(b) => MetaEventData::Copyright(b@),
            MetaEventData::TrackName(b) => MetaEventData::TrackName(b@),
            MetaEventData::InstrumentName(b) => MetaEventData::InstrumentName(b@),
            MetaEventData::Marker(b) => MetaEventData::Marker(b@),
            MetaEventData::ProgramName(b) => MetaEventData::ProgramName(b@),
            MetaEventData::Tempo(t) => MetaEventData::Tempo(*t),
            MetaEventData::TimeSignature(a, b, c, d) => MetaEventData::TimeSignature(*a, *b, *c, *d),
            MetaEventData::KeySignature(s, m) => MetaEventData::KeySignature(*s, *m),
            MetaEventData::Other => MetaEventData::Other,
        }
    }
}

/// Copies the text payload of a meta message.
fn owned_meta(meta: MetaEventData<&[u8]>) -> (owned: MetaEventData<Vec<u8>>)
    ensures
        owned@ == meta@,
{
    match meta {
        MetaEventData::Text(b) => MetaEventData::Text(vstd::slice::slice_to_vec(b)),
        MetaEventData::Copyright(b) => MetaEventData::Copyright(vstd::slice::slice_to_vec(b)),
        MetaEventData::TrackName(b) => MetaEventData::TrackName(vstd::slice::slice_to_vec(b)),
        MetaEventData::InstrumentName(b) => MetaEventData::InstrumentName(
            vstd::slice::slice_to_vec(b),
        ),
        MetaEventData::Marker(b) => MetaEventData::Marker(vstd::slice::slice_to_vec(b)),
        MetaEventData::ProgramName(b) => MetaEventData::ProgramName(vstd::slice::slice_to_vec(b)),
        MetaEventData::Tempo(t) => MetaEventData::Tempo(t),
        MetaEventData::TimeSignature(a, b, c, d) => MetaEventData::TimeSignature(a, b, c, d),
        MetaEventData::KeySignature(s, m) => MetaEventData::KeySignature(s, m),
        MetaEventData::Other => MetaEventData::Other,
    }
}

impl View for SmfEvent<Vec<u8>> {
    type V = SmfEvent<Seq<u8>>;

    open spec fn view(&self) -> SmfEvent<Seq<u8>> {
        SmfEvent {
            delta: self.delta,
            kind: match self.kind {
                SmfEventKind::Midi { channel, message } => SmfEventKind::Midi { channel, message },
                SmfEventKind::Meta(m) => SmfEventKind::Meta(m@),
                SmfEventKind::Other => SmfEventKind::Other,
            },
        }
    }
}

/// The contents of a Standard MIDI File: its timing and its tracks of events.
pub struct SmfData {
    pub timing: SmfTiming,
    pub tracks: Vec<Vec<SmfEvent<Vec<u8>>>>,
}

/// Mathematical model of [`SmfData`].
pub struct SmfModel {
    pub timing: SmfTiming,
    pub tracks: Seq<Seq<SmfEvent<Seq<u8>>>>,
}

/// The model of a track's events.
pub open spec fn track_view(track: Vec<SmfEvent<Vec<u8>>>) -> Seq<SmfEvent<Seq<u8>>> {
    track@.map_values(|e: SmfEvent<Vec<u8>>| e@)
}

impl View for SmfData {
    type V = SmfModel;

    open spec fn view(&self) -> SmfModel {
        SmfModel {
            timing: self.timing,
            tracks: self.tracks@.map_values(|t: Vec<SmfEvent<Vec<u8>>>| track_view(t)),
        }
    }
}

#[verifier::external_type_specification]
#[verifier::external_body]
pub struct ExSmf<'a>(midly::Smf<'a>);

#[verifier::external_type_specification]
#[verifier::external_body]
pub struct ExMidlyError(midly::Error);

/// What `midly::Smf::parse` makes of a byte string: the file's contents, or, when it
/// rejects the bytes, the text of the error it gives (as `midly_error_message`).
pub uninterp spec fn midly_parse(data: Seq<u8>) -> Result<SmfModel, Seq<char>>;

/// What `midly::Error`'s `Display` writes: the text of the error's kind, which the
/// error alone decides.
pub uninterp spec fn midly_error_message(error: midly::Error) -> Seq<char>;

/// The text that `midly::Error`'s `Display` writes, named `midly_error_message`.
#[verifier::external_body]
pub(crate) fn midly_error_text(error: &midly::Error) -> (text: String)
    ensures
        text@ == midly_error_message(*error),
{
    format!("{}", error)
}

/// The events of each track of a parsed file.
pub uninterp spec fn smf_tracks(smf: midly::Smf) -> Seq<Seq<SmfEvent<Seq<u8>>>>;

/// The timing in the header of a parsed file.
pub uninterp spec fn smf_timing(smf: midly::Smf) -> SmfTiming;

/// `midly::Smf::parse`: parses a Standard MIDI File (or a RIFF-wrapped one). The
/// outcome depends on the bytes alone; on success the parsed file's timing and events
/// are those that `midly_parse` names, on failure the error's text is.
#[verifier::external_body]
fn parse_smf(data: &[u8]) -> (result: Result<midly::Smf<'_>, midly::Error>)
    ensures
        match result {
            Ok(smf) => midly_parse(data@) == Ok::<SmfModel, Seq<char>>(
                SmfModel { timing: smf_timing(smf), tracks: smf_tracks(smf) },
            ),
            Err(e) => midly_parse(data@) == Err::<SmfModel, Seq<char>>(midly_error_message(e)),
        },
{
    midly::Smf::parse(data)
}

/// The header timing of a parsed file (`Timing::Metrical` with its ticks per quarter,
/// or `Timing::Timecode`).
#[verifier::external_body]
fn smf_timing_of(smf: &midly::Smf<'_>) -> (timing: SmfTiming)
    ensures
        timing == smf_timing(*smf),
{
    match smf.header.timing {
        midly::Timing::Metrical(ticks) => SmfTiming::Metrical(ticks.as_int()),
        midly::Timing::Timecode(_, _) => SmfTiming::Timecode,
    }
}

/// The number of tracks of a parsed file (`smf.tracks.len()`).
#[verifier::external_body]
fn smf_track_count(smf: &midly::Smf<'_>) -> (n: usize)
    ensures
        n == smf_tracks(*smf).len(),
{
    smf.tracks.len()
}

/// The number of events of track `t` (`smf.tracks[t].len()`).
#[verifier::external_body]
fn smf_track_len(smf: &midly::Smf<'_>, t: usize) -> (n: usize)
    requires
        t < smf_tracks(*smf).len(),
    ensures
        n == smf_tracks(*smf)[t as int].len(),
{
    smf.tracks[t].len()
}

/// The delta time of event `e` of track `t` (`smf.tracks[t][e].delta`).
#[verifier::external_body]
fn smf_event_delta(smf: &midly::Smf<'_>, t: usize, e: usize) -> (delta: u32)
    requires
        t < smf_tracks(*smf).len(),
        e < smf_tracks(*smf)[t as int].len(),
    ensures
        delta == smf_tracks(*smf)[t as int][e as int].delta,
{
    smf.tracks[t][e].delta.as_int()
}

/// The channel and message of event `e` of track `t` when it is a channel message
/// (`TrackEventKind::Midi`).
#[verifier::external_body]
fn smf_event_midi(smf: &midly::Smf<'_>, t: usize, e: usize) -> (midi: Option<(u8, MidiEventData)>)
    requires
        t < smf_tracks(*smf).len(),
        e < smf_tracks(*smf)[t as int].len(),
    ensures
        midi == match smf_tracks(*smf)[t as int][e as int].kind {
            SmfEventKind::Midi { channel, message } => Some((channel, message)),
            _ => None,
        },
{
    match smf.tracks[t][e].kind {
        TrackEventKind::Midi { channel, message } => Some((channel.as_int(), match message {
            MidiMessage::NoteOff { key, vel } => MidiEventData::NoteOff { key: key.as_int(), vel: vel.as_int() },
            MidiMessage::NoteOn { key, vel } => MidiEventData::NoteOn { key: key.as_int(), vel: vel.as_int() },
            MidiMessage::ProgramChange { program } => MidiEventData::ProgramChange { program: program.as_int() },
            _ => MidiEventData::Other,
        })),
        _ => None,
    }
}

/// The meta message of event `e` of track `t` when it is one (`TrackEventKind::Meta`),
/// its text payloads borrowed from the file.
#[verifier::external_body]
fn smf_event_meta<'a>(smf: &'a midly::Smf<'a>, t: usize, e: usize) -> (meta: Option<MetaEventData<&'a [u8]>>)
    requires
        t < smf_tracks(*smf).len(),
        e < smf_tracks(*smf)[t as int].len(),
    ensures
        match smf_tracks(*smf)[t as int][e as int].kind {
            SmfEventKind::Meta(m) => meta matches Some(x) && x@ == m,
            _ => meta is None,
        },
{
    let TrackEventKind::Meta(message) = smf.tracks[t][e].kind else { return None };
    Some(match message {
        MetaMessage::Text(d) => MetaEventData::Text(d),
        MetaMessage::Copyright(d) => MetaEventData::Copyright(d),
        MetaMessage::TrackName(d) => MetaEventData::TrackName(d),
        MetaMessage::InstrumentName(d) => MetaEventData::InstrumentName(d),
        MetaMessage::Marker(d) => MetaEventData::Marker(d),
        MetaMessage::ProgramName(d) => MetaEventData::ProgramName(d),
        MetaMessage::Tempo(tempo) => MetaEventData::Tempo(tempo.as_int()),
        MetaMessage::TimeSignature(a, b, c, d) => MetaEventData::TimeSignature(a, b, c, d),
        MetaMessage::KeySignature(s, m) => MetaEventData::KeySignature(s, m),
        _ => MetaEventData::Other,
    })
}

/// Reads event `e` of track `t` into plain values.
fn read_event<'a>(smf: &'a midly::Smf<'a>, t: usize, e: usize) -> (event: SmfEvent<Vec<u8>>)
    requires
        t < smf_tracks(*smf).len(),
        e < smf_tracks(*smf)[t as int].len(),
    ensures
        event@ == smf_tracks(*smf)[t as int][e as int],
{
    let delta = smf_event_delta(smf, t, e);
    let kind = match smf_event_midi(smf, t, e) {
        Some((channel, message)) => SmfEventKind::Midi { channel, message },
        None => match smf_event_meta(smf, t, e) {
            Some(meta) => SmfEventKind::Meta(owned_meta(meta)),
            None => SmfEventKind::Other,
        },
    };
    let event = SmfEvent { delta, kind };
    proof {
        let model = smf_tracks(*smf)[t as int][e as int];
        assert(event@.kind == model.kind);
    }
    event
}

/// Reads a parsed file into plain values.
pub fn read_smf<'a>(smf: &'a midly::Smf<'a>) -> (data: SmfData)
    ensures
        data@ == (SmfModel { timing: smf_timing(*smf), tracks: smf_tracks(*smf) }),
{
    let ghost tracks = smf_tracks(*smf);
    let timing = smf_timing_of(smf);
    let count = smf_track_count(smf);
    let mut out: Vec<Vec<SmfEvent<Vec<u8>>>> = Vec::new();
    let mut t: usize = 0;
    while t < count
        invariant
            tracks == smf_tracks(*smf),
            count == tracks.len(),
            t <= count,
            out@.len() == t,
            forall|i: int| 0 <= i < t ==> #[trigger] track_view(out@[i]) == tracks[i],
        decreases count - t,
    {
        let len = smf_track_len(smf, t);
        let mut events: Vec<SmfEvent<Vec<u8>>> = Vec::new();
        let mut e: usize = 0;
        while e < len
            invariant
                tracks == smf_tracks(*smf),
                count == tracks.len(),
                t < count,
                len == tracks[t as int].len(),
                e <= len,
                events@.len() == e,
                forall|i: int| 0 <= i < e ==> #[trigger] events@[i]@ == tracks[t as int][i],
            decreases len - e,
        {
            events.push(read_event(smf, t, e));
            e = e + 1;
        }
        proof {
            assert(track_view(events) == tracks[t as int]);
        }
        out.push(events);
        t = t + 1;
    }
    let data = SmfData { timing, tracks: out };
    proof {
        assert(data@.tracks == tracks);
    }
    data
}

/// Parses the bytes of a Standard MIDI File into plain values.
pub fn parse_smf_data(data: &[u8]) -> (result: Result<SmfData, midly::Error>)
    ensures
        match result {
            Ok(smf) => midly_parse(data@) == Ok::<SmfModel, Seq<char>>(smf@),
            Err(e) => midly_parse(data@) == Err::<SmfModel, Seq<char>>(midly_error_message(e)),
        },
{
    match parse_smf(data) {
        Ok(smf) => Ok(read_smf(&smf)),
        Err(error) => Err(error),
    }
}

} // verus!
