//! Chart data read from Rock Band MIDI files, and the plain model of a
//! standard MIDI file that the chart logic reads.
use vstd::prelude::*;

verus! {

#[derive(Debug, Clone, Copy, PartialEq, Eq, Structural)]
pub struct DifficultyNoteCounts {
    pub easy: u32,
    pub medium: u32,
    pub hard: u32,
    pub expert: u32,
}

#[derive(Debug, Clone)]
pub struct InstrumentSummary {
    pub name: String,
    pub track_name: String,
    pub note_counts: DifficultyNoteCounts,
    /// Notes per measure at Expert difficulty
    pub density: Vec<u16>,
}

pub struct SummarySpec {
    pub name: Seq<char>,
    pub track_name: Seq<char>,
    pub note_counts: DifficultyNoteCounts,
    pub density: Seq<u16>,
}

impl View for InstrumentSummary {
    type V = SummarySpec;

    open spec fn view(&self) -> SummarySpec {
        SummarySpec {
            name: self.name@,
            track_name: self.track_name@,
            note_counts: self.note_counts,
            density: self.density@,
        }
    }
}

#[derive(Debug, Clone, Copy, PartialEq, Eq, Structural)]
pub struct OverdrivePhrase {
    pub start_tick: u32,
    pub end_tick: u32,
}

#[derive(Debug, Clone, Copy, PartialEq, Eq, Structural)]
pub struct ChartNote {
    pub tick: u32,
    pub duration: u32,
    pub lane: u8,
    pub is_hopo: bool,
}

#[derive(Debug, Clone, Copy, PartialEq, Eq, Structural)]
pub struct TimeSigEvent {
    pub tick: u32,
    pub numerator: u8,
    pub denominator: u8,
}

/// A tempo change: from `tick` on, a quarter note lasts
/// `micros_per_quarter` microseconds (60,000,000 / BPM).
#[derive(Debug, Clone, Copy, PartialEq, Eq, Structural)]
pub struct TempoChange {
    pub tick: u32,
    pub micros_per_quarter: u32,
}

/// The chart at a glance. Its length is kept exactly, as the sum over the
/// chart of ticks times microseconds per quarter note: divided by
/// `ticks_per_quarter * 1000` it is the length in milliseconds.
pub struct ChartOverview {
    pub duration_tick_micros: u64,
    pub total_measures: u32,
    pub ticks_per_quarter: u16,
    pub instruments: Vec<InstrumentSummary>,
}

pub struct InstrumentNotes {
    pub instrument: String,
    pub difficulty: String,
    pub ticks_per_quarter: u16,
    pub tempo_changes: Vec<TempoChange>,
    pub time_signatures: Vec<TimeSigEvent>,
    pub notes: Vec<ChartNote>,
    pub overdrive_phrases: Vec<OverdrivePhrase>,
    pub duration_ticks: u32,
}

// ---------------------------------------------------------------- MIDI model

/// What the chart logic reads of a MIDI track event.
pub enum MidiEventKind {
    /// Key and velocity.
    NoteOn(u8, u8),
    /// Key.
    NoteOff(u8),
    /// Microseconds per quarter note.
    Tempo(u32),
    /// Numerator and the power of two of the denominator.
    TimeSignature(u8, u8),
    /// The track name's bytes.
    TrackName(Vec<u8>),
    Other,
}

pub struct MidiEvent {
    /// Ticks since the previous event of the track.
    pub delta: u32,
    pub kind: MidiEventKind,
}

pub struct MidiFile {
    /// Ticks per quarter note, or `None` for SMPTE timing.
    pub ticks_per_quarter: Option<u16>,
    pub tracks: Vec<Vec<MidiEvent>>,
}

pub enum KindSpec {
    NoteOn(u8, u8),
    NoteOff(u8),
    Tempo(u32),
    TimeSignature(u8, u8),
    TrackName(Seq<u8>),
    Other,
}

pub struct EventSpec {
    pub delta: u32,
    pub kind: KindSpec,
}

pub struct MidiSpec {
    pub ticks_per_quarter: Option<u16>,
    pub tracks: Seq<Seq<EventSpec>>,
}

impl View for MidiEvent {
    type V = EventSpec;

    open spec fn view(&self) -> EventSpec {
        EventSpec {
            delta: self.delta,
            kind: match &self.kind {
                MidiEventKind::NoteOn(k, v) => KindSpec::NoteOn(*k, *v),
                MidiEventKind::NoteOff(k) => KindSpec::NoteOff(*k),
                MidiEventKind::Tempo(t) => KindSpec::Tempo(*t),
                MidiEventKind::TimeSignature(n, d) => KindSpec::TimeSignature(*n, *d),
                MidiEventKind::TrackName(b) => KindSpec::TrackName(b@),
                MidiEventKind::Other => KindSpec::Other,
            },
        }
    }
}

pub open spec fn track_view(t: Seq<MidiEvent>) -> Seq<EventSpec> {
    t.map_values(|e: MidiEvent| e@)
}

impl View for MidiFile {
    type V = MidiSpec;

    open spec fn view(&self) -> MidiSpec {
        MidiSpec {
            ticks_per_quarter: self.ticks_per_quarter,
            tracks: self.tracks@.map_values(|t: Vec<MidiEvent>| track_view(t@)),
        }
    }
}

} // verus!
