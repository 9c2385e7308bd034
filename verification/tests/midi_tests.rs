use yargle::midi::parser::{chart_overview_of, parse_chart_overview, parse_instrument_notes};
use yargle::midi::types::{MidiEvent, MidiEventKind, MidiFile};

fn track(events: &[u8]) -> Vec<u8> {
    let mut t = b"MTrk".to_vec();
    t.extend_from_slice(&(events.len() as u32).to_be_bytes());
    t.extend_from_slice(events);
    t
}

/// A two-track chart at 480 ticks per quarter: a tempo track (120 BPM, 4/4)
/// and PART GUITAR with an expert single, a close expert single on another
/// fret, an expert chord, an easy note and an overdrive phrase.
fn chart() -> Vec<u8> {
    let mut m = b"MThd".to_vec();
    m.extend_from_slice(&[0, 0, 0, 6, 0, 1, 0, 2, 0x01, 0xE0]);
    m.extend(track(&[
        0x00, 0xFF, 0x51, 0x03, 0x07, 0xA1, 0x20, // tempo 500000
        0x00, 0xFF, 0x58, 0x04, 0x04, 0x02, 0x18, 0x08, // 4/4
        0x00, 0xFF, 0x2F, 0x00,
    ]));
    let mut g = vec![0x00, 0xFF, 0x03, 11];
    g.extend_from_slice(b"PART GUITAR");
    g.extend_from_slice(&[
        0x00, 0x90, 116, 100, // overdrive on at 0
        0x00, 0x90, 96, 100, // expert lane 0 at 0
        0x78, 0x80, 96, 0, // off at 120
        0x00, 0x90, 97, 100, // expert lane 1 at 120
        0x78, 0x90, 97, 0, // off at 240 (velocity 0)
        0x85, 0x50, 0x90, 96, 100, // chord at 960
        0x00, 0x90, 98, 100,
        0x28, 0x80, 116, 0, // overdrive off at 1000
        0x50, 0x80, 96, 0, // chord off at 1080
        0x00, 0x80, 98, 0,
        0x86, 0x48, 0x90, 60, 100, // easy lane 0 at 1920
        0x50, 0x80, 60, 0, // off at 2000
        0x00, 0xFF, 0x2F, 0x00,
    ]);
    m.extend(track(&g));
    m
}

#[test]
fn overview_counts_notes_and_measures() {
    let o = parse_chart_overview(&chart()).unwrap();
    assert_eq!(o.ticks_per_quarter, 480);
    assert_eq!(o.total_measures, 1);
    // 2000 ticks at 500000 microseconds per quarter note
    assert_eq!(o.duration_tick_micros, 2000 * 500000);
    assert_eq!(o.instruments.len(), 1);
    let g = &o.instruments[0];
    assert_eq!(g.name, "Guitar");
    assert_eq!(g.track_name, "PART GUITAR");
    assert_eq!(g.note_counts.expert, 4);
    assert_eq!(g.note_counts.hard, 0);
    assert_eq!(g.note_counts.medium, 0);
    assert_eq!(g.note_counts.easy, 1);
    assert_eq!(g.density, vec![4]);
}

#[test]
fn expert_notes_with_hopos_and_overdrive() {
    let n = parse_instrument_notes(&chart(), "guitar", "expert").unwrap();
    assert_eq!(n.instrument, "guitar");
    assert_eq!(n.difficulty, "expert");
    assert_eq!(n.ticks_per_quarter, 480);
    assert_eq!(n.duration_ticks, 2000);
    assert_eq!(n.tempo_changes.len(), 1);
    assert_eq!(n.tempo_changes[0].micros_per_quarter, 500000);
    assert_eq!(n.time_signatures.len(), 1);
    assert_eq!(n.time_signatures[0].numerator, 4);
    assert_eq!(n.time_signatures[0].denominator, 4);
    let got: Vec<(u32, u32, u8, bool)> =
        n.notes.iter().map(|x| (x.tick, x.duration, x.lane, x.is_hopo)).collect();
    assert_eq!(
        got,
        vec![(0, 120, 0, false), (120, 120, 1, true), (960, 120, 0, false), (960, 120, 2, false)]
    );
    assert_eq!(n.overdrive_phrases.len(), 1);
    assert_eq!((n.overdrive_phrases[0].start_tick, n.overdrive_phrases[0].end_tick), (0, 1000));

    let easy = parse_instrument_notes(&chart(), "Guitar", "easy").unwrap();
    assert_eq!(easy.notes.len(), 1);
    assert_eq!((easy.notes[0].tick, easy.notes[0].duration), (1920, 80));
    let bass = parse_instrument_notes(&chart(), "bass", "hard").unwrap();
    assert!(bass.notes.is_empty());
}

#[test]
fn unknown_parts_are_errors() {
    assert_eq!(
        parse_instrument_notes(&chart(), "guitar", "insane").err().unwrap(),
        "Unknown difficulty: insane"
    );
    assert_eq!(
        parse_instrument_notes(&chart(), "banjo", "expert").err().unwrap(),
        "Unknown instrument: banjo"
    );
    assert!(parse_chart_overview(b"not a midi file").err().unwrap().starts_with("Failed to parse MIDI: "));
}

fn ev(delta: u32, kind: MidiEventKind) -> MidiEvent {
    MidiEvent { delta, kind }
}

#[test]
fn defaults_without_tempo_or_signature() {
    let file = MidiFile {
        ticks_per_quarter: Some(100),
        tracks: vec![vec![
            ev(0, MidiEventKind::TrackName(b"part drums".to_vec())),
            ev(0, MidiEventKind::NoteOn(96, 1)),
            ev(400, MidiEventKind::NoteOn(97, 1)),
            ev(400, MidiEventKind::NoteOn(96, 0)),
            ev(0, MidiEventKind::Other),
        ]],
    };
    let o = chart_overview_of(&file).unwrap();
    // 120 BPM assumed: 800 ticks at 500000 microseconds per quarter note
    assert_eq!(o.duration_tick_micros, 800 * 500000);
    // 4/4 assumed: measures start at 0, 400 and 800
    assert_eq!(o.total_measures, 2);
    assert_eq!(o.instruments[0].name, "Drums");
    assert_eq!(o.instruments[0].density, vec![1, 1]);

    let smpte = MidiFile { ticks_per_quarter: None, tracks: vec![] };
    assert_eq!(chart_overview_of(&smpte).err().unwrap(), "SMPTE timing not supported");
}
