//! Chart overviews and per-instrument note lists of Rock Band MIDI files.
use vstd::prelude::*;
use midly::{MetaMessage, MidiMessage, Timing, TrackEventKind};
use crate::midi::types::{
    ChartNote, ChartOverview, DifficultyNoteCounts, EventSpec, InstrumentNotes, InstrumentSummary,
    KindSpec, MidiEvent, MidiEventKind, MidiFile, MidiSpec, OverdrivePhrase, SummarySpec,
    TempoChange, TimeSigEvent, track_view,
};
use crate::stfs::bytes::{from_utf8_lossy, utf8_lossy};
use crate::text::{
    chars_eq_ignore_ascii_case, chars_eq_str, chars_of, eq_ignore_ascii_case, extend_chars,
    str_to_uppercase, string_from_chars, uppercase,
};

verus! {

// ---------------------------------------------------------------- reading the file

/// What `midly::Smf::parse` makes of a file, in the library's model; `None`
/// where midly refuses it.
pub uninterp spec fn smf_parsed(bytes: Seq<u8>) -> Option<MidiSpec>;

/// The ranges midly's own types give: 7-bit keys and velocities, 24-bit
/// tempos and 28-bit delta times.
pub open spec fn midi_ranges(m: MidiSpec) -> bool {
    forall|t: int, i: int|
        0 <= t < m.tracks.len() && 0 <= i < m.tracks[t].len() ==> event_in_range(
            #[trigger] m.tracks[t][i],
        )
}

pub open spec fn event_in_range(e: EventSpec) -> bool {
    &&& e.delta < 0x1000_0000
    &&& match e.kind {
        KindSpec::NoteOn(k, v) => k < 128 && v < 128,
        KindSpec::NoteOff(k) => k < 128,
        KindSpec::Tempo(us) => us < 0x100_0000,
        _ => true,
    }
}

#[verifier::external_type_specification]
#[verifier::external_body]
pub struct ExSmf<'a>(midly::Smf<'a>);

/// The timing of a parsed file: ticks per quarter note, or `None` for SMPTE
/// timing.
pub uninterp spec fn smf_timing(s: midly::Smf) -> Option<u16>;

/// The tracks of a parsed file, each event in the library's model.
pub uninterp spec fn smf_tracks(s: midly::Smf) -> Seq<Seq<EventSpec>>;

/// `midly::Smf::parse`. What it parses `bytes` to, in the library's model,
/// is named `smf_parsed`; the timing and the tracks of the parsed file it
/// returns are that. The text of a parse error is midly's and is not stated
/// here.
#[verifier::external_body]
fn smf_parse(bytes: &[u8]) -> (r: Result<midly::Smf, String>)
    ensures
        match r {
            Ok(s) => smf_parsed(bytes@) == Some((MidiSpec { ticks_per_quarter: smf_timing(s), tracks: smf_tracks(s) })),
            Err(_) => smf_parsed(bytes@) is None,
        },
{
    midly::Smf::parse(bytes).map_err(|e| e.to_string())
}

/// The header timing of a parsed file (`Smf::header.timing`): ticks per
/// quarter note for metrical timing, `None` for SMPTE.
#[verifier::external_body]
fn smf_ticks_per_quarter(s: &midly::Smf) -> (r: Option<u16>)
    ensures
        r == smf_timing(*s),
{
    match s.header.timing {
        Timing::Metrical(t) => Some(t.as_int()),
        _ => None,
    }
}

/// The number of tracks of a parsed file (`Smf::tracks.len()`).
#[verifier::external_body]
fn smf_track_count(s: &midly::Smf) -> (r: usize)
    ensures
        r == smf_tracks(*s).len(),
{
    s.tracks.len()
}

/// The number of events of track `t` of a parsed file.
#[verifier::external_body]
fn smf_track_len(s: &midly::Smf, t: usize) -> (r: usize)
    requires
        t < smf_tracks(*s).len(),
    ensures
        r == smf_tracks(*s)[t as int].len(),
{
    s.tracks[t].len()
}

/// Event `i` of track `t` of a parsed file, in the library's model: its
/// delta time and, for note-on, note-off, tempo, time-signature and
/// track-name events, their fields; every other event is `Other`. Its values
/// fit midly's integer types (7-bit keys and velocities, 24-bit tempos,
/// 28-bit delta times).
#[verifier::external_body]
fn smf_event(s: &midly::Smf, t: usize, i: usize) -> (r: MidiEvent)
    requires
        t < smf_tracks(*s).len(),
        i < smf_tracks(*s)[t as int].len(),
    ensures
        r@ == smf_tracks(*s)[t as int][i as int],
        event_in_range(r@),
{
    let e = &s.tracks[t][i];
    let kind = match e.kind {
        TrackEventKind::Midi { message: MidiMessage::NoteOn { key, vel }, .. } => MidiEventKind::NoteOn(key.as_int(), vel.as_int()),
        TrackEventKind::Midi { message: MidiMessage::NoteOff { key, .. }, .. } => MidiEventKind::NoteOff(key.as_int()),
        TrackEventKind::Meta(MetaMessage::Tempo(us)) => MidiEventKind::Tempo(us.as_int()),
        TrackEventKind::Meta(MetaMessage::TimeSignature(n, d, _, _)) => MidiEventKind::TimeSignature(n, d),
        TrackEventKind::Meta(MetaMessage::TrackName(b)) => MidiEventKind::TrackName(b.to_vec()),
        _ => MidiEventKind::Other,
    };
    MidiEvent { delta: e.delta.as_int(), kind }
}

/// Parses a MIDI file into the library's model.
fn parse_smf(bytes: &[u8]) -> (r: Result<MidiFile, String>)
    ensures
        match r {
            Ok(f) => smf_parsed(bytes@) == Some(f@) && midi_ranges(f@),
            Err(_) => smf_parsed(bytes@) is None,
        },
{
    let smf = match smf_parse(bytes) {
        Ok(s) => s,
        Err(e) => {
            return Err(e);
        },
    };
    let ghost ts = smf_tracks(smf);
    let n = smf_track_count(&smf);
    let mut tracks: Vec<Vec<MidiEvent>> = Vec::new();
    let mut t: usize = 0;
    while t < n
        invariant
            n == ts.len(),
            ts == smf_tracks(smf),
            t <= n,
            tracks@.len() == t,
            forall|j: int| 0 <= j < t ==> track_view(#[trigger] tracks@[j]@) == ts[j],
            forall|j: int, k: int|
                0 <= j < t && 0 <= k < tracks@[j]@.len() ==> event_in_range(#[trigger] tracks@[j]@[k]@),
        decreases n - t,
    {
        let len = smf_track_len(&smf, t);
        let mut events: Vec<MidiEvent> = Vec::new();
        let mut i: usize = 0;
        while i < len
            invariant
                n == ts.len(),
                ts == smf_tracks(smf),
                t < n,
                len == ts[t as int].len(),
                i <= len,
                events@.len() == i,
                forall|k: int| 0 <= k < i ==> (#[trigger] events@[k])@ == ts[t as int][k],
                forall|k: int| 0 <= k < i ==> event_in_range(#[trigger] events@[k]@),
            decreases len - i,
        {
            events.push(smf_event(&smf, t, i));
            i = i + 1;
        }
        assert(track_view(events@) =~= ts[t as int]);
        tracks.push(events);
        t = t + 1;
    }
    let f = MidiFile { ticks_per_quarter: smf_ticks_per_quarter(&smf), tracks };
    assert(f@.tracks =~= ts);
    assert forall|j: int, k: int|
        0 <= j < f@.tracks.len() && 0 <= k < f@.tracks[j].len() implies event_in_range(
        #[trigger] f@.tracks[j][k],
    ) by {
        assert(f@.tracks[j] == track_view(f.tracks@[j]@));
        assert(f@.tracks[j][k] == f.tracks@[j]@[k]@);
    }
    Ok(f)
}

// ---------------------------------------------------------------- ticks, tempo map, time signatures

/// The tick of the last event of `t`: the sum of its delta times.
pub open spec fn track_ticks(t: Seq<EventSpec>) -> int
    decreases t.len(),
{
    if t.len() == 0 {
        0
    } else {
        track_ticks(t.drop_last()) + t.last().delta
    }
}

pub open spec fn pow2(d: nat) -> nat
    decreases d,
{
    if d == 0 {
        1
    } else {
        2 * pow2((d - 1) as nat)
    }
}

/// The inputs the chart logic takes: every track ends by tick 2^32 - 1 and
/// every time signature's denominator is at most 2^7.
pub open spec fn ticks_fit(m: MidiSpec) -> bool {
    &&& forall|t: int| 0 <= t < m.tracks.len() ==> track_ticks(#[trigger] m.tracks[t]) <= u32::MAX
    &&& forall|t: int, i: int|
        0 <= t < m.tracks.len() && 0 <= i < m.tracks[t].len() ==> sig_in_range(
            #[trigger] m.tracks[t][i],
        )
}

pub open spec fn sig_in_range(e: EventSpec) -> bool {
    match e.kind {
        KindSpec::TimeSignature(_, d) => d < 8,
        _ => true,
    }
}

/// The tempo changes of a track, each at the tick where it occurs.
pub open spec fn track_tempos(t: Seq<EventSpec>) -> Seq<TempoChange>
    decreases t.len(),
{
    if t.len() == 0 {
        Seq::empty()
    } else {
        let prev = track_tempos(t.drop_last());
        match t.last().kind {
            KindSpec::Tempo(us) => prev.push(
                TempoChange { tick: track_ticks(t) as u32, micros_per_quarter: us },
            ),
            _ => prev,
        }
    }
}

/// The time signatures of a track, each at the tick where it occurs.
pub open spec fn track_sigs(t: Seq<EventSpec>) -> Seq<TimeSigEvent>
    decreases t.len(),
{
    if t.len() == 0 {
        Seq::empty()
    } else {
        let prev = track_sigs(t.drop_last());
        match t.last().kind {
            KindSpec::TimeSignature(n, d) => prev.push(
                TimeSigEvent {
                    tick: track_ticks(t) as u32,
                    numerator: n,
                    denominator: pow2(d as nat) as u8,
                },
            ),
            _ => prev,
        }
    }
}

pub open spec fn all_tempos(ts: Seq<Seq<EventSpec>>) -> Seq<TempoChange>
    decreases ts.len(),
{
    if ts.len() == 0 {
        Seq::empty()
    } else {
        all_tempos(ts.drop_last()) + track_tempos(ts.last())
    }
}

pub open spec fn all_sigs(ts: Seq<Seq<EventSpec>>) -> Seq<TimeSigEvent>
    decreases ts.len(),
{
    if ts.len() == 0 {
        Seq::empty()
    } else {
        all_sigs(ts.drop_last()) + track_sigs(ts.last())
    }
}

/// The tempo changes of all tracks in file order; 120 BPM where there is none.
pub open spec fn tempo_map(ts: Seq<Seq<EventSpec>>) -> Seq<TempoChange> {
    if all_tempos(ts).len() == 0 {
        seq![TempoChange { tick: 0, micros_per_quarter: 500000 }]
    } else {
        all_tempos(ts)
    }
}

/// The time signatures of all tracks in file order; 4/4 where there is none.
pub open spec fn sig_map(ts: Seq<Seq<EventSpec>>) -> Seq<TimeSigEvent> {
    if all_sigs(ts).len() == 0 {
        seq![TimeSigEvent { tick: 0, numerator: 4, denominator: 4 }]
    } else {
        all_sigs(ts)
    }
}

/// The tick of the last event of the longest track.
pub open spec fn max_ticks(ts: Seq<Seq<EventSpec>>) -> int
    decreases ts.len(),
{
    if ts.len() == 0 {
        0
    } else {
        let m = max_ticks(ts.drop_last());
        let t = track_ticks(ts.last());
        if t > m {
            t
        } else {
            m
        }
    }
}

proof fn lemma_track_ticks_prefix(t: Seq<EventSpec>, i: int, j: int)
    requires
        0 <= i <= j <= t.len(),
    ensures
        track_ticks(t.take(i)) <= track_ticks(t.take(j)),
    decreases j - i,
{
    if i < j {
        lemma_track_ticks_prefix(t, i, j - 1);
        assert(t.take(j).drop_last() =~= t.take(j - 1));
    }
}

proof fn lemma_max_ticks_bound(ts: Seq<Seq<EventSpec>>)
    requires
        forall|t: int| 0 <= t < ts.len() ==> track_ticks(#[trigger] ts[t]) <= u32::MAX,
    ensures
        0 <= max_ticks(ts) <= u32::MAX,
    decreases ts.len(),
{
    if ts.len() > 0 {
        lemma_max_ticks_bound(ts.drop_last());
        assert(track_ticks(ts[ts.len() - 1]) <= u32::MAX);
        lemma_track_ticks_nonneg(ts.last());
    }
}

proof fn lemma_track_ticks_nonneg(t: Seq<EventSpec>)
    ensures
        track_ticks(t) >= 0,
    decreases t.len(),
{
    if t.len() > 0 {
        lemma_track_ticks_nonneg(t.drop_last());
    }
}

fn pow2_u8(d: u8) -> (r: u8)
    requires
        d < 8,
    ensures
        r == pow2(d as nat),
{
    let mut r: u8 = 1;
    let mut i: u8 = 0;
    while i < d
        invariant
            i <= d < 8,
            r == pow2(i as nat),
            r <= 128,
        decreases d - i,
    {
        assert(pow2((i + 1) as nat) == 2 * pow2(i as nat));
        assert(i < 7 ==> pow2(i as nat) <= 64) by {
            lemma_pow2_small(i as nat);
        }
        r = r * 2;
        i = i + 1;
    }
    r
}

proof fn lemma_pow2_small(i: nat)
    requires
        i < 7,
    ensures
        pow2(i) <= 64,
{
    reveal_with_fuel(pow2, 7);
    if i == 0 {
    } else if i == 1 {
    } else if i == 2 {
    } else if i == 3 {
    } else if i == 4 {
    } else if i == 5 {
    } else {
        assert(i == 6);
    }
}

pub struct TrackScan {
    pub tempos: Vec<TempoChange>,
    pub sigs: Vec<TimeSigEvent>,
    pub max_tick: u32,
}

/// The tempo changes, time signatures and last tick of all tracks.
fn scan_tracks(file: &MidiFile) -> (r: TrackScan)
    requires
        ticks_fit(file@),
    ensures
        r.tempos@ == all_tempos(file@.tracks),
        r.sigs@ == all_sigs(file@.tracks),
        r.max_tick == max_ticks(file@.tracks),
{
    let ghost ts = file@.tracks;
    let mut tempos: Vec<TempoChange> = Vec::new();
    let mut sigs: Vec<TimeSigEvent> = Vec::new();
    let mut max_tick: u32 = 0;
    let mut ti: usize = 0;
    while ti < file.tracks.len()
        invariant
            ts == file@.tracks,
            ts.len() == file.tracks@.len(),
            ticks_fit(file@),
            ti <= ts.len(),
            tempos@ == all_tempos(ts.take(ti as int)),
            sigs@ == all_sigs(ts.take(ti as int)),
            max_tick == max_ticks(ts.take(ti as int)),
        decreases ts.len() - ti,
    {
        let track = &file.tracks[ti];
        let ghost t = ts[ti as int];
        assert(t == track_view(track@));
        assert(track_ticks(t) <= u32::MAX);
        let ghost tempos0 = tempos@;
        let ghost sigs0 = sigs@;
        let mut tick: u32 = 0;
        let mut ei: usize = 0;
        assert(t.take(0) =~= Seq::<EventSpec>::empty());
        while ei < track.len()
            invariant
                t == track_view(track@),
                t.len() == track@.len(),
                track_ticks(t) <= u32::MAX,
                forall|i: int| 0 <= i < t.len() ==> sig_in_range(#[trigger] t[i]),
                ei <= t.len(),
                tick == track_ticks(t.take(ei as int)),
                tempos@ == tempos0 + track_tempos(t.take(ei as int)),
                sigs@ == sigs0 + track_sigs(t.take(ei as int)),
            decreases t.len() - ei,
        {
            let ev = &track[ei];
            assert(t.take(ei + 1).drop_last() =~= t.take(ei as int));
            assert(t.take(ei + 1).last() == t[ei as int]);
            assert(t[ei as int] == ev@);
            proof {
                lemma_track_ticks_prefix(t, ei + 1, t.len() as int);
                assert(t.take(t.len() as int) =~= t);
            }
            tick = tick + ev.delta;
            match &ev.kind {
                MidiEventKind::Tempo(us) => {
                    tempos.push(TempoChange { tick, micros_per_quarter: *us });
                    assert(tempos@ =~= tempos0 + track_tempos(t.take(ei + 1)));
                },
                MidiEventKind::TimeSignature(n, d) => {
                    assert(sig_in_range(t[ei as int]));
                    let den = pow2_u8(*d);
                    sigs.push(TimeSigEvent { tick, numerator: *n, denominator: den });
                    assert(sigs@ =~= sigs0 + track_sigs(t.take(ei + 1)));
                },
                _ => {},
            }
            ei = ei + 1;
        }
        assert(t.take(t.len() as int) =~= t);
        assert(ts.take(ti + 1).drop_last() =~= ts.take(ti as int));
        assert(ts.take(ti + 1).last() == t);
        assert(tempos@ =~= all_tempos(ts.take(ti + 1)));
        assert(sigs@ =~= all_sigs(ts.take(ti + 1)));
        if tick > max_tick {
            max_tick = tick;
        }
        ti = ti + 1;
    }
    assert(ts.take(ts.len() as int) =~= ts);
    TrackScan { tempos, sigs, max_tick }
}

// ---------------------------------------------------------------- measures

/// The index of the time signature in force at `tick`, searching on from
/// `idx` while the next signature starts at or before `tick`.
pub open spec fn sig_index(sigs: Seq<TimeSigEvent>, idx: int, tick: int) -> int
    decreases sigs.len() - idx,
{
    if 0 <= idx && idx + 1 < sigs.len() && sigs[idx + 1].tick <= tick {
        sig_index(sigs, idx + 1, tick)
    } else {
        idx
    }
}

/// Ticks in a measure of signature `s`: tpq * 4 * numerator / denominator.
pub open spec fn measure_length(tpq: u16, s: TimeSigEvent) -> int {
    tpq as int * 4 * s.numerator as int / s.denominator as int
}

/// The measure starts from `tick` on, up to `max`: each measure is as long
/// as the signature in force at its start says; a measure of no ticks ends
/// the list.
pub open spec fn boundaries_from(sigs: Seq<TimeSigEvent>, tpq: u16, max: int, tick: int, idx: int) -> Seq<
    u32,
>
    decreases (if tick > max {
        0
    } else {
        max + 1 - tick
    }),
{
    if tick > max || tick < 0 {
        Seq::empty()
    } else {
        let i = sig_index(sigs, idx, tick);
        let len = measure_length(tpq, sigs[i]);
        if len <= 0 {
            seq![tick as u32]
        } else {
            seq![tick as u32] + boundaries_from(sigs, tpq, max, tick + len, i)
        }
    }
}

pub open spec fn measure_boundaries(sigs: Seq<TimeSigEvent>, tpq: u16, max: int) -> Seq<u32> {
    boundaries_from(sigs, tpq, max, 0, 0)
}

pub open spec fn sigs_valid(sigs: Seq<TimeSigEvent>) -> bool {
    &&& sigs.len() > 0
    &&& forall|i: int| 0 <= i < sigs.len() ==> (#[trigger] sigs[i]).denominator > 0
}

proof fn lemma_sig_index_range(sigs: Seq<TimeSigEvent>, idx: int, tick: int)
    requires
        0 <= idx < sigs.len(),
    ensures
        idx <= sig_index(sigs, idx, tick) < sigs.len(),
    decreases sigs.len() - idx,
{
    if idx + 1 < sigs.len() && sigs[idx + 1].tick <= tick {
        lemma_sig_index_range(sigs, idx + 1, tick);
    }
}

proof fn lemma_boundaries_from(sigs: Seq<TimeSigEvent>, tpq: u16, max: int, tick: int, idx: int)
    requires
        0 <= tick,
        max <= u32::MAX,
        0 <= idx < sigs.len(),
    ensures
        ({
            let b = boundaries_from(sigs, tpq, max, tick, idx);
            &&& forall|i: int| 0 <= i < b.len() ==> tick <= #[trigger] b[i] <= max
            &&& forall|i: int, j: int| 0 <= i < j < b.len() ==> #[trigger] b[i] < #[trigger] b[j]
            &&& tick <= max ==> b.len() > 0 && b[0] == tick
        }),
    decreases (if tick > max {
        0
    } else {
        max + 1 - tick
    }),
{
    if tick <= max {
        let i = sig_index(sigs, idx, tick);
        lemma_sig_index_range(sigs, idx, tick);
        let len = measure_length(tpq, sigs[i]);
        let b = boundaries_from(sigs, tpq, max, tick, idx);
        if len > 0 {
            let rest = boundaries_from(sigs, tpq, max, tick + len, i);
            lemma_boundaries_from(sigs, tpq, max, tick + len, i);
            assert(b == seq![tick as u32] + rest);
            assert forall|x: int| 0 <= x < b.len() implies tick <= #[trigger] b[x] <= max by {
                if x > 0 {
                    assert(b[x] == rest[x - 1]);
                }
            }
            assert forall|x: int, y: int| 0 <= x < y < b.len() implies #[trigger] b[x] < #[trigger] b[y] by {
                assert(b[y] == rest[y - 1]);
                if x > 0 {
                    assert(b[x] == rest[x - 1]);
                }
            }
        }
    }
}

/// The measure starts of a chart begin at tick 0 and increase, none past the
/// last tick.
pub proof fn lemma_measure_boundaries(sigs: Seq<TimeSigEvent>, tpq: u16, max_tick: u32)
    requires
        sigs_valid(sigs),
    ensures
        ({
            let b = measure_boundaries(sigs, tpq, max_tick as int);
            &&& b.len() > 0 && b[0] == 0
            &&& forall|i: int| 0 <= i < b.len() ==> #[trigger] b[i] <= max_tick
            &&& forall|i: int, j: int| 0 <= i < j < b.len() ==> #[trigger] b[i] < #[trigger] b[j]
        }),
{
    lemma_boundaries_from(sigs, tpq, max_tick as int, 0, 0);
}

fn compute_measure_boundaries(time_sigs: &[TimeSigEvent], tpq: u16, max_tick: u32) -> (r: Vec<u32>)
    requires
        sigs_valid(time_sigs@),
    ensures
        r@ == measure_boundaries(time_sigs@, tpq, max_tick as int),
{
    let ghost sigs = time_sigs@;
    let ghost total = measure_boundaries(sigs, tpq, max_tick as int);
    let mut boundaries: Vec<u32> = Vec::new();
    let mut tick: u64 = 0;
    let mut sig_idx: usize = 0;
    let mut done = false;
    while tick <= max_tick as u64 && !done
        invariant
            sigs == time_sigs@,
            sigs_valid(sigs),
            sig_idx < sigs.len(),
            total == measure_boundaries(sigs, tpq, max_tick as int),
            done ==> boundaries@ == total,
            !done ==> boundaries@ + boundaries_from(sigs, tpq, max_tick as int, tick as int, sig_idx as int) == total,
            tick <= max_tick as int + 0x1_0000_0000,
        decreases (if done || tick > max_tick { 0 } else { max_tick as int + 1 - tick }),
    {
        let ghost before = boundaries@;
        let ghost idx0 = sig_idx as int;
        boundaries.push(tick as u32);
        while sig_idx + 1 < time_sigs.len() && time_sigs[sig_idx + 1].tick as u64 <= tick
            invariant
                sigs == time_sigs@,
                sig_idx < time_sigs.len(),
                0 <= idx0 <= sig_idx,
                sig_index(sigs, sig_idx as int, tick as int) == sig_index(sigs, idx0, tick as int),
            decreases sigs.len() - sig_idx,
        {
            sig_idx = sig_idx + 1;
        }
        let sig = time_sigs[sig_idx];
        assert(sig.denominator > 0);
        assert((tpq as u32) * 4 * (sig.numerator as u32) <= 65535 * 4 * 255) by (nonlinear_arith)
            requires
                tpq <= 65535,
                sig.numerator <= 255,
        ;
        let len = (tpq as u32) * 4 * (sig.numerator as u32) / (sig.denominator as u32);
        if len == 0 {
            assert(before.push(tick as u32) =~= before + seq![tick as u32]);
            done = true;
        } else {
            let ghost rest = boundaries_from(sigs, tpq, max_tick as int, tick + len, sig_idx as int);
            assert(before + (seq![tick as u32] + rest) =~= boundaries@ + rest);
            tick = tick + len as u64;
        }
    }
    if !done {
        assert(boundaries@ + Seq::<u32>::empty() =~= boundaries@);
    }
    boundaries
}

// ---------------------------------------------------------------- length

/// Ticks times microseconds per quarter note from tick `prev` up to `tick`,
/// walking the tempo map from change `i` on, with `us` in force at `prev`.
pub open spec fn duration_from(tempos: Seq<TempoChange>, tick: int, i: int, prev: int, us: int) -> int
    decreases tempos.len() - i,
{
    if i < 0 || i >= tempos.len() || tempos[i].tick >= tick {
        (tick - prev) * us
    } else if tempos[i].tick > prev {
        (tempos[i].tick - prev) * us + duration_from(
            tempos,
            tick,
            i + 1,
            tempos[i].tick as int,
            tempos[i].micros_per_quarter as int,
        )
    } else {
        duration_from(tempos, tick, i + 1, prev, tempos[i].micros_per_quarter as int)
    }
}

/// The length of a chart that ends at `tick`, as ticks times microseconds per
/// quarter note, starting at 120 BPM.
pub open spec fn duration_tick_micros(tempos: Seq<TempoChange>, tick: int) -> int {
    duration_from(tempos, tick, 0, 0, 500000)
}

/// Whether the tempo changes come in order of tick.
pub open spec fn tempos_sorted(ts: Seq<TempoChange>) -> bool {
    forall|a: int, b: int| 0 <= a <= b < ts.len() ==> (#[trigger] ts[a]).tick <= (#[trigger] ts[b]).tick
}

proof fn lemma_duration_push_before(
    ts: Seq<TempoChange>,
    c: TempoChange,
    tick: int,
    i: int,
    prev: int,
    us: int,
)
    requires
        0 <= i <= ts.len(),
        tempos_sorted(ts),
        forall|j: int| 0 <= j < ts.len() ==> (#[trigger] ts[j]).tick <= c.tick,
        prev <= c.tick,
        c.tick < tick,
    ensures
        duration_from(ts.push(c), tick, i, prev, us) == duration_from(ts, c.tick as int, i, prev, us) + (tick
            - c.tick) * c.micros_per_quarter,
    decreases ts.len() - i,
{
    let tp = ts.push(c);
    if i == ts.len() {
        assert(tp[i] == c);
        if c.tick > prev {
            assert(duration_from(tp, tick, i + 1, c.tick as int, c.micros_per_quarter as int) == (tick - c.tick)
                * c.micros_per_quarter);
        } else {
            assert(prev == c.tick);
            assert((c.tick - prev) * us == 0) by (nonlinear_arith)
                requires
                    prev == c.tick,
            ;
            assert((tick - prev) * (c.micros_per_quarter as int) == (tick - c.tick) * c.micros_per_quarter);
            assert(duration_from(tp, tick, i + 1, prev, c.micros_per_quarter as int) == (tick - prev)
                * c.micros_per_quarter);
            assert(duration_from(ts, c.tick as int, i, prev, us) == (c.tick - prev) * us);
        }
    } else {
        assert(tp[i] == ts[i]);
        let t = ts[i];
        if t.tick > prev {
            lemma_duration_push_before(ts, c, tick, i + 1, t.tick as int, t.micros_per_quarter as int);
            if t.tick == c.tick {
                if i + 1 < ts.len() {
                    assert(ts[i].tick <= ts[i + 1].tick);
                }
                assert((c.tick - t.tick) * (t.micros_per_quarter as int) == 0) by (nonlinear_arith)
                    requires
                        t.tick == c.tick,
                ;
                assert(duration_from(ts, c.tick as int, i + 1, t.tick as int, t.micros_per_quarter as int) == 0);
            }
        } else {
            lemma_duration_push_before(ts, c, tick, i + 1, prev, t.micros_per_quarter as int);
            if t.tick == c.tick {
                assert(prev == c.tick);
                assert((c.tick - prev) * us == 0) by (nonlinear_arith)
                    requires
                        prev == c.tick,
                ;
                if i + 1 < ts.len() {
                    assert(ts[i].tick <= ts[i + 1].tick);
                }
                assert((c.tick - prev) * (t.micros_per_quarter as int) == 0) by (nonlinear_arith)
                    requires
                        prev == c.tick,
                ;
            }
        }
    }
}

proof fn lemma_duration_push_after(ts: Seq<TempoChange>, c: TempoChange, tick: int, i: int, prev: int, us: int)
    requires
        0 <= i <= ts.len(),
        c.tick >= tick,
    ensures
        duration_from(ts.push(c), tick, i, prev, us) == duration_from(ts, tick, i, prev, us),
    decreases ts.len() - i,
{
    let tp = ts.push(c);
    if i < ts.len() {
        assert(tp[i] == ts[i]);
        let t = ts[i];
        if t.tick > prev {
            lemma_duration_push_after(ts, c, tick, i + 1, t.tick as int, t.micros_per_quarter as int);
        } else {
            lemma_duration_push_after(ts, c, tick, i + 1, prev, t.micros_per_quarter as int);
        }
    } else {
        assert(tp[i] == c);
    }
}

/// The length of a chart is the sum, over the segments of its tempo map, of
/// the segment's ticks times the microseconds per quarter note of the tempo
/// in force there, 500000 before the first change: without tempo changes a
/// chart ending at tick `n` is `n * 500000` long, and a tempo change added
/// after the others adds, for a chart ending after it, the ticks from the
/// change to the end at the new tempo, where the old tempo counted up to the
/// change; a chart ending no later than the change is as long as before. So
/// with a single change at tick 0 of `T` microseconds per quarter note, a
/// chart ending at tick `n` is `n * T` long.
pub proof fn lemma_chart_length(ts: Seq<TempoChange>, c: TempoChange, tick: int)
    requires
        tempos_sorted(ts),
        forall|j: int| 0 <= j < ts.len() ==> (#[trigger] ts[j]).tick <= c.tick,
        tick >= 0,
    ensures
        duration_tick_micros(Seq::empty(), tick) == tick * 500000,
        duration_tick_micros(ts.push(c), tick) == (if c.tick < tick {
            duration_tick_micros(ts, c.tick as int) + (tick - c.tick) * c.micros_per_quarter
        } else {
            duration_tick_micros(ts, tick)
        }),
        c.tick == 0 ==> duration_tick_micros(seq![c], tick) == tick * c.micros_per_quarter,
{
    if c.tick < tick {
        lemma_duration_push_before(ts, c, tick, 0, 0, 500000);
    } else {
        lemma_duration_push_after(ts, c, tick, 0, 0, 500000);
    }
    if c.tick == 0 {
        let e = Seq::<TempoChange>::empty();
        assert(e.push(c) =~= seq![c]);
        if 0 < tick {
            lemma_duration_push_before(e, c, tick, 0, 0, 500000);
        } else {
            lemma_duration_push_after(e, c, tick, 0, 0, 500000);
        }
    }
}

pub open spec fn tempos_in_range(tempos: Seq<TempoChange>) -> bool {
    forall|i: int| 0 <= i < tempos.len() ==> (#[trigger] tempos[i]).micros_per_quarter < 0x100_0000
}

fn ticks_to_duration(tick: u32, tempo_changes: &[TempoChange]) -> (r: u64)
    requires
        tempos_in_range(tempo_changes@),
    ensures
        r == duration_tick_micros(tempo_changes@, tick as int),
{
    let ghost tempos = tempo_changes@;
    let mut total: u64 = 0;
    let mut prev: u32 = 0;
    let mut us: u32 = 500000;
    let mut i: usize = 0;
    while i < tempo_changes.len() && tempo_changes[i].tick < tick
        invariant
            tempos == tempo_changes@,
            tempos_in_range(tempos),
            i <= tempos.len(),
            prev <= tick,
            us < 0x100_0000,
            total <= prev as int * 0x100_0000,
            total + duration_from(tempos, tick as int, i as int, prev as int, us as int)
                == duration_tick_micros(tempos, tick as int),
        decreases tempos.len() - i,
    {
        let tc = tempo_changes[i];
        if tc.tick > prev {
            let gap = (tc.tick - prev) as u64;
            assert(gap * us <= gap * 0x100_0000) by (nonlinear_arith)
                requires
                    us < 0x100_0000,
            ;
            assert(gap * 0x100_0000 + prev as int * 0x100_0000 == tc.tick as int * 0x100_0000)
                by (nonlinear_arith)
                requires
                    gap == tc.tick - prev,
            ;
            total = total + gap * us as u64;
            prev = tc.tick;
        }
        us = tc.micros_per_quarter;
        i = i + 1;
    }
    let gap = (tick - prev) as u64;
    assert(gap * us <= gap * 0x100_0000) by (nonlinear_arith)
        requires
            us < 0x100_0000,
    ;
    assert(gap * 0x100_0000 + prev as int * 0x100_0000 == tick as int * 0x100_0000)
        by (nonlinear_arith)
        requires
            gap == tick - prev,
    ;
    total + gap * us as u64
}

// ---------------------------------------------------------------- density

/// How many of `b` are at most `t`.
pub open spec fn count_le(b: Seq<u32>, t: u32) -> int
    decreases b.len(),
{
    if b.len() == 0 {
        0
    } else {
        count_le(b.drop_last(), t) + if b.last() <= t {
            1int
        } else {
            0
        }
    }
}

/// The measure that tick `t` falls in, among the measures that start at `b`:
/// the last that starts at or before it, within the measures that `b` closes.
pub open spec fn measure_index(b: Seq<u32>, t: u32) -> int {
    let i = count_le(b, t) - 1;
    let last = b.len() - 2;
    if i < 0 {
        0
    } else if i > last {
        last
    } else {
        i
    }
}

/// How many of `ticks` fall in measure `m`.
pub open spec fn notes_in_measure(ticks: Seq<u32>, b: Seq<u32>, m: int) -> int
    decreases ticks.len(),
{
    if ticks.len() == 0 {
        0
    } else {
        notes_in_measure(ticks.drop_last(), b, m) + if measure_index(b, ticks.last()) == m {
            1int
        } else {
            0
        }
    }
}

/// Notes per measure, each count capped at 65535; none where `b` closes no
/// measure.
pub open spec fn density(ticks: Seq<u32>, b: Seq<u32>) -> Seq<u16> {
    if b.len() < 2 {
        Seq::empty()
    } else {
        Seq::new(
            (b.len() - 1) as nat,
            |m: int|
                if notes_in_measure(ticks, b, m) > 65535 {
                    65535u16
                } else {
                    notes_in_measure(ticks, b, m) as u16
                },
        )
    }
}

fn count_at_most(b: &[u32], t: u32) -> (r: usize)
    ensures
        r == count_le(b@, t),
{
    let mut n: usize = 0;
    let mut i: usize = 0;
    while i < b.len()
        invariant
            i <= b@.len(),
            n == count_le(b@.take(i as int), t),
            n <= i,
        decreases b@.len() - i,
    {
        assert(b@.take(i + 1).drop_last() =~= b@.take(i as int));
        if b[i] <= t {
            n = n + 1;
        }
        i = i + 1;
    }
    assert(b@.take(b@.len() as int) =~= b@);
    n
}

fn compute_density(note_ticks: &[u32], measure_boundaries: &[u32]) -> (r: Vec<u16>)
    ensures
        r@ == density(note_ticks@, measure_boundaries@),
{
    if measure_boundaries.len() < 2 {
        return Vec::new();
    }
    let ghost b = measure_boundaries@;
    let num = measure_boundaries.len() - 1;
    let mut counts: Vec<u16> = Vec::new();
    let mut m: usize = 0;
    while m < num
        invariant
            m <= num,
            counts@.len() == m,
            forall|j: int| 0 <= j < m ==> #[trigger] counts@[j] == 0,
        decreases num - m,
    {
        counts.push(0);
        m = m + 1;
    }
    let mut k: usize = 0;
    while k < note_ticks.len()
        invariant
            b == measure_boundaries@,
            num == b.len() - 1,
            num >= 1,
            k <= note_ticks@.len(),
            counts@.len() == num,
            forall|j: int|
                0 <= j < num ==> #[trigger] counts@[j] as int == if notes_in_measure(
                    note_ticks@.take(k as int),
                    b,
                    j,
                ) > 65535 {
                    65535
                } else {
                    notes_in_measure(note_ticks@.take(k as int), b, j)
                },
        decreases note_ticks@.len() - k,
    {
        let t = note_ticks[k];
        let c = count_at_most(measure_boundaries, t);
        let idx: usize = if c == 0 {
            0
        } else if c - 1 > num - 1 {
            num - 1
        } else {
            c - 1
        };
        assert(idx == measure_index(b, t));
        assert(note_ticks@.take(k + 1).drop_last() =~= note_ticks@.take(k as int));
        assert(note_ticks@.take(k + 1).last() == t);
        let old_count = counts[idx];
        let new_count = if old_count < 65535 {
            old_count + 1
        } else {
            65535
        };
        counts.set(idx, new_count);
        k = k + 1;
        assert forall|j: int| 0 <= j < num implies #[trigger] counts@[j] as int == if notes_in_measure(
            note_ticks@.take(k as int),
            b,
            j,
        ) > 65535 {
            65535
        } else {
            notes_in_measure(note_ticks@.take(k as int), b, j)
        } by {
            assert(notes_in_measure(note_ticks@.take(k as int), b, j) == notes_in_measure(
                note_ticks@.take(k - 1),
                b,
                j,
            ) + if measure_index(b, t) == j {
                1int
            } else {
                0
            });
        }
    }
    assert(note_ticks@.take(note_ticks@.len() as int) =~= note_ticks@);
    assert(counts@ =~= density(note_ticks@, b));
    counts
}

// ---------------------------------------------------------------- instrument tracks

/// The notes struck in a track: key and tick of each note-on of non-zero
/// velocity, in order.
pub open spec fn note_ons(t: Seq<EventSpec>) -> Seq<(u8, u32)>
    decreases t.len(),
{
    if t.len() == 0 {
        Seq::empty()
    } else {
        let prev = note_ons(t.drop_last());
        match t.last().kind {
            KindSpec::NoteOn(k, v) => if v > 0 {
                prev.push((k, track_ticks(t) as u32))
            } else {
                prev
            },
            _ => prev,
        }
    }
}

/// How many of the notes have a key in `lo..=hi`.
pub open spec fn count_keys(ons: Seq<(u8, u32)>, lo: u8, hi: u8) -> int
    decreases ons.len(),
{
    if ons.len() == 0 {
        0
    } else {
        count_keys(ons.drop_last(), lo, hi) + if lo <= ons.last().0 <= hi {
            1int
        } else {
            0
        }
    }
}

/// The ticks of the notes with a key in `lo..=hi`.
pub open spec fn key_ticks(ons: Seq<(u8, u32)>, lo: u8, hi: u8) -> Seq<u32>
    decreases ons.len(),
{
    if ons.len() == 0 {
        Seq::empty()
    } else {
        let prev = key_ticks(ons.drop_last(), lo, hi);
        if lo <= ons.last().0 <= hi {
            prev.push(ons.last().1)
        } else {
            prev
        }
    }
}

/// The bytes of the first track-name event of a track.
pub open spec fn track_name_bytes(t: Seq<EventSpec>) -> Option<Seq<u8>>
    decreases t.len(),
{
    if t.len() == 0 {
        None
    } else {
        match t[0].kind {
            KindSpec::TrackName(b) => Some(b),
            _ => track_name_bytes(t.drop_first()),
        }
    }
}

/// A track's name, upper-cased; empty where it has none.
pub open spec fn track_title(t: Seq<EventSpec>) -> Seq<char> {
    uppercase(
        match track_name_bytes(t) {
            Some(b) => utf8_lossy(b),
            None => Seq::empty(),
        },
    )
}

/// The MIDI track names of the instruments, in the order they are tried.
pub open spec fn rb_track(k: int) -> Seq<char> {
    if k == 0 {
        "PART GUITAR"@
    } else if k == 1 {
        "PART BASS"@
    } else if k == 2 {
        "PART DRUMS"@
    } else if k == 3 {
        "PART VOCALS"@
    } else {
        "PART KEYS"@
    }
}

/// The display name of each instrument.
pub open spec fn display_name(k: int) -> Seq<char> {
    if k == 0 {
        "Guitar"@
    } else if k == 1 {
        "Bass"@
    } else if k == 2 {
        "Drums"@
    } else if k == 3 {
        "Vocals"@
    } else {
        "Keys"@
    }
}

/// The instrument whose track name is `title`.
pub open spec fn instrument_of(title: Seq<char>) -> Option<int> {
    if title == rb_track(0) {
        Some(0)
    } else if title == rb_track(1) {
        Some(1)
    } else if title == rb_track(2) {
        Some(2)
    } else if title == rb_track(3) {
        Some(3)
    } else if title == rb_track(4) {
        Some(4)
    } else {
        None
    }
}

pub open spec fn track_summary(t: Seq<EventSpec>, k: int, b: Seq<u32>) -> SummarySpec {
    let ons = note_ons(t);
    SummarySpec {
        name: display_name(k),
        track_name: rb_track(k),
        note_counts: DifficultyNoteCounts {
            easy: count_keys(ons, 60, 64) as u32,
            medium: count_keys(ons, 72, 76) as u32,
            hard: count_keys(ons, 84, 88) as u32,
            expert: count_keys(ons, 96, 100) as u32,
        },
        density: density(key_ticks(ons, 96, 100), b),
    }
}

/// One summary for each instrument track, in file order.
pub open spec fn overview_instruments(ts: Seq<Seq<EventSpec>>, b: Seq<u32>) -> Seq<SummarySpec>
    decreases ts.len(),
{
    if ts.len() == 0 {
        Seq::empty()
    } else {
        overview_instruments(ts.drop_last(), b) + match instrument_of(track_title(ts.last())) {
            Some(k) => seq![track_summary(ts.last(), k, b)],
            None => Seq::empty(),
        }
    }
}

pub struct OverviewSpec {
    pub duration_tick_micros: int,
    pub total_measures: u32,
    pub ticks_per_quarter: u16,
    pub instruments: Seq<SummarySpec>,
}

impl View for ChartOverview {
    type V = OverviewSpec;

    open spec fn view(&self) -> OverviewSpec {
        OverviewSpec {
            duration_tick_micros: self.duration_tick_micros as int,
            total_measures: self.total_measures,
            ticks_per_quarter: self.ticks_per_quarter,
            instruments: self.instruments@.map_values(|i: InstrumentSummary| i@),
        }
    }
}

/// The chart overview of a MIDI file with metrical timing: its length, the
/// number of measures and a summary of each instrument track.
pub open spec fn overview_of(m: MidiSpec) -> Result<OverviewSpec, Seq<char>> {
    match m.ticks_per_quarter {
        None => Err("SMPTE timing not supported"@),
        Some(tpq) => {
            let ts = m.tracks;
            let max = max_ticks(ts);
            let b = measure_boundaries(sig_map(ts), tpq, max);
            Ok(
                OverviewSpec {
                    duration_tick_micros: duration_tick_micros(tempo_map(ts), max),
                    total_measures: if b.len() == 0 {
                        0
                    } else {
                        (b.len() - 1) as u32
                    },
                    ticks_per_quarter: tpq,
                    instruments: overview_instruments(ts, b),
                },
            )
        },
    }
}

fn find_track_name(track: &Vec<MidiEvent>) -> (s: String)
    ensures
        s@ == match track_name_bytes(track_view(track@)) {
            Some(b) => utf8_lossy(b),
            None => Seq::<char>::empty(),
        },
{
    let ghost t = track_view(track@);
    let mut i: usize = 0;
    assert(t.skip(0) =~= t);
    while i < track.len()
        invariant
            t == track_view(track@),
            i <= t.len(),
            track_name_bytes(t.skip(i as int)) == track_name_bytes(t),
        decreases t.len() - i,
    {
        assert(t.skip(i as int)[0] == t[i as int]);
        assert(t.skip(i as int).drop_first() =~= t.skip(i + 1));
        match &track[i].kind {
            MidiEventKind::TrackName(b) => {
                return from_utf8_lossy(b.as_slice());
            },
            _ => {},
        }
        i = i + 1;
    }
    assert(t.skip(i as int) =~= Seq::<EventSpec>::empty());
    String::new()
}

/// A track's name, upper-cased.
fn track_title_of(track: &Vec<MidiEvent>) -> (r: Vec<char>)
    ensures
        r@ == track_title(track_view(track@)),
{
    let name = find_track_name(track);
    let up = str_to_uppercase(name.as_str());
    chars_of(up.as_str())
}

fn instrument_index(title: &[char]) -> (r: Option<usize>)
    ensures
        match r {
            Some(k) => instrument_of(title@) == Some(k as int) && k < 5,
            None => instrument_of(title@) is None,
        },
{
    if chars_eq_str(title, "PART GUITAR") {
        Some(0)
    } else if chars_eq_str(title, "PART BASS") {
        Some(1)
    } else if chars_eq_str(title, "PART DRUMS") {
        Some(2)
    } else if chars_eq_str(title, "PART VOCALS") {
        Some(3)
    } else if chars_eq_str(title, "PART KEYS") {
        Some(4)
    } else {
        None
    }
}

fn rb_track_text(k: usize) -> (s: &'static str)
    requires
        k < 5,
    ensures
        s@ == rb_track(k as int),
{
    if k == 0 {
        "PART GUITAR"
    } else if k == 1 {
        "PART BASS"
    } else if k == 2 {
        "PART DRUMS"
    } else if k == 3 {
        "PART VOCALS"
    } else {
        "PART KEYS"
    }
}

fn display_name_text(k: usize) -> (s: &'static str)
    requires
        k < 5,
    ensures
        s@ == display_name(k as int),
{
    if k == 0 {
        "Guitar"
    } else if k == 1 {
        "Bass"
    } else if k == 2 {
        "Drums"
    } else if k == 3 {
        "Vocals"
    } else {
        "Keys"
    }
}

/// The struck notes of a track.
fn collect_note_ons(track: &Vec<MidiEvent>) -> (r: Vec<(u8, u32)>)
    requires
        track_ticks(track_view(track@)) <= u32::MAX,
    ensures
        r@ == note_ons(track_view(track@)),
{
    let ghost t = track_view(track@);
    let mut r: Vec<(u8, u32)> = Vec::new();
    let mut tick: u32 = 0;
    let mut i: usize = 0;
    while i < track.len()
        invariant
            t == track_view(track@),
            track_ticks(t) <= u32::MAX,
            i <= t.len(),
            tick == track_ticks(t.take(i as int)),
            r@ == note_ons(t.take(i as int)),
        decreases t.len() - i,
    {
        assert(t.take(i + 1).drop_last() =~= t.take(i as int));
        assert(t.take(i + 1).last() == t[i as int]);
        proof {
            lemma_track_ticks_prefix(t, i + 1, t.len() as int);
            assert(t.take(t.len() as int) =~= t);
        }
        tick = tick + track[i].delta;
        match &track[i].kind {
            MidiEventKind::NoteOn(k, v) => {
                if *v > 0 {
                    r.push((*k, tick));
                }
            },
            _ => {},
        }
        i = i + 1;
    }
    assert(t.take(t.len() as int) =~= t);
    r
}

fn count_in_range(ons: &Vec<(u8, u32)>, lo: u8, hi: u8) -> (r: u32)
    ensures
        r == count_keys(ons@, lo, hi) as u32,
{
    let mut n: u64 = 0;
    let mut i: usize = 0;
    while i < ons.len()
        invariant
            i <= ons@.len(),
            n == count_keys(ons@.take(i as int), lo, hi),
            n <= i,
        decreases ons@.len() - i,
    {
        assert(ons@.take(i + 1).drop_last() =~= ons@.take(i as int));
        let (k, _) = ons[i];
        if lo <= k && k <= hi {
            n = n + 1;
        }
        i = i + 1;
    }
    assert(ons@.take(ons@.len() as int) =~= ons@);
    n as u32
}

fn ticks_in_range(ons: &Vec<(u8, u32)>, lo: u8, hi: u8) -> (r: Vec<u32>)
    ensures
        r@ == key_ticks(ons@, lo, hi),
{
    let mut r: Vec<u32> = Vec::new();
    let mut i: usize = 0;
    while i < ons.len()
        invariant
            i <= ons@.len(),
            r@ == key_ticks(ons@.take(i as int), lo, hi),
        decreases ons@.len() - i,
    {
        assert(ons@.take(i + 1).drop_last() =~= ons@.take(i as int));
        let (k, t) = ons[i];
        if lo <= k && k <= hi {
            r.push(t);
        }
        i = i + 1;
    }
    assert(ons@.take(ons@.len() as int) =~= ons@);
    r
}

fn summarize_track(track: &Vec<MidiEvent>, k: usize, boundaries: &Vec<u32>) -> (r: InstrumentSummary)
    requires
        k < 5,
        track_ticks(track_view(track@)) <= u32::MAX,
    ensures
        r@ == track_summary(track_view(track@), k as int, boundaries@),
{
    let ons = collect_note_ons(track);
    let note_counts = DifficultyNoteCounts {
        easy: count_in_range(&ons, 60, 64),
        medium: count_in_range(&ons, 72, 76),
        hard: count_in_range(&ons, 84, 88),
        expert: count_in_range(&ons, 96, 100),
    };
    let expert_ticks = ticks_in_range(&ons, 96, 100);
    let density = compute_density(expert_ticks.as_slice(), boundaries.as_slice());
    InstrumentSummary {
        name: String::from_str(display_name_text(k)),
        track_name: String::from_str(rb_track_text(k)),
        note_counts,
        density,
    }
}

pub open spec fn summaries_view(v: Seq<InstrumentSummary>) -> Seq<SummarySpec> {
    v.map_values(|i: InstrumentSummary| i@)
}

/// The chart overview of a parsed MIDI file.
pub fn chart_overview_of(file: &MidiFile) -> (r: Result<ChartOverview, String>)
    requires
        ticks_fit(file@),
        midi_ranges(file@),
    ensures
        match r {
            Ok(o) => overview_of(file@) == Ok::<OverviewSpec, Seq<char>>(o@),
            Err(e) => overview_of(file@) == Err::<OverviewSpec, Seq<char>>(e@),
        },
{
    let tpq = match file.ticks_per_quarter {
        Some(t) => t,
        None => {
            return Err(String::from_str("SMPTE timing not supported"));
        },
    };
    let ghost ts = file@.tracks;
    let scan = scan_tracks(file);
    let mut tempos = scan.tempos;
    let mut sigs = scan.sigs;
    if tempos.len() == 0 {
        tempos.push(TempoChange { tick: 0, micros_per_quarter: 500000 });
    }
    if sigs.len() == 0 {
        sigs.push(TimeSigEvent { tick: 0, numerator: 4, denominator: 4 });
    }
    assert(tempos@ == tempo_map(ts));
    assert(sigs@ == sig_map(ts));
    proof {
        lemma_tempos_in_range(ts);
        lemma_sigs_valid(ts);
        lemma_max_ticks_bound(ts);
    }
    let boundaries = compute_measure_boundaries(sigs.as_slice(), tpq, scan.max_tick);
    let total_measures: u32 = if boundaries.len() == 0 {
        0
    } else {
        proof {
            lemma_boundaries_len(sigs@, tpq, scan.max_tick as int, 0, 0);
        }
        (boundaries.len() - 1) as u32
    };
    let duration = ticks_to_duration(scan.max_tick, tempos.as_slice());
    let mut instruments: Vec<InstrumentSummary> = Vec::new();
    let mut ti: usize = 0;
    while ti < file.tracks.len()
        invariant
            ts == file@.tracks,
            ts.len() == file.tracks@.len(),
            ticks_fit(file@),
            ti <= ts.len(),
            summaries_view(instruments@) == overview_instruments(ts.take(ti as int), boundaries@),
        decreases ts.len() - ti,
    {
        let track = &file.tracks[ti];
        assert(ts[ti as int] == track_view(track@));
        assert(track_ticks(ts[ti as int]) <= u32::MAX);
        let title = track_title_of(track);
        let ghost before = summaries_view(instruments@);
        assert(ts.take(ti + 1).drop_last() =~= ts.take(ti as int));
        assert(ts.take(ti + 1).last() == ts[ti as int]);
        match instrument_index(title.as_slice()) {
            Some(k) => {
                let summary = summarize_track(track, k, &boundaries);
                instruments.push(summary);
                assert(summaries_view(instruments@) =~= before.push(summary@));
            },
            None => {
                assert(before + Seq::<SummarySpec>::empty() =~= before);
            },
        }
        ti = ti + 1;
    }
    assert(ts.take(ts.len() as int) =~= ts);
    let o = ChartOverview {
        duration_tick_micros: duration,
        total_measures,
        ticks_per_quarter: tpq,
        instruments,
    };
    assert(o@.instruments =~= overview_instruments(ts, boundaries@));
    Ok(o)
}

proof fn lemma_boundaries_len(sigs: Seq<TimeSigEvent>, tpq: u16, max: int, tick: int, idx: int)
    requires
        0 <= max <= u32::MAX,
        0 <= tick,
    ensures
        boundaries_from(sigs, tpq, max, tick, idx).len() <= if tick > max {
            0
        } else {
            max + 1 - tick
        },
    decreases (if tick > max {
        0
    } else {
        max + 1 - tick
    }),
{
    if tick <= max {
        let i = sig_index(sigs, idx, tick);
        let len = measure_length(tpq, sigs[i]);
        if len > 0 {
            lemma_boundaries_len(sigs, tpq, max, tick + len, i);
        }
    }
}

proof fn lemma_tempos_in_range(ts: Seq<Seq<EventSpec>>)
    requires
        forall|t: int, i: int|
            0 <= t < ts.len() && 0 <= i < ts[t].len() ==> event_in_range(#[trigger] ts[t][i]),
    ensures
        tempos_in_range(tempo_map(ts)),
    decreases ts.len(),
{
    lemma_all_tempos_in_range(ts);
}

proof fn lemma_all_tempos_in_range(ts: Seq<Seq<EventSpec>>)
    requires
        forall|t: int, i: int|
            0 <= t < ts.len() && 0 <= i < ts[t].len() ==> event_in_range(#[trigger] ts[t][i]),
    ensures
        tempos_in_range(all_tempos(ts)),
    decreases ts.len(),
{
    if ts.len() > 0 {
        let init = ts.drop_last();
        assert forall|t: int, i: int| 0 <= t < init.len() && 0 <= i < init[t].len() implies event_in_range(
            #[trigger] init[t][i],
        ) by {
            assert(init[t] == ts[t]);
        }
        lemma_all_tempos_in_range(init);
        let last = ts.last();
        assert forall|i: int| 0 <= i < last.len() implies event_in_range(#[trigger] last[i]) by {
            assert(ts[ts.len() - 1][i] == last[i]);
        }
        lemma_track_tempos_in_range(last);
    }
}

proof fn lemma_track_tempos_in_range(t: Seq<EventSpec>)
    requires
        forall|i: int| 0 <= i < t.len() ==> event_in_range(#[trigger] t[i]),
    ensures
        tempos_in_range(track_tempos(t)),
    decreases t.len(),
{
    if t.len() > 0 {
        lemma_track_tempos_in_range(t.drop_last());
        assert(event_in_range(t[t.len() - 1]));
    }
}

proof fn lemma_sigs_valid(ts: Seq<Seq<EventSpec>>)
    requires
        forall|t: int, i: int|
            0 <= t < ts.len() && 0 <= i < ts[t].len() ==> sig_in_range(#[trigger] ts[t][i]),
    ensures
        sigs_valid(sig_map(ts)),
{
    lemma_all_sigs_valid(ts);
}

proof fn lemma_all_sigs_valid(ts: Seq<Seq<EventSpec>>)
    requires
        forall|t: int, i: int|
            0 <= t < ts.len() && 0 <= i < ts[t].len() ==> sig_in_range(#[trigger] ts[t][i]),
    ensures
        forall|i: int| 0 <= i < all_sigs(ts).len() ==> (#[trigger] all_sigs(ts)[i]).denominator > 0,
    decreases ts.len(),
{
    if ts.len() > 0 {
        let init = ts.drop_last();
        assert forall|t: int, i: int| 0 <= t < init.len() && 0 <= i < init[t].len() implies sig_in_range(
            #[trigger] init[t][i],
        ) by {
            assert(init[t] == ts[t]);
        }
        lemma_all_sigs_valid(init);
        let last = ts.last();
        assert forall|i: int| 0 <= i < last.len() implies sig_in_range(#[trigger] last[i]) by {
            assert(ts[ts.len() - 1][i] == last[i]);
        }
        lemma_track_sigs_valid(last);
        let a = all_sigs(init);
        let b = track_sigs(last);
        assert(all_sigs(ts) == a + b);
        assert forall|i: int| 0 <= i < all_sigs(ts).len() implies (#[trigger] all_sigs(ts)[i]).denominator
            > 0 by {
            if i < a.len() {
                assert(all_sigs(ts)[i] == a[i]);
            } else {
                assert(all_sigs(ts)[i] == b[i - a.len()]);
            }
        }
    }
}

proof fn lemma_track_sigs_valid(t: Seq<EventSpec>)
    requires
        forall|i: int| 0 <= i < t.len() ==> sig_in_range(#[trigger] t[i]),
    ensures
        forall|i: int| 0 <= i < track_sigs(t).len() ==> (#[trigger] track_sigs(t)[i]).denominator > 0,
    decreases t.len(),
{
    if t.len() > 0 {
        lemma_track_sigs_valid(t.drop_last());
        assert(sig_in_range(t[t.len() - 1]));
        let prev = track_sigs(t.drop_last());
        match t.last().kind {
            KindSpec::TimeSignature(n, d) => {
                lemma_pow2_u8(d as nat);
                let e = TimeSigEvent {
                    tick: track_ticks(t) as u32,
                    numerator: n,
                    denominator: pow2(d as nat) as u8,
                };
                assert(e.denominator > 0);
                assert(track_sigs(t) == prev.push(e));
                assert forall|i: int| 0 <= i < track_sigs(t).len() implies (#[trigger] track_sigs(
                    t,
                )[i]).denominator > 0 by {
                    if i < prev.len() {
                        assert(track_sigs(t)[i] == prev[i]);
                    }
                }
            },
            _ => {
                assert(track_sigs(t) == prev);
            },
        }
    }
}

proof fn lemma_pow2_u8(d: nat)
    requires
        d < 8,
    ensures
        1 <= pow2(d) <= 128,
{
    reveal_with_fuel(pow2, 8);
    if d == 0 {
    } else if d == 1 {
    } else if d == 2 {
    } else if d == 3 {
    } else if d == 4 {
    } else if d == 5 {
    } else if d == 6 {
    } else {
        assert(d == 7);
    }
}

// ---------------------------------------------------------------- from bytes

/// Whether the chart logic takes `file`: `ticks_fit`, checked.
fn fits_tick_range(file: &MidiFile) -> (b: bool)
    ensures
        b == ticks_fit(file@),
{
    let ghost ts = file@.tracks;
    let mut ti: usize = 0;
    while ti < file.tracks.len()
        invariant
            ts == file@.tracks,
            ts.len() == file.tracks@.len(),
            ti <= ts.len(),
            forall|t: int| 0 <= t < ti ==> track_ticks(#[trigger] ts[t]) <= u32::MAX,
            forall|t: int, i: int|
                0 <= t < ti && 0 <= i < ts[t].len() ==> sig_in_range(#[trigger] ts[t][i]),
        decreases ts.len() - ti,
    {
        let track = &file.tracks[ti];
        let ghost t = ts[ti as int];
        assert(t == track_view(track@));
        let mut sum: u64 = 0;
        let mut i: usize = 0;
        assert(t.take(0) =~= Seq::<EventSpec>::empty());
        while i < track.len()
            invariant
                ts == file@.tracks,
                ti < ts.len(),
                t == ts[ti as int],
                t == track_view(track@),
                i <= t.len(),
                sum == track_ticks(t.take(i as int)),
                sum <= u32::MAX,
                forall|j: int| 0 <= j < i ==> sig_in_range(#[trigger] t[j]),
            decreases t.len() - i,
        {
            assert(t.take(i + 1).drop_last() =~= t.take(i as int));
            assert(t.take(i + 1).last() == t[i as int]);
            sum = sum + track[i].delta as u64;
            if sum > u32::MAX as u64 {
                proof {
                    lemma_track_ticks_prefix(t, i + 1, t.len() as int);
                    assert(t.take(t.len() as int) =~= t);
                    assert(track_ticks(file@.tracks[ti as int]) > u32::MAX);
                }
                return false;
            }
            match &track[i].kind {
                MidiEventKind::TimeSignature(_, d) => {
                    if *d >= 8 {
                        assert(t[i as int] == track[i as int]@);
                        assert(!sig_in_range(ts[ti as int][i as int]));
                        return false;
                    }
                },
                _ => {},
            }
            i = i + 1;
        }
        assert(t.take(t.len() as int) =~= t);
        ti = ti + 1;
    }
    true
}

pub open spec fn parse_error(e: Seq<char>) -> Seq<char> {
    "Failed to parse MIDI: "@ + e
}

fn parse_failure(e: &String) -> (r: String)
    ensures
        r@ == parse_error(e@),
{
    let mut v = chars_of("Failed to parse MIDI: ");
    let c = chars_of(e.as_str());
    extend_chars(&mut v, c.as_slice());
    string_from_chars(v.as_slice())
}

pub open spec fn range_error() -> Seq<char> {
    "MIDI file exceeds the supported tick range"@
}

/// Parses a MIDI file and reads its chart overview. A file that midly
/// refuses gives "Failed to parse MIDI: " and midly's error; a file whose
/// ticks do not fit `ticks_fit` gives the range error.
pub fn parse_chart_overview(midi_bytes: &[u8]) -> (r: Result<ChartOverview, String>)
    ensures
        smf_parsed(midi_bytes@) is None ==> r is Err && exists|e: Seq<char>| r->Err_0@ == parse_error(e),
        smf_parsed(midi_bytes@) matches Some(m) ==> {
            &&& !ticks_fit(m) ==> r is Err && r->Err_0@ == range_error()
            &&& ticks_fit(m) ==> match r {
                Ok(o) => overview_of(m) == Ok::<OverviewSpec, Seq<char>>(o@),
                Err(e) => overview_of(m) == Err::<OverviewSpec, Seq<char>>(e@),
            }
        },
{
    let file = match parse_smf(midi_bytes) {
        Ok(f) => f,
        Err(e) => {
            return Err(parse_failure(&e));
        },
    };
    if !fits_tick_range(&file) {
        return Err(String::from_str("MIDI file exceeds the supported tick range"));
    }
    chart_overview_of(&file)
}

// ---------------------------------------------------------------- notes of one instrument

/// Note range (lane 0 to lane 4) of each difficulty.
pub open spec fn difficulty_low(difficulty: Seq<char>) -> Option<u8> {
    if difficulty == "expert"@ {
        Some(96u8)
    } else if difficulty == "hard"@ {
        Some(84u8)
    } else if difficulty == "medium"@ {
        Some(72u8)
    } else if difficulty == "easy"@ {
        Some(60u8)
    } else {
        None
    }
}

/// The lowest and highest note of a difficulty's five lanes.
pub open spec fn difficulty_lanes(difficulty: Seq<char>) -> Option<(u8, u8)> {
    match difficulty_low(difficulty) {
        Some(lo) => Some((lo, (lo + 4) as u8)),
        None => None,
    }
}

/// The note that forces HOPOs at a difficulty.
pub open spec fn hopo_note(difficulty: Seq<char>) -> Option<u8> {
    match difficulty_low(difficulty) {
        Some(lo) => Some((lo + 5) as u8),
        None => None,
    }
}

/// The HOPO-forcing note of a difficulty is the one just above its five
/// lanes, and only `expert`, `hard`, `medium` and `easy` have lanes.
pub proof fn lemma_hopo_note_above_lanes(difficulty: Seq<char>)
    ensures
        hopo_note(difficulty) == match difficulty_lanes(difficulty) {
            Some((lo, hi)) => Some((lo + 5) as u8),
            None => None,
        },
        difficulty_lanes(difficulty) matches Some((lo, hi)) ==> hi == lo + 4,
        difficulty_lanes(difficulty) is Some <==> (difficulty == "expert"@ || difficulty == "hard"@ || difficulty
            == "medium"@ || difficulty == "easy"@),
{
}

/// The lowest and highest note of each difficulty's five lanes.
fn difficulty_range(difficulty: &str) -> (r: Option<(u8, u8)>)
    ensures
        r == difficulty_lanes(difficulty@),
{
    let d = chars_of(difficulty);
    if chars_eq_str(d.as_slice(), "expert") {
        Some((96, 100))
    } else if chars_eq_str(d.as_slice(), "hard") {
        Some((84, 88))
    } else if chars_eq_str(d.as_slice(), "medium") {
        Some((72, 76))
    } else if chars_eq_str(d.as_slice(), "easy") {
        Some((60, 64))
    } else {
        None
    }
}

/// The note that forces HOPOs at a difficulty: one above its fifth lane.
fn hopo_force_note(difficulty: &str) -> (r: Option<u8>)
    ensures
        r == hopo_note(difficulty@),
{
    let d = chars_of(difficulty);
    if chars_eq_str(d.as_slice(), "expert") {
        Some(101)
    } else if chars_eq_str(d.as_slice(), "hard") {
        Some(89)
    } else if chars_eq_str(d.as_slice(), "medium") {
        Some(77)
    } else if chars_eq_str(d.as_slice(), "easy") {
        Some(65)
    } else {
        None
    }
}

/// Notes closer than this many ticks to the previous note may be HOPOs: a
/// third of a quarter note, plus one.
pub open spec fn hopo_gap(tpq: u16) -> u32 {
    (tpq as u32 / 3 + 1) as u32
}

fn hopo_threshold(tpq: u16) -> (r: u32)
    ensures
        r == hopo_gap(tpq),
{
    (tpq as u32) / 3 + 1
}

/// The instrument whose display name is `name`, ignoring ASCII case.
pub open spec fn instrument_by_name(name: Seq<char>) -> Option<int> {
    if eq_ignore_ascii_case(display_name(0), name) {
        Some(0)
    } else if eq_ignore_ascii_case(display_name(1), name) {
        Some(1)
    } else if eq_ignore_ascii_case(display_name(2), name) {
        Some(2)
    } else if eq_ignore_ascii_case(display_name(3), name) {
        Some(3)
    } else if eq_ignore_ascii_case(display_name(4), name) {
        Some(4)
    } else {
        None
    }
}

fn find_instrument(instrument: &str) -> (r: Option<usize>)
    ensures
        match r {
            Some(k) => instrument_by_name(instrument@) == Some(k as int) && k < 5,
            None => instrument_by_name(instrument@) is None,
        },
{
    let name = chars_of(instrument);
    let mut k: usize = 0;
    while k < 5
        invariant
            k <= 5,
            name@ == instrument@,
            forall|j: int| 0 <= j < k ==> !eq_ignore_ascii_case(#[trigger] display_name(j), name@),
        decreases 5 - k,
    {
        let d = chars_of(display_name_text(k));
        if chars_eq_ignore_ascii_case(d.as_slice(), name.as_slice()) {
            return Some(k);
        }
        k = k + 1;
    }
    None
}

pub const OVERDRIVE_NOTE: u8 = 116;

/// What reading an instrument track has gathered so far.
pub struct ScanSpec {
    /// The start tick of the sounding note of each lane.
    pub active: Seq<Option<u32>>,
    /// Whether the HOPO force marker is on.
    pub hopo_on: bool,
    pub od_start: Option<u32>,
    pub notes: Seq<ChartNote>,
    /// Ticks of notes struck while the force marker was on.
    pub force: Seq<u32>,
    pub od: Seq<OverdrivePhrase>,
}

pub open spec fn scan_start() -> ScanSpec {
    ScanSpec {
        active: Seq::new(5, |i: int| None::<u32>),
        hopo_on: false,
        od_start: None,
        notes: Seq::empty(),
        force: Seq::empty(),
        od: Seq::empty(),
    }
}

pub open spec fn sat_sub(a: u32, b: u32) -> u32 {
    if a >= b {
        (a - b) as u32
    } else {
        0
    }
}

/// Ends the sounding note of `lane`, if any, at `tick`.
pub open spec fn close_lane(st: ScanSpec, lane: int, tick: u32) -> ScanSpec {
    match st.active[lane] {
        Some(start) => ScanSpec {
            active: st.active.update(lane, None),
            notes: st.notes.push(
                ChartNote { tick: start, duration: sat_sub(tick, start), lane: lane as u8, is_hopo: false },
            ),
            ..st
        },
        None => st,
    }
}

/// Ends the open overdrive phrase, if any, at `tick`.
pub open spec fn close_overdrive(st: ScanSpec, tick: u32) -> ScanSpec {
    match st.od_start {
        Some(start) => ScanSpec {
            od_start: None,
            od: st.od.push(OverdrivePhrase { start_tick: start, end_tick: tick }),
            ..st
        },
        None => st,
    }
}

/// One event of the instrument track at `tick`. A note-on of velocity 0
/// counts as a note-off.
pub open spec fn scan_step(st: ScanSpec, kind: KindSpec, tick: u32, lo: u8, hopo: u8, drums: bool) -> ScanSpec {
    match kind {
        KindSpec::NoteOn(k, v) => {
            let s1 = if k == OVERDRIVE_NOTE {
                if v > 0 {
                    ScanSpec { od_start: Some(tick), ..st }
                } else {
                    close_overdrive(st, tick)
                }
            } else {
                st
            };
            let s2 = if !drums && k == hopo {
                ScanSpec { hopo_on: v > 0, ..s1 }
            } else {
                s1
            };
            if lo <= k <= lo + 4 {
                if v > 0 {
                    ScanSpec {
                        active: s2.active.update(k - lo, Some(tick)),
                        force: if s2.hopo_on {
                            s2.force.push(tick)
                        } else {
                            s2.force
                        },
                        ..s2
                    }
                } else {
                    close_lane(s2, k - lo, tick)
                }
            } else {
                s2
            }
        },
        KindSpec::NoteOff(k) => {
            let s1 = if k == OVERDRIVE_NOTE {
                close_overdrive(st, tick)
            } else {
                st
            };
            let s2 = if lo <= k <= lo + 4 {
                close_lane(s1, k - lo, tick)
            } else {
                s1
            };
            if k == hopo {
                ScanSpec { hopo_on: false, ..s2 }
            } else {
                s2
            }
        },
        _ => st,
    }
}

pub open spec fn scan_events(t: Seq<EventSpec>, lo: u8, hopo: u8, drums: bool) -> ScanSpec
    decreases t.len(),
{
    if t.len() == 0 {
        scan_start()
    } else {
        scan_step(
            scan_events(t.drop_last(), lo, hopo, drums),
            t.last().kind,
            track_ticks(t) as u32,
            lo,
            hopo,
            drums,
        )
    }
}

/// The notes still sounding at the end of the track, ended there, lane by
/// lane from `lane` on.
pub open spec fn closing_notes(active: Seq<Option<u32>>, end: u32, lane: int) -> Seq<ChartNote>
    decreases 5 - lane,
{
    if lane >= 5 || lane < 0 {
        Seq::empty()
    } else {
        let rest = closing_notes(active, end, lane + 1);
        match active[lane] {
            Some(start) => seq![
                ChartNote { tick: start, duration: sat_sub(end, start), lane: lane as u8, is_hopo: false },
            ] + rest,
            None => rest,
        }
    }
}

/// The gathered notes, overdrive phrases and forced ticks of a track once
/// it has been read to its end.
pub open spec fn track_notes(t: Seq<EventSpec>, lo: u8, hopo: u8, drums: bool) -> (
    Seq<ChartNote>,
    Seq<OverdrivePhrase>,
    Seq<u32>,
) {
    let st = scan_events(t, lo, hopo, drums);
    let end = track_ticks(t) as u32;
    (
        st.notes + closing_notes(st.active, end, 0),
        match st.od_start {
            Some(start) => st.od.push(OverdrivePhrase { start_tick: start, end_tick: end }),
            None => st.od,
        },
        st.force,
    )
}

/// `n` placed after every note of `sorted` whose tick is not later.
pub open spec fn insert_by_tick(sorted: Seq<ChartNote>, n: ChartNote) -> Seq<ChartNote>
    decreases sorted.len(),
{
    if sorted.len() == 0 || sorted.last().tick <= n.tick {
        sorted.push(n)
    } else {
        insert_by_tick(sorted.drop_last(), n).push(sorted.last())
    }
}

/// The notes sorted by tick, notes of one tick kept in their order: what a
/// stable sort by tick gives.
pub open spec fn sort_by_tick(s: Seq<ChartNote>) -> Seq<ChartNote>
    decreases s.len(),
{
    if s.len() == 0 {
        Seq::empty()
    } else {
        insert_by_tick(sort_by_tick(s.drop_last()), s.last())
    }
}

/// Whether note `i` stands alone at its tick.
pub open spec fn single_at(ns: Seq<ChartNote>, i: int) -> bool {
    &&& (i == 0 || ns[i - 1].tick != ns[i].tick)
    &&& (i + 1 == ns.len() || ns[i + 1].tick != ns[i].tick)
}

/// Whether note `i` of the sorted notes is a HOPO: a single note that is
/// forced, or that follows the previous note within `threshold` ticks on
/// another fret (a previous chord always counts as another fret).
pub open spec fn hopo_at(ns: Seq<ChartNote>, i: int, force: Seq<u32>, threshold: u32) -> bool {
    &&& single_at(ns, i)
    &&& (force.contains(ns[i].tick) || (i > 0 && {
        let prev = ns[i - 1].tick;
        let gap = sat_sub(ns[i].tick, prev);
        let close = gap <= threshold && gap > 0;
        let prev_single = i - 1 == 0 || ns[i - 2].tick != prev;
        let same_fret = prev_single && ns[i - 1].lane == ns[i].lane;
        close && !same_fret
    }))
}

pub open spec fn mark_hopos(ns: Seq<ChartNote>, force: Seq<u32>, threshold: u32, drums: bool) -> Seq<
    ChartNote,
> {
    Seq::new(
        ns.len(),
        |i: int| ChartNote { is_hopo: !drums && hopo_at(ns, i, force, threshold), ..ns[i] },
    )
}

/// Whether `k` is the first track named `name`.
pub open spec fn first_track(ts: Seq<Seq<EventSpec>>, name: Seq<char>, k: int) -> bool {
    &&& 0 <= k < ts.len()
    &&& track_title(ts[k]) == name
    &&& forall|j: int| 0 <= j < k ==> track_title(#[trigger] ts[j]) != name
}

/// Notes, overdrive phrases and forced ticks of the first track named
/// `name`; nothing where there is none.
pub open spec fn target_notes(ts: Seq<Seq<EventSpec>>, name: Seq<char>, lo: u8, hopo: u8, drums: bool) -> (
    Seq<ChartNote>,
    Seq<OverdrivePhrase>,
    Seq<u32>,
) {
    if exists|k: int| #[trigger] first_track(ts, name, k) {
        let k = choose|k: int| #[trigger] first_track(ts, name, k);
        track_notes(ts[k], lo, hopo, drums)
    } else {
        (Seq::empty(), Seq::empty(), Seq::empty())
    }
}

pub struct NotesSpec {
    pub instrument: Seq<char>,
    pub difficulty: Seq<char>,
    pub ticks_per_quarter: u16,
    pub tempo_changes: Seq<TempoChange>,
    pub time_signatures: Seq<TimeSigEvent>,
    pub notes: Seq<ChartNote>,
    pub overdrive_phrases: Seq<OverdrivePhrase>,
    pub duration_ticks: u32,
}

impl View for InstrumentNotes {
    type V = NotesSpec;

    open spec fn view(&self) -> NotesSpec {
        NotesSpec {
            instrument: self.instrument@,
            difficulty: self.difficulty@,
            ticks_per_quarter: self.ticks_per_quarter,
            tempo_changes: self.tempo_changes@,
            time_signatures: self.time_signatures@,
            notes: self.notes@,
            overdrive_phrases: self.overdrive_phrases@,
            duration_ticks: self.duration_ticks,
        }
    }
}

/// The notes of one instrument at one difficulty, with the tempo map, the
/// time signatures and the chart's last tick; or the error.
pub open spec fn notes_of(m: MidiSpec, instrument: Seq<char>, difficulty: Seq<char>) -> Result<
    NotesSpec,
    Seq<char>,
> {
    match m.ticks_per_quarter {
        None => Err("SMPTE timing not supported"@),
        Some(tpq) => match difficulty_low(difficulty) {
            None => Err("Unknown difficulty: "@ + difficulty),
            Some(lo) => match instrument_by_name(instrument) {
                None => Err("Unknown instrument: "@ + instrument),
                Some(k) => {
                    let drums = k == 2;
                    let found = target_notes(m.tracks, rb_track(k), lo, (lo + 5) as u8, drums);
                    Ok(
                        NotesSpec {
                            instrument,
                            difficulty,
                            ticks_per_quarter: tpq,
                            tempo_changes: tempo_map(m.tracks),
                            time_signatures: sig_map(m.tracks),
                            notes: mark_hopos(sort_by_tick(found.0), found.2, hopo_gap(tpq), drums),
                            overdrive_phrases: found.1,
                            duration_ticks: max_ticks(m.tracks) as u32,
                        },
                    )
                },
            },
        },
    }
}

pub struct NoteScan {
    pub active: Vec<Option<u32>>,
    pub hopo_on: bool,
    pub od_start: Option<u32>,
    pub notes: Vec<ChartNote>,
    pub force: Vec<u32>,
    pub od: Vec<OverdrivePhrase>,
}

impl View for NoteScan {
    type V = ScanSpec;

    open spec fn view(&self) -> ScanSpec {
        ScanSpec {
            active: self.active@,
            hopo_on: self.hopo_on,
            od_start: self.od_start,
            notes: self.notes@,
            force: self.force@,
            od: self.od@,
        }
    }
}

fn close_lane_at(st: &mut NoteScan, lane: usize, tick: u32)
    requires
        lane < 5,
        old(st).active@.len() == 5,
    ensures
        final(st)@ == close_lane(old(st)@, lane as int, tick),
        final(st).active@.len() == 5,
{
    match st.active[lane] {
        Some(start) => {
            st.active.set(lane, None);
            let duration = if tick >= start {
                tick - start
            } else {
                0
            };
            st.notes.push(ChartNote { tick: start, duration, lane: lane as u8, is_hopo: false });
        },
        None => {},
    }
}

fn close_overdrive_at(st: &mut NoteScan, tick: u32)
    ensures
        final(st)@ == close_overdrive(old(st)@, tick),
        final(st).active@ == old(st).active@,
{
    match st.od_start {
        Some(start) => {
            st.od_start = None;
            st.od.push(OverdrivePhrase { start_tick: start, end_tick: tick });
        },
        None => {},
    }
}

fn scan_event(st: &mut NoteScan, ev: &MidiEvent, tick: u32, lo: u8, hopo: u8, drums: bool)
    requires
        old(st).active@.len() == 5,
        lo <= 100,
    ensures
        final(st)@ == scan_step(old(st)@, ev@.kind, tick, lo, hopo, drums),
        final(st).active@.len() == 5,
{
    match &ev.kind {
        MidiEventKind::NoteOn(k, v) => {
            let k = *k;
            let v = *v;
            if k == OVERDRIVE_NOTE {
                if v > 0 {
                    st.od_start = Some(tick);
                } else {
                    close_overdrive_at(st, tick);
                }
            }
            if !drums && k == hopo {
                st.hopo_on = v > 0;
            }
            if lo <= k && k <= lo + 4 {
                if v > 0 {
                    st.active.set((k - lo) as usize, Some(tick));
                    if st.hopo_on {
                        st.force.push(tick);
                    }
                } else {
                    close_lane_at(st, (k - lo) as usize, tick);
                }
            }
        },
        MidiEventKind::NoteOff(k) => {
            let k = *k;
            if k == OVERDRIVE_NOTE {
                close_overdrive_at(st, tick);
            }
            if lo <= k && k <= lo + 4 {
                close_lane_at(st, (k - lo) as usize, tick);
            }
            if k == hopo {
                st.hopo_on = false;
            }
        },
        _ => {},
    }
}

/// Notes, overdrive phrases and forced ticks of an instrument track.
fn scan_instrument_track(track: &Vec<MidiEvent>, lo: u8, hopo: u8, drums: bool) -> (r: (
    Vec<ChartNote>,
    Vec<OverdrivePhrase>,
    Vec<u32>,
))
    requires
        track_ticks(track_view(track@)) <= u32::MAX,
        lo <= 100,
    ensures
        (r.0@, r.1@, r.2@) == track_notes(track_view(track@), lo, hopo, drums),
{
    let ghost t = track_view(track@);
    let mut active: Vec<Option<u32>> = Vec::new();
    active.push(None);
    active.push(None);
    active.push(None);
    active.push(None);
    active.push(None);
    let mut st = NoteScan {
        active,
        hopo_on: false,
        od_start: None,
        notes: Vec::new(),
        force: Vec::new(),
        od: Vec::new(),
    };
    assert(st@.active =~= scan_start().active);
    assert(st@ == scan_start());
    assert(t.take(0) =~= Seq::<EventSpec>::empty());
    let mut tick: u32 = 0;
    let mut i: usize = 0;
    while i < track.len()
        invariant
            t == track_view(track@),
            track_ticks(t) <= u32::MAX,
            lo <= 100,
            i <= t.len(),
            tick == track_ticks(t.take(i as int)),
            st@ == scan_events(t.take(i as int), lo, hopo, drums),
            st.active@.len() == 5,
        decreases t.len() - i,
    {
        assert(t.take(i + 1).drop_last() =~= t.take(i as int));
        assert(t.take(i + 1).last() == t[i as int]);
        assert(t[i as int] == track[i as int]@);
        proof {
            lemma_track_ticks_prefix(t, i + 1, t.len() as int);
            assert(t.take(t.len() as int) =~= t);
        }
        tick = tick + track[i].delta;
        scan_event(&mut st, &track[i], tick, lo, hopo, drums);
        i = i + 1;
    }
    assert(t.take(t.len() as int) =~= t);
    let ghost fin = st@;
    assert(fin == scan_events(t, lo, hopo, drums));
    assert(tick == track_ticks(t) as u32);
    match st.od_start {
        Some(start) => {
            st.od.push(OverdrivePhrase { start_tick: start, end_tick: tick });
        },
        None => {},
    }
    let ghost od_final = st.od@;
    assert(od_final == track_notes(t, lo, hopo, drums).1);
    assert(st.force@ == fin.force);
    let ghost base = st.notes@;
    let mut lane: usize = 0;
    while lane < 5
        invariant
            lane <= 5,
            st.od@ == od_final,
            st.force@ == fin.force,
            st.active@ == fin.active,
            fin.active.len() == 5,
            st.notes@ + closing_notes(fin.active, tick, lane as int) == base + closing_notes(
                fin.active,
                tick,
                0,
            ),
        decreases 5 - lane,
    {
        let ghost before = st.notes@;
        let ghost rest = closing_notes(fin.active, tick, lane + 1);
        match st.active[lane] {
            Some(start) => {
                let duration = if tick >= start {
                    tick - start
                } else {
                    0
                };
                let n = ChartNote { tick: start, duration, lane: lane as u8, is_hopo: false };
                st.notes.push(n);
                assert(before + (seq![n] + rest) =~= st.notes@ + rest);
            },
            None => {},
        }
        lane = lane + 1;
    }
    assert(st.notes@ + closing_notes(fin.active, tick, 5) =~= st.notes@);
    assert(fin.notes == base);
    assert(st.notes@ == track_notes(t, lo, hopo, drums).0);
    (st.notes, st.od, st.force)
}

pub open spec fn rev(s: Seq<ChartNote>) -> Seq<ChartNote>
    decreases s.len(),
{
    if s.len() == 0 {
        Seq::empty()
    } else {
        seq![s.last()] + rev(s.drop_last())
    }
}

/// Inserts `n` into the sorted notes after every note whose tick is not later.
fn insert_note(out: &mut Vec<ChartNote>, n: ChartNote)
    ensures
        final(out)@ == insert_by_tick(old(out)@, n),
{
    let ghost total = insert_by_tick(out@, n);
    let mut tail: Vec<ChartNote> = Vec::new();
    while out.len() > 0 && out[out.len() - 1].tick > n.tick
        invariant
            total == insert_by_tick(out@, n) + rev(tail@),
        decreases out@.len(),
    {
        let ghost before = out@;
        let x = out.pop().unwrap();
        assert(before.drop_last() =~= out@);
        let ghost t0 = tail@;
        tail.push(x);
        assert(tail@.drop_last() =~= t0);
        assert(rev(tail@) == seq![x] + rev(t0));
        assert(insert_by_tick(before, n) == insert_by_tick(out@, n).push(x));
        assert(insert_by_tick(out@, n).push(x) + rev(t0) =~= insert_by_tick(out@, n) + rev(tail@));
    }
    assert(insert_by_tick(out@, n) == out@.push(n));
    out.push(n);
    while tail.len() > 0
        invariant
            total == out@ + rev(tail@),
        decreases tail@.len(),
    {
        let ghost t0 = tail@;
        let y = tail.pop().unwrap();
        assert(t0.drop_last() =~= tail@);
        assert(rev(t0) == seq![y] + rev(tail@));
        let ghost o0 = out@;
        out.push(y);
        assert(o0 + (seq![y] + rev(tail@)) =~= out@ + rev(tail@));
    }
    assert(out@ + rev(tail@) =~= out@);
}

/// The notes sorted by tick, keeping the order of notes at one tick.
fn sort_notes(notes: &Vec<ChartNote>) -> (r: Vec<ChartNote>)
    ensures
        r@ == sort_by_tick(notes@),
{
    let mut out: Vec<ChartNote> = Vec::new();
    let mut i: usize = 0;
    while i < notes.len()
        invariant
            i <= notes@.len(),
            out@ == sort_by_tick(notes@.take(i as int)),
        decreases notes@.len() - i,
    {
        assert(notes@.take(i + 1).drop_last() =~= notes@.take(i as int));
        assert(notes@.take(i + 1).last() == notes@[i as int]);
        insert_note(&mut out, notes[i]);
        i = i + 1;
    }
    assert(notes@.take(notes@.len() as int) =~= notes@);
    out
}

fn contains_tick(ticks: &Vec<u32>, t: u32) -> (b: bool)
    ensures
        b == ticks@.contains(t),
{
    let mut i: usize = 0;
    while i < ticks.len()
        invariant
            i <= ticks@.len(),
            forall|j: int| 0 <= j < i ==> ticks@[j] != t,
        decreases ticks@.len() - i,
    {
        if ticks[i] == t {
            assert(ticks@[i as int] == t);
            return true;
        }
        i = i + 1;
    }
    false
}

/// Marks the HOPOs among the sorted notes.
fn mark_hopo_notes(notes: &mut Vec<ChartNote>, force: &Vec<u32>, threshold: u32, drums: bool)
    requires
        forall|a: int, b: int| 0 <= a <= b < old(notes)@.len() ==> old(notes)@[a].tick <= old(notes)@[b].tick,
    ensures
        final(notes)@ == mark_hopos(old(notes)@, force@, threshold, drums),
{
    let ghost ns = notes@;
    let n = notes.len();
    let mut i: usize = 0;
    while i < n
        invariant
            n == ns.len(),
            notes@.len() == n,
            i <= n,
            forall|j: int| 0 <= j < n ==> (#[trigger] notes@[j]).tick == ns[j].tick && notes@[j].lane
                == ns[j].lane && notes@[j].duration == ns[j].duration,
            forall|j: int|
                0 <= j < i ==> (#[trigger] notes@[j]).is_hopo == (!drums && hopo_at(
                    ns,
                    j,
                    force@,
                    threshold,
                )),
            forall|j: int| i <= j < n ==> #[trigger] notes@[j] == ns[j],
        decreases n - i,
    {
        let tick = notes[i].tick;
        let single = (i == 0 || notes[i - 1].tick != tick) && (i + 1 == n || notes[i + 1].tick != tick);
        let mut hopo = false;
        if !drums && single {
            let has_force = contains_tick(force, tick);
            let mut is_close = false;
            let mut same_fret = true;
            if i > 0 {
                let prev = notes[i - 1].tick;
                let gap = if tick >= prev {
                    tick - prev
                } else {
                    0
                };
                is_close = gap <= threshold && gap > 0;
                let prev_single = i - 1 == 0 || notes[i - 2].tick != prev;
                same_fret = prev_single && notes[i - 1].lane == notes[i].lane;
            }
            hopo = has_force || (is_close && !same_fret);
        }
        assert(hopo == (!drums && hopo_at(ns, i as int, force@, threshold)));
        let old_note = notes[i];
        notes.set(i, ChartNote { is_hopo: hopo, ..old_note });
        i = i + 1;
    }
    assert(notes@ =~= mark_hopos(ns, force@, threshold, drums));
}

pub open spec fn sorted_by_tick(s: Seq<ChartNote>) -> bool {
    forall|a: int, b: int| 0 <= a <= b < s.len() ==> s[a].tick <= s[b].tick
}

proof fn lemma_insert_sorted(s: Seq<ChartNote>, n: ChartNote, bound: u32)
    requires
        sorted_by_tick(s),
        forall|i: int| 0 <= i < s.len() ==> (#[trigger] s[i]).tick <= bound,
        n.tick <= bound,
    ensures
        sorted_by_tick(insert_by_tick(s, n)),
        forall|i: int|
            0 <= i < insert_by_tick(s, n).len() ==> (#[trigger] insert_by_tick(s, n)[i]).tick <= bound,
        insert_by_tick(s, n).len() == s.len() + 1,
    decreases s.len(),
{
    if s.len() == 0 || s.last().tick <= n.tick {
        let r = s.push(n);
        assert forall|a: int, b: int| 0 <= a <= b < r.len() implies r[a].tick <= r[b].tick by {
            if b == r.len() - 1 && a < b {
                assert(s[a].tick <= s.last().tick);
            }
        }
    } else {
        let init = s.drop_last();
        let last = s.last();
        assert forall|i: int| 0 <= i < init.len() implies (#[trigger] init[i]).tick <= last.tick by {
            assert(s[i].tick <= s[s.len() - 1].tick);
        }
        assert(sorted_by_tick(init)) by {
            assert forall|a: int, b: int| 0 <= a <= b < init.len() implies init[a].tick
                <= init[b].tick by {
                assert(s[a].tick <= s[b].tick);
            }
        }
        lemma_insert_sorted(init, n, last.tick);
        let m = insert_by_tick(init, n);
        let r = m.push(last);
        assert(r == insert_by_tick(s, n));
        assert forall|a: int, b: int| 0 <= a <= b < r.len() implies r[a].tick <= r[b].tick by {
            if b == r.len() - 1 && a < b {
                assert(m[a].tick <= last.tick);
            } else if b < r.len() - 1 {
                assert(r[a] == m[a] && r[b] == m[b]);
            }
        }
        assert forall|i: int| 0 <= i < r.len() implies (#[trigger] r[i]).tick <= bound by {
            if i < m.len() {
                assert(r[i] == m[i]);
            }
        }
    }
}

proof fn lemma_sort_sorted(s: Seq<ChartNote>)
    ensures
        sorted_by_tick(sort_by_tick(s)),
        sort_by_tick(s).len() == s.len(),
    decreases s.len(),
{
    if s.len() > 0 {
        lemma_sort_sorted(s.drop_last());
        lemma_insert_sorted(sort_by_tick(s.drop_last()), s.last(), u32::MAX);
    }
}

proof fn lemma_first_track_unique(ts: Seq<Seq<EventSpec>>, name: Seq<char>, i: int, j: int)
    requires
        first_track(ts, name, i),
        first_track(ts, name, j),
    ensures
        i == j,
{
    if i < j {
        assert(track_title(ts[i]) != name);
    } else if j < i {
        assert(track_title(ts[j]) != name);
    }
}

fn find_target_track(file: &MidiFile, name: &str) -> (r: Option<usize>)
    ensures
        match r {
            Some(k) => first_track(file@.tracks, name@, k as int),
            None => forall|j: int|
                0 <= j < file@.tracks.len() ==> track_title(#[trigger] file@.tracks[j]) != name@,
        },
{
    let ghost ts = file@.tracks;
    let mut ti: usize = 0;
    while ti < file.tracks.len()
        invariant
            ts == file@.tracks,
            ts.len() == file.tracks@.len(),
            ti <= ts.len(),
            forall|j: int| 0 <= j < ti ==> track_title(#[trigger] ts[j]) != name@,
        decreases ts.len() - ti,
    {
        let title = track_title_of(&file.tracks[ti]);
        assert(ts[ti as int] == track_view(file.tracks@[ti as int]@));
        if chars_eq_str(title.as_slice(), name) {
            return Some(ti);
        }
        ti = ti + 1;
    }
    None
}

fn prefixed(prefix: &str, text: &str) -> (s: String)
    ensures
        s@ == prefix@ + text@,
{
    let mut v = chars_of(prefix);
    let c = chars_of(text);
    extend_chars(&mut v, c.as_slice());
    string_from_chars(v.as_slice())
}

/// The notes of one instrument at one difficulty of a parsed MIDI file.
pub fn instrument_notes_of(file: &MidiFile, instrument: &str, difficulty: &str) -> (r: Result<
    InstrumentNotes,
    String,
>)
    requires
        ticks_fit(file@),
        midi_ranges(file@),
    ensures
        match r {
            Ok(n) => notes_of(file@, instrument@, difficulty@) == Ok::<NotesSpec, Seq<char>>(n@),
            Err(e) => notes_of(file@, instrument@, difficulty@) == Err::<NotesSpec, Seq<char>>(e@),
        },
{
    let tpq = match file.ticks_per_quarter {
        Some(t) => t,
        None => {
            return Err(String::from_str("SMPTE timing not supported"));
        },
    };
    let (range_lo, _range_hi) = match difficulty_range(difficulty) {
        Some(r) => r,
        None => {
            return Err(prefixed("Unknown difficulty: ", difficulty));
        },
    };
    let k = match find_instrument(instrument) {
        Some(k) => k,
        None => {
            return Err(prefixed("Unknown instrument: ", instrument));
        },
    };
    let ghost ts = file@.tracks;
    let scan = scan_tracks(file);
    let mut tempos = scan.tempos;
    let mut sigs = scan.sigs;
    if tempos.len() == 0 {
        tempos.push(TempoChange { tick: 0, micros_per_quarter: 500000 });
    }
    if sigs.len() == 0 {
        sigs.push(TimeSigEvent { tick: 0, numerator: 4, denominator: 4 });
    }
    assert(tempos@ == tempo_map(ts));
    assert(sigs@ == sig_map(ts));
    let hopo = match hopo_force_note(difficulty) {
        Some(h) => h,
        None => range_lo + 5,
    };
    let threshold = hopo_threshold(tpq);
    let is_drums = k == 2;
    let target = rb_track_text(k);
    let ghost found = target_notes(ts, rb_track(k as int), range_lo, hopo, is_drums);
    let (notes, overdrive_phrases, force) = match find_target_track(file, target) {
        Some(ti) => {
            proof {
                let c = choose|j: int| #[trigger] first_track(ts, rb_track(k as int), j);
                lemma_first_track_unique(ts, rb_track(k as int), c, ti as int);
            }
            assert(ts[ti as int] == track_view(file.tracks@[ti as int]@));
            assert(track_ticks(ts[ti as int]) <= u32::MAX);
            scan_instrument_track(&file.tracks[ti], range_lo, hopo, is_drums)
        },
        None => {
            let e: (Vec<ChartNote>, Vec<OverdrivePhrase>, Vec<u32>) = (Vec::new(), Vec::new(), Vec::new());
            e
        },
    };
    assert((notes@, overdrive_phrases@, force@) == found);
    let mut sorted = sort_notes(&notes);
    proof {
        lemma_sort_sorted(notes@);
    }
    mark_hopo_notes(&mut sorted, &force, threshold, is_drums);
    Ok(
        InstrumentNotes {
            instrument: String::from_str(instrument),
            difficulty: String::from_str(difficulty),
            ticks_per_quarter: tpq,
            tempo_changes: tempos,
            time_signatures: sigs,
            notes: sorted,
            overdrive_phrases,
            duration_ticks: scan.max_tick,
        },
    )
}

/// Parses a MIDI file and reads the notes of one instrument at one
/// difficulty. A file that midly refuses gives "Failed to parse MIDI: " and
/// midly's error; a file whose ticks do not fit `ticks_fit` gives the range
/// error.
pub fn parse_instrument_notes(midi_bytes: &[u8], instrument: &str, difficulty: &str) -> (r: Result<
    InstrumentNotes,
    String,
>)
    ensures
        smf_parsed(midi_bytes@) is None ==> r is Err && exists|e: Seq<char>| r->Err_0@ == parse_error(e),
        smf_parsed(midi_bytes@) matches Some(m) ==> {
            &&& !ticks_fit(m) ==> r is Err && r->Err_0@ == range_error()
            &&& ticks_fit(m) ==> match r {
                Ok(n) => notes_of(m, instrument@, difficulty@) == Ok::<NotesSpec, Seq<char>>(n@),
                Err(e) => notes_of(m, instrument@, difficulty@) == Err::<NotesSpec, Seq<char>>(e@),
            }
        },
{
    let file = match parse_smf(midi_bytes) {
        Ok(f) => f,
        Err(e) => {
            return Err(parse_failure(&e));
        },
    };
    if !fits_tick_range(&file) {
        return Err(String::from_str("MIDI file exceeds the supported tick range"));
    }
    instrument_notes_of(&file, instrument, difficulty)
}


/// Whether every note of `ns` lies on one of the five lanes.
pub open spec fn lanes_ok(ns: Seq<ChartNote>) -> bool {
    forall|i: int| 0 <= i < ns.len() ==> (#[trigger] ns[i]).lane <= 4
}

proof fn lemma_close_lane_lanes(st: ScanSpec, lane: int, tick: u32)
    requires
        lanes_ok(st.notes),
        0 <= lane <= 4,
    ensures
        lanes_ok(close_lane(st, lane, tick).notes),
{
    let r = close_lane(st, lane, tick);
    assert forall|i: int| 0 <= i < r.notes.len() implies (#[trigger] r.notes[i]).lane <= 4 by {
        if i < st.notes.len() {
            assert(r.notes[i] == st.notes[i]);
        }
    }
}

proof fn lemma_scan_lanes(t: Seq<EventSpec>, lo: u8, hopo: u8, drums: bool)
    ensures
        lanes_ok(scan_events(t, lo, hopo, drums).notes),
    decreases t.len(),
{
    if t.len() > 0 {
        lemma_scan_lanes(t.drop_last(), lo, hopo, drums);
        let st = scan_events(t.drop_last(), lo, hopo, drums);
        let tick = track_ticks(t) as u32;
        match t.last().kind {
            KindSpec::NoteOn(k, v) => {
                let s1 = if k == OVERDRIVE_NOTE {
                    if v > 0 {
                        ScanSpec { od_start: Some(tick), ..st }
                    } else {
                        close_overdrive(st, tick)
                    }
                } else {
                    st
                };
                let s2 = if !drums && k == hopo {
                    ScanSpec { hopo_on: v > 0, ..s1 }
                } else {
                    s1
                };
                assert(s2.notes == st.notes);
                if lo <= k <= lo + 4 && v == 0 {
                    lemma_close_lane_lanes(s2, k - lo, tick);
                }
            },
            KindSpec::NoteOff(k) => {
                let s1 = if k == OVERDRIVE_NOTE {
                    close_overdrive(st, tick)
                } else {
                    st
                };
                assert(s1.notes == st.notes);
                if lo <= k <= lo + 4 {
                    lemma_close_lane_lanes(s1, k - lo, tick);
                }
            },
            _ => {},
        }
    }
}

proof fn lemma_closing_lanes(active: Seq<Option<u32>>, end: u32, lane: int)
    requires
        0 <= lane,
    ensures
        lanes_ok(closing_notes(active, end, lane)),
    decreases 5 - lane,
{
    if lane < 5 {
        lemma_closing_lanes(active, end, lane + 1);
        let rest = closing_notes(active, end, lane + 1);
        let r = closing_notes(active, end, lane);
        assert forall|i: int| 0 <= i < r.len() implies (#[trigger] r[i]).lane <= 4 by {
            if active[lane] is Some && i > 0 {
                assert(r[i] == rest[i - 1]);
            }
        }
    }
}

proof fn lemma_insert_lanes(sorted: Seq<ChartNote>, n: ChartNote)
    requires
        lanes_ok(sorted),
        n.lane <= 4,
    ensures
        lanes_ok(insert_by_tick(sorted, n)),
    decreases sorted.len(),
{
    if !(sorted.len() == 0 || sorted.last().tick <= n.tick) {
        let init = sorted.drop_last();
        assert(lanes_ok(init)) by {
            assert forall|i: int| 0 <= i < init.len() implies (#[trigger] init[i]).lane <= 4 by {
                assert(init[i] == sorted[i]);
            }
        }
        lemma_insert_lanes(init, n);
        assert(sorted.last() == sorted[sorted.len() - 1]);
    }
}

proof fn lemma_sort_lanes(s: Seq<ChartNote>)
    requires
        lanes_ok(s),
    ensures
        lanes_ok(sort_by_tick(s)),
    decreases s.len(),
{
    if s.len() > 0 {
        let init = s.drop_last();
        assert(lanes_ok(init)) by {
            assert forall|i: int| 0 <= i < init.len() implies (#[trigger] init[i]).lane <= 4 by {
                assert(init[i] == s[i]);
            }
        }
        lemma_sort_lanes(init);
        assert(s.last() == s[s.len() - 1]);
        lemma_insert_lanes(sort_by_tick(init), s.last());
    }
}

// ---------------------------------------------------------------- laws

/// What marks a note a HOPO. No drum note and no note of a chord is one. A
/// single note that is forced is one. A single note that is not forced
/// is one exactly where it follows the note before it by at least one tick
/// and at most `threshold` ticks and that note is not a single note on the
/// same lane: a note on the same fret as the single note before it is
/// strummed, whatever the gap. Marking changes nothing else of a note.
pub proof fn lemma_hopo_rules(ns: Seq<ChartNote>, force: Seq<u32>, threshold: u32, drums: bool, i: int)
    requires
        0 <= i < ns.len(),
    ensures
        mark_hopos(ns, force, threshold, drums).len() == ns.len(),
        mark_hopos(ns, force, threshold, drums)[i].tick == ns[i].tick,
        mark_hopos(ns, force, threshold, drums)[i].duration == ns[i].duration,
        mark_hopos(ns, force, threshold, drums)[i].lane == ns[i].lane,
        drums ==> !mark_hopos(ns, force, threshold, drums)[i].is_hopo,
        !single_at(ns, i) ==> !mark_hopos(ns, force, threshold, drums)[i].is_hopo,
        !drums && single_at(ns, i) && force.contains(ns[i].tick) ==> mark_hopos(ns, force, threshold, drums)[i].is_hopo,
        !force.contains(ns[i].tick) && i > 0 && single_at(ns, i - 1) && ns[i - 1].lane == ns[i].lane
            ==> !mark_hopos(ns, force, threshold, drums)[i].is_hopo,
        !force.contains(ns[i].tick) && (i == 0 || ns[i].tick <= ns[i - 1].tick || ns[i].tick - ns[i - 1].tick
            > threshold) ==> !mark_hopos(ns, force, threshold, drums)[i].is_hopo,
        !drums && single_at(ns, i) && i > 0 && ns[i - 1].tick < ns[i].tick && ns[i].tick - ns[i - 1].tick
            <= threshold && !(single_at(ns, i - 1) && ns[i - 1].lane == ns[i].lane) ==> mark_hopos(
            ns,
            force,
            threshold,
            drums,
        )[i].is_hopo,
{
}

/// The notes read for an instrument come sorted by tick and lie on the five
/// lanes (0 to 4); drum notes are never HOPOs, and a HOPO is always a
/// single note, never part of a chord.
pub proof fn lemma_notes_shape(m: MidiSpec, instrument: Seq<char>, difficulty: Seq<char>)
    requires
        notes_of(m, instrument, difficulty) is Ok,
    ensures
        ({
            let n = notes_of(m, instrument, difficulty)->Ok_0;
            &&& sorted_by_tick(n.notes)
            &&& forall|i: int| 0 <= i < n.notes.len() ==> (#[trigger] n.notes[i]).lane <= 4
            &&& instrument_by_name(instrument) == Some(2int) ==> forall|i: int|
                0 <= i < n.notes.len() ==> !(#[trigger] n.notes[i]).is_hopo
            &&& forall|i: int| 0 <= i < n.notes.len() && (#[trigger] n.notes[i]).is_hopo ==> single_at(
                n.notes,
                i,
            )
        }),
{
    let tpq = m.ticks_per_quarter->Some_0;
    let lo = difficulty_low(difficulty)->Some_0;
    let k = instrument_by_name(instrument)->Some_0;
    let drums = k == 2;
    let found = target_notes(m.tracks, rb_track(k), lo, (lo + 5) as u8, drums);
    let sorted = sort_by_tick(found.0);
    lemma_sort_sorted(found.0);
    let n = notes_of(m, instrument, difficulty)->Ok_0;
    assert(n.notes == mark_hopos(sorted, found.2, hopo_gap(tpq), drums));
    assert(lanes_ok(found.0)) by {
        if exists|kk: int| #[trigger] first_track(m.tracks, rb_track(k), kk) {
            let kk = choose|kk: int| #[trigger] first_track(m.tracks, rb_track(k), kk);
            let t = m.tracks[kk];
            lemma_scan_lanes(t, lo, (lo + 5) as u8, drums);
            let st = scan_events(t, lo, (lo + 5) as u8, drums);
            let c = closing_notes(st.active, track_ticks(t) as u32, 0);
            lemma_closing_lanes(st.active, track_ticks(t) as u32, 0);
            assert forall|i: int| 0 <= i < (st.notes + c).len() implies (#[trigger] (st.notes + c)[i]).lane <= 4 by {
                if i < st.notes.len() {
                    assert((st.notes + c)[i] == st.notes[i]);
                } else {
                    assert((st.notes + c)[i] == c[i - st.notes.len()]);
                }
            }
        }
    }
    lemma_sort_lanes(found.0);
    assert forall|i: int| 0 <= i < n.notes.len() implies (#[trigger] n.notes[i]).lane <= 4 by {
        assert(n.notes[i].lane == sorted[i].lane);
    }
    assert forall|a: int, b: int| 0 <= a <= b < n.notes.len() implies n.notes[a].tick
        <= n.notes[b].tick by {
        assert(sorted[a].tick <= sorted[b].tick);
    }
    assert forall|i: int| 0 <= i < n.notes.len() && (#[trigger] n.notes[i]).is_hopo implies single_at(
        n.notes,
        i,
    ) by {
        assert(single_at(sorted, i));
        if i > 0 {
            assert(n.notes[i - 1].tick == sorted[i - 1].tick);
        }
        if i + 1 < n.notes.len() {
            assert(n.notes[i + 1].tick == sorted[i + 1].tick);
        }
    }
}

} // verus!
