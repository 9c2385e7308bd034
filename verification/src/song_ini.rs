//! song.ini, the `key = value` metadata file of unpacked song folders.
use vstd::prelude::*;
use crate::dta::types::{empty_meta, MetaSpec, SongMetadata};
use crate::text::{
    chars_eq_str, chars_of, lines, lowercase, lowercase_chars, parse_i32, parse_i32_chars, split_lines,
    split_once_char, split_once_eq, string_from_chars, trim, trimmed, views, int_to_dec, i64_to_dec,
    chars_eq, copy_chars, extend_chars,
};

verus! {

/// Lines that carry no `key = value`: blank, `[section]`, `;` and `#` comments.
pub open spec fn ini_skipped(t: Seq<char>) -> bool {
    t.len() == 0 || t[0] == '[' || t[0] == ';' || t[0] == '#'
}

/// The metadata after reading one `key = value` pair; `key` is already
/// trimmed and lower-cased, `value` trimmed.
pub open spec fn ini_set(m: MetaSpec, key: Seq<char>, value: Seq<char>) -> MetaSpec {
    if key == "name"@ {
        MetaSpec { name: value, ..m }
    } else if key == "artist"@ {
        MetaSpec { artist: value, ..m }
    } else if key == "album"@ {
        MetaSpec { album_name: value, ..m }
    } else if key == "genre"@ {
        MetaSpec { genre: value, ..m }
    } else if key == "year"@ {
        MetaSpec { year_released: parse_i32(value), ..m }
    } else if key == "charter"@ || key == "frets"@ {
        if m.author.len() == 0 {
            MetaSpec { author: value, ..m }
        } else {
            m
        }
    } else if key == "song_length"@ {
        MetaSpec { song_length: parse_i32(value), ..m }
    } else if key == "preview_start_time"@ {
        MetaSpec { preview_start: parse_i32(value), ..m }
    } else if key == "album_track"@ {
        MetaSpec { album_track_number: parse_i32(value), ..m }
    } else if key == "diff_guitar"@ {
        MetaSpec { rank_guitar: parse_i32(value), ..m }
    } else if key == "diff_bass"@ {
        MetaSpec { rank_bass: parse_i32(value), ..m }
    } else if key == "diff_drums"@ {
        MetaSpec { rank_drum: parse_i32(value), ..m }
    } else if key == "diff_keys"@ {
        MetaSpec { rank_keys: parse_i32(value), ..m }
    } else if key == "diff_vocals"@ {
        MetaSpec { rank_vocals: parse_i32(value), ..m }
    } else if key == "diff_band"@ {
        MetaSpec { rank_band: parse_i32(value), ..m }
    } else if key == "diff_guitar_real"@ {
        MetaSpec { rank_real_guitar: parse_i32(value), ..m }
    } else if key == "diff_bass_real"@ {
        MetaSpec { rank_real_bass: parse_i32(value), ..m }
    } else if key == "diff_keys_real"@ {
        MetaSpec { rank_real_keys: parse_i32(value), ..m }
    } else if key == "icon"@ {
        MetaSpec { game_origin: value, ..m }
    } else {
        m
    }
}

/// The metadata after reading one line of song.ini.
pub open spec fn ini_line(m: MetaSpec, line: Seq<char>) -> MetaSpec {
    let t = trim(line);
    if ini_skipped(t) {
        m
    } else {
        match split_once_eq(t) {
            Some((k, v)) => ini_set(m, lowercase(trim(k)), trim(v)),
            None => m,
        }
    }
}

/// The metadata after reading the lines `ls` in order, from empty metadata.
pub open spec fn ini_read(ls: Seq<Seq<char>>) -> MetaSpec
    decreases ls.len(),
{
    if ls.len() == 0 {
        empty_meta()
    } else {
        ini_line(ini_read(ls.drop_last()), ls.last())
    }
}

/// What `parse_song_ini` makes of a song.ini text.
pub open spec fn song_ini_meta(content: Seq<char>) -> MetaSpec {
    ini_read(lines(content))
}

fn set_pair(m: &mut SongMetadata, key: &Vec<char>, value: &Vec<char>)
    ensures
        final(m)@ == ini_set(old(m)@, key@, value@),
{
    let k = key.as_slice();
    let v = value.as_slice();
    if chars_eq_str(k, "name") {
        m.name = string_from_chars(v);
    } else if chars_eq_str(k, "artist") {
        m.artist = string_from_chars(v);
    } else if chars_eq_str(k, "album") {
        m.album_name = string_from_chars(v);
    } else if chars_eq_str(k, "genre") {
        m.genre = string_from_chars(v);
    } else if chars_eq_str(k, "year") {
        m.year_released = parse_i32_chars(v);
    } else if chars_eq_str(k, "charter") || chars_eq_str(k, "frets") {
        if m.author.as_str().unicode_len() == 0 {
            m.author = string_from_chars(v);
        }
    } else if chars_eq_str(k, "song_length") {
        m.song_length = parse_i32_chars(v);
    } else if chars_eq_str(k, "preview_start_time") {
        m.preview_start = parse_i32_chars(v);
    } else if chars_eq_str(k, "album_track") {
        m.album_track_number = parse_i32_chars(v);
    } else if chars_eq_str(k, "diff_guitar") {
        m.rank_guitar = parse_i32_chars(v);
    } else if chars_eq_str(k, "diff_bass") {
        m.rank_bass = parse_i32_chars(v);
    } else if chars_eq_str(k, "diff_drums") {
        m.rank_drum = parse_i32_chars(v);
    } else if chars_eq_str(k, "diff_keys") {
        m.rank_keys = parse_i32_chars(v);
    } else if chars_eq_str(k, "diff_vocals") {
        m.rank_vocals = parse_i32_chars(v);
    } else if chars_eq_str(k, "diff_band") {
        m.rank_band = parse_i32_chars(v);
    } else if chars_eq_str(k, "diff_guitar_real") {
        m.rank_real_guitar = parse_i32_chars(v);
    } else if chars_eq_str(k, "diff_bass_real") {
        m.rank_real_bass = parse_i32_chars(v);
    } else if chars_eq_str(k, "diff_keys_real") {
        m.rank_real_keys = parse_i32_chars(v);
    } else if chars_eq_str(k, "icon") {
        m.game_origin = string_from_chars(v);
    }
}

/// Whether a trimmed line carries no `key = value`.
fn skipped(t: &Vec<char>) -> (b: bool)
    ensures
        b == ini_skipped(t@),
{
    t.len() == 0 || t[0] == '[' || t[0] == ';' || t[0] == '#'
}

/// Splits a line into its lower-cased trimmed key and trimmed value, the way
/// both the reader and the writer look at it.
fn line_pair(line: &Vec<char>) -> (r: Option<(Vec<char>, Vec<char>, Vec<char>)>)
    ensures
        ini_skipped(trim(line@)) ==> r is None,
        !ini_skipped(trim(line@)) ==> match r {
            Some((key_part, key, value)) => split_once_eq(trim(line@)) matches Some((k, v)) && key_part@
                == k && key@ == lowercase(trim(k)) && value@ == trim(v),
            None => split_once_eq(trim(line@)) is None,
        },
{
    let t = trimmed(line.as_slice());
    if skipped(&t) {
        return None;
    }
    match split_once_char(t.as_slice(), '=') {
        Some((k, v)) => {
            let kt = trimmed(k.as_slice());
            let key = lowercase_chars(kt.as_slice());
            let value = trimmed(v.as_slice());
            Some((k, key, value))
        },
        None => None,
    }
}

/// Parses a song.ini file: each `key = value` line (keys case-insensitive)
/// sets the field it names; section headers, comments and blank lines are
/// skipped; for the author the first `charter` or `frets` line wins.
pub fn parse_song_ini(content: &str) -> (meta: SongMetadata)
    ensures
        meta@ == song_ini_meta(content@),
{
    let c = chars_of(content);
    let ls = split_lines(c.as_slice());
    let mut m = SongMetadata::new();
    let mut i: usize = 0;
    while i < ls.len()
        invariant
            i <= ls@.len(),
            views(ls@) == lines(content@),
            m@ == ini_read(views(ls@).take(i as int)),
        decreases ls@.len() - i,
    {
        let ghost before = m@;
        match line_pair(&ls[i]) {
            Some((_kp, key, value)) => {
                set_pair(&mut m, &key, &value);
            },
            None => {},
        }
        proof {
            let vs = views(ls@);
            assert(vs.take(i + 1).drop_last() =~= vs.take(i as int));
            assert(vs.take(i + 1).last() == ls@[i as int]@);
        }
        i = i + 1;
    }
    proof {
        assert(views(ls@).take(ls@.len() as int) =~= views(ls@));
    }
    m
}

/// The value of the first `loading_phrase` line among `ls`, or empty text.
pub open spec fn loading_phrase_of(ls: Seq<Seq<char>>) -> Seq<char>
    decreases ls.len(),
{
    if ls.len() == 0 {
        Seq::empty()
    } else {
        match split_once_eq(trim(ls[0])) {
            Some((k, v)) => if lowercase(trim(k)) == "loading_phrase"@ {
                trim(v)
            } else {
                loading_phrase_of(ls.drop_first())
            },
            None => loading_phrase_of(ls.drop_first()),
        }
    }
}

/// The loading phrase of a song.ini text (shown as the song's description):
/// the trimmed value of its first `loading_phrase` line, or empty text.
pub fn extract_loading_phrase(content: &str) -> (r: String)
    ensures
        r@ == loading_phrase_of(lines(content@)),
{
    let c = chars_of(content);
    let ls = split_lines(c.as_slice());
    let mut i: usize = 0;
    assert(views(ls@).skip(0) =~= views(ls@));
    while i < ls.len()
        invariant
            i <= ls@.len(),
            views(ls@) == lines(content@),
            loading_phrase_of(views(ls@).skip(i as int)) == loading_phrase_of(views(ls@)),
        decreases ls@.len() - i,
    {
        let ghost rest = views(ls@).skip(i as int);
        assert(rest[0] == ls@[i as int]@);
        assert(rest.drop_first() =~= views(ls@).skip(i + 1));
        let t = trimmed(ls[i].as_slice());
        match split_once_char(t.as_slice(), '=') {
            Some((k, v)) => {
                let kt = trimmed(k.as_slice());
                let key = lowercase_chars(kt.as_slice());
                if chars_eq_str(key.as_slice(), "loading_phrase") {
                    let value = trimmed(v.as_slice());
                    return string_from_chars(value.as_slice());
                }
            },
            None => {},
        }
        i = i + 1;
    }
    assert(views(ls@).skip(i as int) =~= Seq::<Seq<char>>::empty());
    String::new()
}

// ---------------------------------------------------------------- writing

/// A `(key, value)` pair to be written.
pub open spec fn entry(k: Seq<char>, v: Seq<char>) -> (Seq<char>, Seq<char>) {
    (k, v)
}

pub open spec fn opt_entry(k: Seq<char>, v: Option<i32>) -> Seq<(Seq<char>, Seq<char>)> {
    match v {
        Some(x) => seq![entry(k, int_to_dec(x as int))],
        None => Seq::empty(),
    }
}

/// The numeric and origin pairs written after the five text fields, in
/// order: those that are set.
pub open spec fn later_entries(m: MetaSpec) -> Seq<(Seq<char>, Seq<char>)> {
    opt_entry("year"@, m.year_released) + opt_entry("song_length"@, m.song_length) + opt_entry(
        "preview_start_time"@,
        m.preview_start,
    ) + opt_entry("album_track"@, m.album_track_number) + opt_entry("diff_guitar"@, m.rank_guitar)
        + opt_entry("diff_bass"@, m.rank_bass) + opt_entry("diff_drums"@, m.rank_drum) + opt_entry(
        "diff_keys"@,
        m.rank_keys,
    ) + opt_entry("diff_vocals"@, m.rank_vocals) + opt_entry("diff_band"@, m.rank_band) + opt_entry(
        "diff_guitar_real"@,
        m.rank_real_guitar,
    ) + opt_entry("diff_bass_real"@, m.rank_real_bass) + opt_entry("diff_keys_real"@, m.rank_real_keys)
        + if m.game_origin.len() > 0 {
        seq![entry("icon"@, m.game_origin)]
    } else {
        Seq::empty()
    }
}

/// The pairs that `serialize_song_ini` writes for `m`, in order.
pub open spec fn meta_entries(m: MetaSpec) -> Seq<(Seq<char>, Seq<char>)> {
    seq![
        entry("name"@, m.name),
        entry("artist"@, m.artist),
        entry("album"@, m.album_name),
        entry("genre"@, m.genre),
        entry("charter"@, m.author),
    ] + later_entries(m)
}

/// The pairs to write: those of `m`, the name replaced by `display_name` and a
/// `loading_phrase` added for `description` when they are given.
pub open spec fn desired(
    m: MetaSpec,
    display_name: Option<Seq<char>>,
    description: Option<Seq<char>>,
) -> Seq<(Seq<char>, Seq<char>)> {
    let base = meta_entries(m);
    let named = match display_name {
        Some(n) => base.update(0, entry("name"@, n)),
        None => base,
    };
    match description {
        Some(d) => named.push(entry("loading_phrase"@, d)),
        None => named,
    }
}

/// Whether an existing key (trimmed, lower-cased) is the place for pair `e`:
/// the same key, or `frets` for `charter`.
pub open spec fn key_matches(e: (Seq<char>, Seq<char>), key: Seq<char>) -> bool {
    key == e.0 || (e.0 == "charter"@ && key == "frets"@)
}

/// Index of the first pair of `d` that `key` matches, or `d.len()`.
pub open spec fn match_index(d: Seq<(Seq<char>, Seq<char>)>, key: Seq<char>) -> int
    decreases d.len(),
{
    if d.len() == 0 {
        0
    } else if key_matches(d[0], key) {
        0
    } else {
        1 + match_index(d.drop_first(), key)
    }
}

/// Which pair of `d`, if any, an existing line is rewritten with.
pub open spec fn line_target(d: Seq<(Seq<char>, Seq<char>)>, line: Seq<char>) -> Option<int> {
    let t = trim(line);
    if ini_skipped(t) {
        None
    } else {
        match split_once_eq(t) {
            Some((kp, _v)) => {
                let j = match_index(d, lowercase(trim(kp)));
                if j < d.len() {
                    Some(j)
                } else {
                    None
                }
            },
            None => None,
        }
    }
}

/// An existing line as it is written back: a matched line becomes
/// `<original key> = <new value>`, any other line is kept as it is.
pub open spec fn rewritten_line(d: Seq<(Seq<char>, Seq<char>)>, line: Seq<char>) -> Seq<char> {
    match line_target(d, line) {
        Some(j) => {
            match split_once_eq(trim(line)) {
                Some((kp, _v)) => trim(kp) + " = "@ + d[j].1,
                None => line,
            }
        },
        None => line,
    }
}

/// Whether some line of `ls` is rewritten with pair `j`.
pub open spec fn pair_used(d: Seq<(Seq<char>, Seq<char>)>, ls: Seq<Seq<char>>, j: int) -> bool {
    exists|i: int| 0 <= i < ls.len() && line_target(d, ls[i]) == Some(j)
}

/// The `key = value` lines appended for the pairs `d[k..]` that no existing
/// line took and whose value is not empty.
pub open spec fn appended(d: Seq<(Seq<char>, Seq<char>)>, ls: Seq<Seq<char>>, k: int) -> Seq<Seq<char>>
    decreases d.len() - k,
{
    if k < 0 || k >= d.len() {
        Seq::empty()
    } else if !pair_used(d, ls, k) && d[k].1.len() > 0 {
        seq![d[k].0 + " = "@ + d[k].1] + appended(d, ls, k + 1)
    } else {
        appended(d, ls, k + 1)
    }
}

/// Lines joined with `\n` between them.
pub open spec fn join_lines(ls: Seq<Seq<char>>) -> Seq<char>
    decreases ls.len(),
{
    if ls.len() == 0 {
        Seq::empty()
    } else if ls.len() == 1 {
        ls[0]
    } else {
        join_lines(ls.drop_last()) + "\n"@ + ls.last()
    }
}

/// The lines written: the existing lines, rewritten where they take a pair,
/// then the lines appended.
pub open spec fn written_lines(d: Seq<(Seq<char>, Seq<char>)>, ls: Seq<Seq<char>>) -> Seq<Seq<char>> {
    ls.map_values(|l: Seq<char>| rewritten_line(d, l)) + appended(d, ls, 0)
}

/// What `serialize_song_ini` writes.
pub open spec fn song_ini_text(
    m: MetaSpec,
    original: Seq<char>,
    display_name: Option<Seq<char>>,
    description: Option<Seq<char>>,
) -> Seq<char> {
    let d = desired(m, display_name, description);
    let ls = lines(original);
    let joined = join_lines(written_lines(d, ls));
    if original.len() > 0 && original.last() == '\n' && !(joined.len() > 0 && joined.last() == '\n') {
        joined.push('\n')
    } else {
        joined
    }
}

pub open spec fn pair_views(d: Seq<(Vec<char>, Vec<char>)>) -> Seq<(Seq<char>, Seq<char>)> {
    d.map_values(|p: (Vec<char>, Vec<char>)| (p.0@, p.1@))
}

fn push_pair(d: &mut Vec<(Vec<char>, Vec<char>)>, key: &str, value: Vec<char>)
    ensures
        pair_views(final(d)@) == pair_views(old(d)@).push(entry(key@, value@)),
{
    let ghost before = pair_views(d@);
    d.push((chars_of(key), value));
    assert(pair_views(d@) =~= before.push(entry(key@, value@)));
}

fn push_opt(d: &mut Vec<(Vec<char>, Vec<char>)>, key: &str, v: Option<i32>)
    ensures
        pair_views(final(d)@) == pair_views(old(d)@) + opt_entry(key@, v),
{
    let ghost before = pair_views(d@);
    match v {
        Some(x) => {
            push_pair(d, key, i64_to_dec(x as i64));
            assert(pair_views(d@) =~= before + opt_entry(key@, v));
        },
        None => {
            assert(pair_views(d@) =~= before + opt_entry(key@, v));
        },
    }
}

fn string_chars(s: &String) -> (v: Vec<char>)
    ensures
        v@ == s@,
{
    chars_of(s.as_str())
}

fn base_pairs(m: &SongMetadata) -> (d: Vec<(Vec<char>, Vec<char>)>)
    ensures
        pair_views(d@) == seq![
            entry("name"@, m@.name),
            entry("artist"@, m@.artist),
            entry("album"@, m@.album_name),
            entry("genre"@, m@.genre),
            entry("charter"@, m@.author),
        ],
{
    let mut d: Vec<(Vec<char>, Vec<char>)> = Vec::new();
    assert(pair_views(d@) =~= Seq::<(Seq<char>, Seq<char>)>::empty());
    push_pair(&mut d, "name", string_chars(&m.name));
    push_pair(&mut d, "artist", string_chars(&m.artist));
    push_pair(&mut d, "album", string_chars(&m.album_name));
    push_pair(&mut d, "genre", string_chars(&m.genre));
    push_pair(&mut d, "charter", string_chars(&m.author));
    assert(pair_views(d@) =~= seq![
        entry("name"@, m@.name),
        entry("artist"@, m@.artist),
        entry("album"@, m@.album_name),
        entry("genre"@, m@.genre),
        entry("charter"@, m@.author),
    ]);
    d
}

fn later_pairs(m: &SongMetadata) -> (d: Vec<(Vec<char>, Vec<char>)>)
    ensures
        pair_views(d@) == later_entries(m@),
{
    let mut d: Vec<(Vec<char>, Vec<char>)> = Vec::new();
    push_opt(&mut d, "year", m.year_released);
    assert(pair_views(d@) =~= opt_entry("year"@, m@.year_released));
    push_opt(&mut d, "song_length", m.song_length);
    push_opt(&mut d, "preview_start_time", m.preview_start);
    push_opt(&mut d, "album_track", m.album_track_number);
    push_opt(&mut d, "diff_guitar", m.rank_guitar);
    push_opt(&mut d, "diff_bass", m.rank_bass);
    push_opt(&mut d, "diff_drums", m.rank_drum);
    push_opt(&mut d, "diff_keys", m.rank_keys);
    push_opt(&mut d, "diff_vocals", m.rank_vocals);
    push_opt(&mut d, "diff_band", m.rank_band);
    push_opt(&mut d, "diff_guitar_real", m.rank_real_guitar);
    push_opt(&mut d, "diff_bass_real", m.rank_real_bass);
    push_opt(&mut d, "diff_keys_real", m.rank_real_keys);
    let origin = string_chars(&m.game_origin);
    let ghost pre = pair_views(d@);
    if origin.len() > 0 {
        push_pair(&mut d, "icon", origin);
        assert(pair_views(d@) =~= pre + seq![entry("icon"@, m@.game_origin)]);
    } else {
        assert(pair_views(d@) =~= pre + Seq::<(Seq<char>, Seq<char>)>::empty());
    }
    d
}

fn entry_pairs(m: &SongMetadata) -> (d: Vec<(Vec<char>, Vec<char>)>)
    ensures
        pair_views(d@) == meta_entries(m@),
{
    let mut d = base_pairs(m);
    let ghost base = pair_views(d@);
    let mut later = later_pairs(m);
    let ghost lv = pair_views(later@);
    d.append(&mut later);
    assert(pair_views(d@) =~= base + lv);
    d
}

fn desired_pairs(m: &SongMetadata, display_name: Option<&str>, description: Option<&str>) -> (d: Vec<
    (Vec<char>, Vec<char>),
>)
    ensures
        pair_views(d@) == desired(
            m@,
            match display_name {
                Some(n) => Some(n@),
                None => None,
            },
            match description {
                Some(x) => Some(x@),
                None => None,
            },
        ),
{
    let mut d = entry_pairs(m);
    assert(pair_views(d@).len() == d@.len());
    assert(meta_entries(m@).len() >= 5);
    match display_name {
        Some(n) => {
            let ghost pre = pair_views(d@);
            d.set(0, (chars_of("name"), chars_of(n)));
            assert(pair_views(d@) =~= pre.update(0, entry("name"@, n@)));
        },
        None => {},
    }
    match description {
        Some(x) => {
            push_pair(&mut d, "loading_phrase", chars_of(x));
        },
        None => {},
    }
    d
}

/// `match_index` finds pair `k` when no earlier pair matches and pair `k` does.
pub proof fn lemma_match_index(d: Seq<(Seq<char>, Seq<char>)>, key: Seq<char>, k: int)
    requires
        0 <= k <= d.len(),
        forall|i: int| 0 <= i < k ==> !key_matches(#[trigger] d[i], key),
        k == d.len() || key_matches(d[k], key),
    ensures
        match_index(d, key) == k,
    decreases k,
{
    if k > 0 {
        let t = d.drop_first();
        assert forall|i: int| 0 <= i < k - 1 implies !key_matches(#[trigger] t[i], key) by {
            assert(t[i] == d[i + 1]);
        }
        if k - 1 < t.len() {
            assert(t[k - 1] == d[k]);
        }
        lemma_match_index(t, key, k - 1);
    }
}

fn find_target(d: &Vec<(Vec<char>, Vec<char>)>, key: &Vec<char>) -> (j: usize)
    ensures
        j == match_index(pair_views(d@), key@),
        j <= d@.len(),
{
    let ghost dv = pair_views(d@);
    let is_frets = chars_eq_str(key.as_slice(), "frets");
    let mut k: usize = 0;
    while k < d.len()
        invariant
            k <= d@.len(),
            dv == pair_views(d@),
            is_frets == (key@ == "frets"@),
            forall|i: int| 0 <= i < k ==> !key_matches(#[trigger] dv[i], key@),
        decreases d@.len() - k,
    {
        let same = chars_eq(key.as_slice(), d[k].0.as_slice());
        let charter = chars_eq_str(d[k].0.as_slice(), "charter");
        if same || (charter && is_frets) {
            assert(key_matches(dv[k as int], key@));
            proof {
                lemma_match_index(dv, key@, k as int);
            }
            return k;
        }
        assert(!key_matches(dv[k as int], key@));
        k = k + 1;
    }
    proof {
        lemma_match_index(dv, key@, k as int);
    }
    k
}

/// `<key> = <value>`.
fn key_line(key: &[char], value: &[char]) -> (r: Vec<char>)
    ensures
        r@ == key@ + " = "@ + value@,
{
    let mut r = copy_chars(key);
    let sep = chars_of(" = ");
    extend_chars(&mut r, sep.as_slice());
    extend_chars(&mut r, value);
    r
}

/// The line as it is written back, and the pair it took, if any.
fn rewrite(d: &Vec<(Vec<char>, Vec<char>)>, line: &Vec<char>) -> (r: (Vec<char>, Option<usize>))
    ensures
        r.0@ == rewritten_line(pair_views(d@), line@),
        match r.1 {
            Some(j) => line_target(pair_views(d@), line@) == Some(j as int),
            None => line_target(pair_views(d@), line@) is None,
        },
{
    let ghost dv = pair_views(d@);
    match line_pair(line) {
        Some((kp, key, _value)) => {
            let j = find_target(d, &key);
            if j < d.len() {
                let kt = trimmed(kp.as_slice());
                let l = key_line(kt.as_slice(), d[j].1.as_slice());
                assert(dv[j as int].1 == d@[j as int].1@);
                (l, Some(j))
            } else {
                (copy_chars(line.as_slice()), None)
            }
        },
        None => (copy_chars(line.as_slice()), None),
    }
}

proof fn lemma_appended_step(d: Seq<(Seq<char>, Seq<char>)>, ls: Seq<Seq<char>>, k: int)
    requires
        0 <= k < d.len(),
    ensures
        appended(d, ls, k) == (if !pair_used(d, ls, k) && d[k].1.len() > 0 {
            seq![d[k].0 + " = "@ + d[k].1]
        } else {
            Seq::empty()
        }) + appended(d, ls, k + 1),
{
    if !pair_used(d, ls, k) && d[k].1.len() > 0 {
    } else {
        assert(Seq::<Seq<char>>::empty() + appended(d, ls, k + 1) =~= appended(d, ls, k + 1));
    }
}

/// Lines joined with `\n` between them, as characters.
fn join_chars(ls: &Vec<Vec<char>>) -> (r: Vec<char>)
    ensures
        r@ == join_lines(views(ls@)),
{
    let mut r: Vec<char> = Vec::new();
    let mut i: usize = 0;
    while i < ls.len()
        invariant
            i <= ls@.len(),
            r@ == join_lines(views(ls@).take(i as int)),
        decreases ls@.len() - i,
    {
        let ghost pre = views(ls@).take(i as int);
        let ghost nxt = views(ls@).take(i + 1);
        assert(nxt.drop_last() =~= pre);
        assert(nxt.last() == ls@[i as int]@);
        if i > 0 {
            r.push('\n');
            assert(r@ =~= join_lines(pre) + "\n"@) by {
                reveal_strlit("\n");
            }
        } else {
            assert(nxt.len() == 1);
            assert(r@ =~= Seq::<char>::empty());
        }
        extend_chars(&mut r, ls[i].as_slice());
        i = i + 1;
    }
    assert(views(ls@).take(ls@.len() as int) =~= views(ls@));
    r
}

/// Writes `meta` back into a song.ini text. Every existing `key = value` line
/// whose key (case-insensitive; `frets` counts as `charter`) is one of the
/// fields written keeps its key and gets the new value; all other lines,
/// comments and their order are kept. Fields not yet present are appended
/// when their value is not empty. `display_name` replaces the name and
/// `description` is written as `loading_phrase` when given. A trailing line
/// break of the original is kept.
#[verifier::rlimit(40)]
pub fn serialize_song_ini(
    meta: &SongMetadata,
    original: &str,
    display_name: Option<&str>,
    description: Option<&str>,
) -> (r: String)
    ensures
        r@ == song_ini_text(
            meta@,
            original@,
            match display_name {
                Some(n) => Some(n@),
                None => None,
            },
            match description {
                Some(x) => Some(x@),
                None => None,
            },
        ),
{
    let d = desired_pairs(meta, display_name, description);
    let ghost dv = pair_views(d@);
    let oc = chars_of(original);
    let ls = split_lines(oc.as_slice());
    let ghost lv = views(ls@);
    let mut out: Vec<Vec<char>> = Vec::new();
    let mut used: Vec<bool> = Vec::new();
    let mut k: usize = 0;
    while k < d.len()
        invariant
            k <= d@.len(),
            used@.len() == k,
            forall|j: int| 0 <= j < k ==> !#[trigger] used@[j],
        decreases d@.len() - k,
    {
        used.push(false);
        k = k + 1;
    }
    let mut i: usize = 0;
    while i < ls.len()
        invariant
            i <= ls@.len(),
            lv == views(ls@),
            lv == lines(original@),
            dv == pair_views(d@),
            used@.len() == d@.len(),
            views(out@) == lv.take(i as int).map_values(|l: Seq<char>| rewritten_line(dv, l)),
            forall|j: int| 0 <= j < used@.len() ==> #[trigger] used@[j] == pair_used(dv, lv.take(i as int), j),
        decreases ls@.len() - i,
    {
        let ghost before = views(out@);
        let (line, target) = rewrite(&d, &ls[i]);
        match target {
            Some(j) => {
                used.set(j, true);
            },
            None => {},
        }
        out.push(line);
        proof {
            let pre = lv.take(i as int);
            let nxt = lv.take(i + 1);
            assert(nxt =~= pre.push(lv[i as int]));
            assert(lv[i as int] == ls@[i as int]@);
            assert(views(out@) =~= before.push(line@));
            assert(line@ == rewritten_line(dv, lv[i as int]));
            assert(nxt.map_values(|l: Seq<char>| rewritten_line(dv, l)) =~= pre.map_values(
                |l: Seq<char>| rewritten_line(dv, l),
            ).push(rewritten_line(dv, lv[i as int])));
            assert(views(out@) =~= nxt.map_values(|l: Seq<char>| rewritten_line(dv, l)));
            assert forall|j: int| 0 <= j < used@.len() implies #[trigger] used@[j] == pair_used(dv, nxt, j) by {
                if pair_used(dv, pre, j) {
                    let w = choose|w: int| 0 <= w < pre.len() && line_target(dv, pre[w]) == Some(j);
                    assert(nxt[w] == pre[w]);
                }
                if pair_used(dv, nxt, j) {
                    let w = choose|w: int| 0 <= w < nxt.len() && line_target(dv, nxt[w]) == Some(j);
                    if w < pre.len() {
                        assert(nxt[w] == pre[w]);
                    }
                }
                if line_target(dv, lv[i as int]) == Some(j) {
                    assert(nxt[i as int] == lv[i as int]);
                }
            }
        }
        i = i + 1;
    }
    assert(lv.take(ls@.len() as int) =~= lv);
    let ghost mapped = views(out@);
    let mut k: usize = 0;
    assert(mapped + appended(dv, lv, 0) =~= mapped + appended(dv, lv, 0));
    while k < d.len()
        invariant
            k <= d@.len(),
            dv == pair_views(d@),
            used@.len() == d@.len(),
            forall|j: int| 0 <= j < used@.len() ==> #[trigger] used@[j] == pair_used(dv, lv, j),
            views(out@) + appended(dv, lv, k as int) == mapped + appended(dv, lv, 0),
        decreases d@.len() - k,
    {
        let ghost before = views(out@);
        proof {
            lemma_appended_step(dv, lv, k as int);
        }
        assert(dv[k as int].1 == d@[k as int].1@);
        assert(dv[k as int].0 == d@[k as int].0@);
        if !used[k] && d[k].1.len() > 0 {
            let l = key_line(d[k].0.as_slice(), d[k].1.as_slice());
            out.push(l);
            assert(views(out@) =~= before.push(l@));
            assert(views(out@) + appended(dv, lv, k + 1) =~= before + appended(dv, lv, k as int));
        } else {
            assert(before + appended(dv, lv, k + 1) =~= before + appended(dv, lv, k as int));
        }
        k = k + 1;
    }
    assert(views(out@) =~= mapped + appended(dv, lv, 0));
    let mut joined = join_chars(&out);
    let ends_nl = oc.len() > 0 && oc[oc.len() - 1] == '\n';
    if ends_nl && !(joined.len() > 0 && joined[joined.len() - 1] == '\n') {
        joined.push('\n');
    }
    string_from_chars(joined.as_slice())
}

} // verus!
