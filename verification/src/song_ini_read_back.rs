//! What reading back a song.ini written by `serialize_song_ini` gives.
use vstd::prelude::*;
use crate::dta::types::{empty_meta, MetaSpec};
use crate::song_ini::{
    loading_phrase_of, appended, desired, entry, ini_line, ini_read, ini_set, ini_skipped, join_lines, key_matches, later_entries,
    lemma_match_index, line_target, match_index, meta_entries, opt_entry, pair_used, rewritten_line, song_ini_meta,
    song_ini_text, written_lines,
};
use crate::text::{
    ascii_lower, dec_digits, first_index, int_to_dec, lemma_parse_i32_dec, parse_i32, is_ascii_text, is_ws, lemma_first_index, lemma_first_index_bounds, lines, lowercase, split_once_eq, strip_cr, trim,
    trim_end, trim_start,
};

verus! {

// ---------------------------------------------------------------- trimming

/// Whether `s[i..j]` is all white space.
pub open spec fn all_ws(s: Seq<char>, i: int, j: int) -> bool {
    forall|k: int| i <= k < j ==> is_ws(#[trigger] s[k])
}

proof fn lemma_trim_start_drop_ws(s: Seq<char>, i: int)
    requires
        0 <= i <= s.len(),
        all_ws(s, 0, i),
    ensures
        trim_start(s) == trim_start(s.skip(i)),
    decreases i,
{
    if i > 0 {
        assert(is_ws(s[0]));
        let t = s.drop_first();
        assert forall|k: int| 0 <= k < i - 1 implies is_ws(#[trigger] t[k]) by {
            assert(t[k] == s[k + 1]);
        }
        lemma_trim_start_drop_ws(t, i - 1);
        assert(t.skip(i - 1) =~= s.skip(i));
    } else {
        assert(s.skip(0) =~= s);
    }
}

proof fn lemma_trim_end_drop_ws(s: Seq<char>, j: int)
    requires
        0 <= j <= s.len(),
        all_ws(s, j, s.len() as int),
    ensures
        trim_end(s) == trim_end(s.take(j)),
    decreases s.len() - j,
{
    if j < s.len() {
        assert(is_ws(s[s.len() - 1]));
        let t = s.drop_last();
        assert forall|k: int| j <= k < t.len() implies is_ws(#[trigger] t[k]) by {
            assert(t[k] == s[k]);
        }
        lemma_trim_end_drop_ws(t, j);
        assert(t.take(j) =~= s.take(j));
    } else {
        assert(s.take(j) =~= s);
    }
}

proof fn lemma_trim_take(x: Seq<char>, m: int)
    requires
        0 <= m <= x.len(),
        all_ws(x, m, x.len() as int),
    ensures
        trim(x) == trim(x.take(m)),
    decreases x.len(),
{
    if x.len() == 0 {
        assert(x.take(m) =~= x);
    } else if is_ws(x[0]) {
        let t = x.drop_first();
        if m == 0 {
            assert(all_ws(x, 0, x.len() as int));
            lemma_trim_start_drop_ws(x, x.len() as int);
            assert(x.skip(x.len() as int) =~= Seq::<char>::empty());
            assert(x.take(0) =~= Seq::<char>::empty());
        } else {
            assert forall|k: int| m - 1 <= k < t.len() implies is_ws(#[trigger] t[k]) by {
                assert(t[k] == x[k + 1]);
            }
            lemma_trim_take(t, m - 1);
            assert(x.take(m).drop_first() =~= t.take(m - 1));
            assert(x.take(m)[0] == x[0]);
        }
    } else {
        assert(m > 0);
        assert(x.take(m)[0] == x[0]);
        lemma_trim_end_drop_ws(x, m);
    }
}

/// Trimming ignores white space cut off at either end.
pub proof fn lemma_trim_sub(s: Seq<char>, i: int, j: int)
    requires
        0 <= i <= j <= s.len(),
        all_ws(s, 0, i),
        all_ws(s, j, s.len() as int),
    ensures
        trim(s) == trim(s.subrange(i, j)),
{
    lemma_trim_start_drop_ws(s, i);
    let x = s.skip(i);
    assert forall|k: int| j - i <= k < x.len() implies is_ws(#[trigger] x[k]) by {
        assert(x[k] == s[k + i]);
    }
    lemma_trim_take(x, j - i);
    assert(x.take(j - i) =~= s.subrange(i, j));
}

proof fn lemma_trim_start_shape(s: Seq<char>)
    ensures
        exists|k: int| 0 <= k <= s.len() && trim_start(s) == s.skip(k),
        trim_start(s).len() > 0 ==> !is_ws(trim_start(s)[0]),
    decreases s.len(),
{
    if s.len() > 0 && is_ws(s[0]) {
        lemma_trim_start_shape(s.drop_first());
        let k = choose|k: int| 0 <= k <= s.drop_first().len() && trim_start(s.drop_first()) == s.drop_first().skip(k);
        assert(s.drop_first().skip(k) =~= s.skip(k + 1));
    } else {
        assert(s.skip(0) =~= s);
    }
}

proof fn lemma_trim_end_shape(s: Seq<char>)
    ensures
        exists|k: int| 0 <= k <= s.len() && trim_end(s) == s.take(k),
        trim_end(s).len() > 0 ==> !is_ws(trim_end(s)[trim_end(s).len() - 1]),
    decreases s.len(),
{
    if s.len() > 0 && is_ws(s[s.len() - 1]) {
        lemma_trim_end_shape(s.drop_last());
        let k = choose|k: int| 0 <= k <= s.drop_last().len() && trim_end(s.drop_last()) == s.drop_last().take(k);
        assert(s.drop_last().take(k) =~= s.take(k));
    } else {
        assert(s.take(s.len() as int) =~= s);
    }
}

/// A trimmed text that is not empty starts and ends with something other
/// than white space.
pub proof fn lemma_trim_ends(s: Seq<char>)
    ensures
        trim(s).len() > 0 ==> !is_ws(trim(s)[0]) && !is_ws(trim(s)[trim(s).len() - 1]),
{
    lemma_trim_start_shape(s);
    let t = trim_start(s);
    lemma_trim_end_shape(t);
    if trim(s).len() > 0 {
        let k = choose|k: int| 0 <= k <= t.len() && trim_end(t) == t.take(k);
        assert(trim(s)[0] == t[0]);
    }
}

/// Trimming a text that neither starts nor ends with white space keeps it.
pub proof fn lemma_trim_noop(s: Seq<char>)
    requires
        s.len() > 0 ==> !is_ws(s[0]) && !is_ws(s[s.len() - 1]),
    ensures
        trim(s) == s,
{
    if s.len() > 0 {
        assert(trim_start(s) == s);
    }
}


// ---------------------------------------------------------------- lines of joined lines

/// Whether `s` holds no line break.
pub open spec fn no_newline(s: Seq<char>) -> bool {
    forall|k: int| 0 <= k < s.len() ==> s[k] != '\n'
}

pub open spec fn all_single_lines(out: Seq<Seq<char>>) -> bool {
    forall|i: int| 0 <= i < out.len() ==> no_newline(#[trigger] out[i])
}

pub open spec fn strip_all(ls: Seq<Seq<char>>) -> Seq<Seq<char>> {
    ls.map_values(|l: Seq<char>| strip_cr(l))
}

proof fn lemma_lines_cons(a: Seq<char>, b: Seq<char>)
    requires
        no_newline(a),
    ensures
        lines(a + "\n"@ + b) == seq![strip_cr(a)] + lines(b),
{
    reveal_strlit("\n");
    let s = a + "\n"@ + b;
    assert(s[a.len() as int] == '\n');
    assert forall|i: int| 0 <= i < a.len() implies #[trigger] s[i] != '\n' by {
        assert(s[i] == a[i]);
    }
    lemma_first_index(s, '\n', a.len() as int);
    assert(s.take(a.len() as int) =~= a);
    assert(s.skip(a.len() as int + 1) =~= b);
}

proof fn lemma_join_front(x: Seq<char>, rest: Seq<Seq<char>>)
    requires
        rest.len() > 0,
    ensures
        join_lines(seq![x] + rest) == x + "\n"@ + join_lines(rest),
    decreases rest.len(),
{
    let all = seq![x] + rest;
    assert(join_lines(all) == join_lines(all.drop_last()) + "\n"@ + all.last());
    if rest.len() == 1 {
        assert(all.drop_last() =~= seq![x]);
        assert(all.last() == rest[0]);
        assert(join_lines(seq![x]) == x);
        assert(join_lines(rest) == rest[0]);
    } else {
        assert(join_lines(rest) == join_lines(rest.drop_last()) + "\n"@ + rest.last());
        lemma_join_front(x, rest.drop_last());
        assert(all.drop_last() =~= seq![x] + rest.drop_last());
        assert(all.last() == rest.last());
        assert(x + "\n"@ + join_lines(rest.drop_last()) + "\n"@ + rest.last() =~= x + "\n"@ + (join_lines(
            rest.drop_last(),
        ) + "\n"@ + rest.last()));
    }
}

proof fn lemma_lines_join_nl(out: Seq<Seq<char>>)
    requires
        out.len() > 0,
        all_single_lines(out),
    ensures
        lines(join_lines(out) + "\n"@) == strip_all(out),
    decreases out.len(),
{
    assert(no_newline(out[0]));
    if out.len() == 1 {
        lemma_lines_cons(out[0], Seq::empty());
        assert(out[0] + "\n"@ + Seq::<char>::empty() =~= join_lines(out) + "\n"@);
        assert(seq![strip_cr(out[0])] + lines(Seq::<char>::empty()) =~= strip_all(out));
    } else {
        let rest = out.drop_first();
        assert(out =~= seq![out[0]] + rest);
        lemma_join_front(out[0], rest);
        assert forall|i: int| 0 <= i < rest.len() implies no_newline(#[trigger] rest[i]) by {
            assert(rest[i] == out[i + 1]);
        }
        lemma_lines_join_nl(rest);
        lemma_lines_cons(out[0], join_lines(rest) + "\n"@);
        assert(out[0] + "\n"@ + join_lines(rest) + "\n"@ =~= out[0] + "\n"@ + (join_lines(rest) + "\n"@));
        assert(seq![strip_cr(out[0])] + strip_all(rest) =~= strip_all(out));
    }
}

/// The lines of `s` when `s` holds no line break: none where it is empty,
/// else `s` itself.
proof fn lemma_lines_single(s: Seq<char>)
    requires
        no_newline(s),
    ensures
        lines(s) == (if s.len() > 0 {
            seq![s]
        } else {
            Seq::<Seq<char>>::empty()
        }),
{
    if s.len() > 0 {
        lemma_first_index(s, '\n', s.len() as int);
    }
}

proof fn lemma_lines_join(out: Seq<Seq<char>>)
    requires
        out.len() > 0,
        all_single_lines(out),
    ensures
        lines(join_lines(out)) == strip_all(out.drop_last()) + (if out.last().len() > 0 {
            seq![out.last()]
        } else {
            Seq::<Seq<char>>::empty()
        }),
    decreases out.len(),
{
    assert(no_newline(out[0]));
    if out.len() == 1 {
        lemma_lines_single(out[0]);
        assert(out.drop_last() =~= Seq::<Seq<char>>::empty());
        assert(strip_all(out.drop_last()) =~= Seq::<Seq<char>>::empty());
        if out.last().len() > 0 {
            assert(strip_all(out.drop_last()) + seq![out.last()] =~= seq![out[0]]);
        } else {
            assert(strip_all(out.drop_last()) + Seq::<Seq<char>>::empty() =~= Seq::<Seq<char>>::empty());
        }
    } else {
        let rest = out.drop_first();
        assert(out =~= seq![out[0]] + rest);
        lemma_join_front(out[0], rest);
        assert forall|i: int| 0 <= i < rest.len() implies no_newline(#[trigger] rest[i]) by {
            assert(rest[i] == out[i + 1]);
        }
        lemma_lines_join(rest);
        lemma_lines_cons(out[0], join_lines(rest));
        assert(rest.last() == out.last());
        assert(out.drop_last() =~= seq![out[0]] + rest.drop_last());
        assert(strip_all(out.drop_last()) =~= seq![strip_cr(out[0])] + strip_all(rest.drop_last()));
        let tail = if out.last().len() > 0 {
            seq![out.last()]
        } else {
            Seq::<Seq<char>>::empty()
        };
        assert(seq![strip_cr(out[0])] + (strip_all(rest.drop_last()) + tail) =~= strip_all(out.drop_last())
            + tail);
    }
}

// ---------------------------------------------------------------- reading is blind to line ends

proof fn lemma_line_strip_cr(m: MetaSpec, l: Seq<char>)
    ensures
        ini_line(m, strip_cr(l)) == ini_line(m, l),
{
    if l.len() > 0 && l.last() == '\r' {
        assert(is_ws(l[l.len() - 1]));
        lemma_trim_sub(l, 0, l.len() - 1);
        assert(l.subrange(0, l.len() - 1) =~= strip_cr(l));
    }
}

proof fn lemma_read_strip_all(ls: Seq<Seq<char>>)
    ensures
        ini_read(strip_all(ls)) == ini_read(ls),
    decreases ls.len(),
{
    if ls.len() > 0 {
        lemma_read_strip_all(ls.drop_last());
        assert(strip_all(ls).drop_last() =~= strip_all(ls.drop_last()));
        assert(strip_all(ls).last() == strip_cr(ls.last()));
        lemma_line_strip_cr(ini_read(ls.drop_last()), ls.last());
    }
}

proof fn lemma_read_empty_line(m: MetaSpec)
    ensures
        ini_line(m, Seq::empty()) == m,
{
    let e = Seq::<char>::empty();
    assert(trim_start(e) == e);
    assert(trim_end(e) == e);
    assert(ini_skipped(trim(e)));
}

/// Reading the text that joins `out` (with a final line break where the
/// original had one) reads the lines of `out`.
pub proof fn lemma_read_joined(out: Seq<Seq<char>>, original: Seq<char>)
    requires
        all_single_lines(out),
    ensures
        ({
            let joined = join_lines(out);
            let text = if original.len() > 0 && original.last() == '\n' && !(joined.len() > 0
                && joined.last() == '\n') {
                joined.push('\n')
            } else {
                joined
            };
            ini_read(lines(text)) == ini_read(out)
        }),
{
    reveal_strlit("\n");
    let joined = join_lines(out);
    if out.len() == 0 {
        assert(joined == Seq::<char>::empty());
        lemma_lines_cons(Seq::empty(), Seq::empty());
        assert(Seq::<char>::empty() + "\n"@ + Seq::<char>::empty() =~= joined.push('\n'));
        assert(lines(Seq::<char>::empty()) == Seq::<Seq<char>>::empty());
        let one = seq![strip_cr(Seq::<char>::empty())];
        assert(strip_cr(Seq::<char>::empty()) == Seq::<char>::empty());
        assert(one.drop_last() =~= Seq::<Seq<char>>::empty());
        assert(seq![strip_cr(Seq::<char>::empty())] + Seq::<Seq<char>>::empty() =~= one);
        lemma_read_empty_line(empty_meta());
    } else {
        let init = out.drop_last();
        lemma_read_strip_all(out);
        lemma_read_strip_all(init);
        assert(out =~= init.push(out.last()));
        assert(ini_read(out) == ini_line(ini_read(init), out.last()));
        if original.len() > 0 && original.last() == '\n' && !(joined.len() > 0 && joined.last() == '\n') {
            lemma_lines_join_nl(out);
            assert(joined.push('\n') =~= joined + "\n"@);
            assert(ini_read(lines(joined.push('\n'))) == ini_read(out));
        } else {
            lemma_lines_join(out);
            if out.last().len() > 0 {
                let v = strip_all(init) + seq![out.last()];
                assert(v.drop_last() =~= strip_all(init));
                assert(v.last() == out.last());
                assert(ini_read(v) == ini_line(ini_read(strip_all(init)), out.last()));
                assert(ini_read(lines(joined)) == ini_read(out));
            } else {
                assert(strip_all(init) + Seq::<Seq<char>>::empty() =~= strip_all(init));
                assert(out.last() =~= Seq::<char>::empty());
                lemma_read_empty_line(ini_read(init));
                assert(ini_read(lines(joined)) == ini_read(out));
            }
        }
    }
}


// ---------------------------------------------------------------- reading the text fields

/// The key (trimmed, lower-cased) and the value (trimmed) a line carries,
/// if any.
pub open spec fn line_pair(l: Seq<char>) -> Option<(Seq<char>, Seq<char>)> {
    let t = trim(l);
    if ini_skipped(t) {
        None
    } else {
        match split_once_eq(t) {
            Some((k, v)) => Some((lowercase(trim(k)), trim(v))),
            None => None,
        }
    }
}

/// Whether line `l` carries key `k`.
pub open spec fn carries(l: Seq<char>, k: Seq<char>) -> bool {
    line_pair(l) matches Some((kk, _)) && kk == k
}

pub open spec fn has_key(ls: Seq<Seq<char>>, k: Seq<char>) -> bool {
    exists|i: int| 0 <= i < ls.len() && carries(#[trigger] ls[i], k)
}

/// Whether every line of `ls` with key `k` has value `v`.
pub open spec fn values_are(ls: Seq<Seq<char>>, k: Seq<char>, v: Seq<char>) -> bool {
    forall|i: int| 0 <= i < ls.len() && carries(#[trigger] ls[i], k) ==> line_pair(ls[i])->Some_0.1 == v
}

proof fn lemma_set_fields(m: MetaSpec, k: Seq<char>, v: Seq<char>)
    ensures
        ini_set(m, k, v).name == (if k == "name"@ {
            v
        } else {
            m.name
        }),
        ini_set(m, k, v).artist == (if k == "artist"@ {
            v
        } else {
            m.artist
        }),
        ini_set(m, k, v).album_name == (if k == "album"@ {
            v
        } else {
            m.album_name
        }),
        ini_set(m, k, v).genre == (if k == "genre"@ {
            v
        } else {
            m.genre
        }),
        ini_set(m, k, v).author == (if (k == "charter"@ || k == "frets"@) && m.author.len() == 0 {
            v
        } else {
            m.author
        }),
{
    reveal_strlit("name");
    reveal_strlit("artist");
    reveal_strlit("album");
    reveal_strlit("genre");
    reveal_strlit("year");
    reveal_strlit("charter");
    reveal_strlit("frets");
    assert("name"@.len() == 4 && "name"@[0] == 'n');
    assert("artist"@.len() == 6);
    assert("album"@.len() == 5 && "album"@[0] == 'a');
    assert("genre"@.len() == 5 && "genre"@[0] == 'g');
    assert("year"@.len() == 4 && "year"@[0] == 'y');
    assert("charter"@.len() == 7);
    assert("frets"@.len() == 5 && "frets"@[0] == 'f');
}

proof fn lemma_has_key_last(ls: Seq<Seq<char>>, k: Seq<char>)
    requires
        ls.len() > 0,
    ensures
        has_key(ls, k) == (has_key(ls.drop_last(), k) || carries(ls.last(), k)),
{
    let init = ls.drop_last();
    if has_key(ls, k) {
        let i = choose|i: int| 0 <= i < ls.len() && carries(#[trigger] ls[i], k);
        if i < init.len() {
            assert(init[i] == ls[i]);
        }
    }
    if has_key(init, k) {
        let i = choose|i: int| 0 <= i < init.len() && carries(#[trigger] init[i], k);
        assert(init[i] == ls[i]);
    }
    if carries(ls.last(), k) {
        assert(carries(ls[ls.len() - 1], k));
    }
}

proof fn lemma_values_init(ls: Seq<Seq<char>>, k: Seq<char>, v: Seq<char>)
    requires
        ls.len() > 0,
        values_are(ls, k, v),
    ensures
        values_are(ls.drop_last(), k, v),
        carries(ls.last(), k) ==> line_pair(ls.last())->Some_0.1 == v,
{
    let init = ls.drop_last();
    assert forall|i: int| 0 <= i < init.len() && carries(#[trigger] init[i], k) implies line_pair(
        init[i],
    )->Some_0.1 == v by {
        assert(init[i] == ls[i]);
    }
    if carries(ls.last(), k) {
        assert(carries(ls[ls.len() - 1], k));
    }
}

/// Whether line `l` carries `charter` or `frets`, the keys of the charter.
pub open spec fn charter_line(l: Seq<char>) -> bool {
    carries(l, "charter"@) || carries(l, "frets"@)
}

/// Whether every line of `ls` that names the charter names `cv` or nothing;
/// reading keeps the first charter that is not empty.
pub open spec fn charter_values(ls: Seq<Seq<char>>, cv: Seq<char>) -> bool {
    forall|i: int|
        0 <= i < ls.len() && charter_line(#[trigger] ls[i]) ==> line_pair(ls[i])->Some_0.1 == cv || line_pair(
            ls[i],
        )->Some_0.1.len() == 0
}

/// Whether some line of `ls` names the charter `cv`.
pub open spec fn has_charter(ls: Seq<Seq<char>>, cv: Seq<char>) -> bool {
    exists|i: int| 0 <= i < ls.len() && charter_line(#[trigger] ls[i]) && line_pair(ls[i])->Some_0.1 == cv
}

/// Reading lines whose keys each carry one value per field gives those
/// values: the name, artist, album and genre where some line carries them;
/// the charter `cv` where some line names it and it is not empty, where
/// the other lines that name a charter name it or nothing.
pub proof fn lemma_read_fields(
    ls: Seq<Seq<char>>,
    nv: Seq<char>,
    av: Seq<char>,
    lv: Seq<char>,
    gv: Seq<char>,
    cv: Seq<char>,
)
    requires
        values_are(ls, "name"@, nv),
        values_are(ls, "artist"@, av),
        values_are(ls, "album"@, lv),
        values_are(ls, "genre"@, gv),
        charter_values(ls, cv),
    ensures
        ini_read(ls).name == (if has_key(ls, "name"@) {
            nv
        } else {
            Seq::empty()
        }),
        ini_read(ls).artist == (if has_key(ls, "artist"@) {
            av
        } else {
            Seq::empty()
        }),
        ini_read(ls).album_name == (if has_key(ls, "album"@) {
            lv
        } else {
            Seq::empty()
        }),
        ini_read(ls).genre == (if has_key(ls, "genre"@) {
            gv
        } else {
            Seq::empty()
        }),
        ini_read(ls).author == (if cv.len() > 0 && has_charter(ls, cv) {
            cv
        } else {
            Seq::empty()
        }),
    decreases ls.len(),
{
    if ls.len() > 0 {
        let init = ls.drop_last();
        let last = ls.last();
        lemma_values_init(ls, "name"@, nv);
        lemma_values_init(ls, "artist"@, av);
        lemma_values_init(ls, "album"@, lv);
        lemma_values_init(ls, "genre"@, gv);
        assert(charter_values(init, cv)) by {
            assert forall|i: int| 0 <= i < init.len() && charter_line(#[trigger] init[i]) implies line_pair(
                init[i],
            )->Some_0.1 == cv || line_pair(init[i])->Some_0.1.len() == 0 by {
                assert(init[i] == ls[i]);
            }
        }
        assert(last == ls[ls.len() - 1]);
        assert(has_charter(ls, cv) == (has_charter(init, cv) || (charter_line(last) && line_pair(last)->Some_0.1
            == cv))) by {
            if has_charter(ls, cv) {
                let i = choose|i: int|
                    0 <= i < ls.len() && charter_line(#[trigger] ls[i]) && line_pair(ls[i])->Some_0.1 == cv;
                if i < init.len() {
                    assert(init[i] == ls[i]);
                }
            }
            if has_charter(init, cv) {
                let i = choose|i: int|
                    0 <= i < init.len() && charter_line(#[trigger] init[i]) && line_pair(init[i])->Some_0.1 == cv;
                assert(init[i] == ls[i]);
            }
        }
        lemma_read_fields(init, nv, av, lv, gv, cv);
        lemma_has_key_last(ls, "name"@);
        lemma_has_key_last(ls, "artist"@);
        lemma_has_key_last(ls, "album"@);
        lemma_has_key_last(ls, "genre"@);
        let m = ini_read(init);
        assert(ini_read(ls) == ini_line(m, last));
        match line_pair(last) {
            Some((k, v)) => {
                assert(ini_line(m, last) == ini_set(m, k, v));
                lemma_set_fields(m, k, v);
            },
            None => {
                assert(ini_line(m, last) == m);
            },
        }
    }
}


// ---------------------------------------------------------------- keys that are written

/// A key made of lower-case ASCII letters and `_`, as every key written is.
pub open spec fn plain_key(x: Seq<char>) -> bool {
    x.len() > 0 && forall|i: int| 0 <= i < x.len() ==> ('a' <= #[trigger] x[i] <= 'z' || x[i] == '_')
}

/// Facts about a plain key: it reads back as itself and can start a
/// `key = value` line.
pub proof fn lemma_plain_key(x: Seq<char>)
    requires
        plain_key(x),
    ensures
        lowercase(x) == x,
        !is_ws(x[0]),
        !is_ws(x.last()),
        no_newline(x),
        forall|i: int| 0 <= i < x.len() ==> #[trigger] x[i] != '=',
        x[0] != '[' && x[0] != ';' && x[0] != '#',
{
    assert(is_ascii_text(x));
    assert(ascii_lower(x) =~= x);
    assert(x.last() == x[x.len() - 1]);
}

proof fn lemma_trim_end_keep(s: Seq<char>, p: int)
    requires
        0 <= p < s.len(),
        !is_ws(s[p]),
    ensures
        p < trim_end(s).len() <= s.len(),
        trim_end(s) == s.take(trim_end(s).len() as int),
        all_ws(s, trim_end(s).len() as int, s.len() as int),
    decreases s.len(),
{
    if is_ws(s.last()) {
        let t = s.drop_last();
        assert(t[p] == s[p]);
        lemma_trim_end_keep(t, p);
        let k = trim_end(t).len() as int;
        assert(t.take(k) =~= s.take(k));
        assert forall|i: int| k <= i < s.len() implies is_ws(#[trigger] s[i]) by {
            if i < t.len() {
                assert(t[i] == s[i]);
            }
        }
    } else {
        assert(s.take(s.len() as int) =~= s);
    }
}

/// The line `<x> = <w>` carries key `x` (lower-cased) with value `w`
/// (trimmed), whatever `w` holds, when `x` is a key that can start such a line.
pub proof fn lemma_pair_line(x: Seq<char>, w: Seq<char>)
    requires
        x.len() > 0,
        !is_ws(x[0]),
        !is_ws(x.last()),
        forall|i: int| 0 <= i < x.len() ==> #[trigger] x[i] != '=',
        x[0] != '[' && x[0] != ';' && x[0] != '#',
    ensures
        line_pair(x + " = "@ + w) == Some((lowercase(x), trim(w))),
        split_once_eq(trim(x + " = "@ + w)) matches Some((kp, _)) && trim(kp) == x,
{
    reveal_strlit(" = ");
    let n = x.len() as int;
    let s = x + " = "@ + w;
    assert(s[0] == x[0]);
    assert(s[n - 1] == x.last());
    assert(s[n] == ' ' && s[n + 1] == '=' && s[n + 2] == ' ');
    assert(trim_start(s) == s);
    lemma_trim_end_keep(s, n + 1);
    let k = trim_end(s).len() as int;
    let t = trim(s);
    assert(t == s.take(k));
    assert(t[n + 1] == '=');
    assert forall|i: int| 0 <= i < n + 1 implies #[trigger] t[i] != '=' by {
        if i < n {
            assert(t[i] == x[i]);
        } else {
            assert(t[i] == ' ');
        }
    }
    lemma_first_index(t, '=', n + 1);
    let kp = t.take(n + 1);
    let v = t.skip(n + 2);
    assert(split_once_eq(t) == Some((kp, v)));
    assert(!ini_skipped(t));
    assert(kp[n] == ' ');
    lemma_trim_sub(kp, 0, n);
    assert(kp.subrange(0, n) =~= x);
    lemma_trim_noop(x);
    let s2 = s.skip(n + 2);
    assert forall|i: int| k - n - 2 <= i < s2.len() implies is_ws(#[trigger] s2[i]) by {
        assert(s2[i] == s[i + n + 2]);
    }
    lemma_trim_sub(s2, 0, k - n - 2);
    assert(s2.subrange(0, k - n - 2) =~= v);
    assert(s2[0] == ' ');
    lemma_trim_sub(s2, 1, s2.len() as int);
    assert(s2.subrange(1, s2.len() as int) =~= w);
}

/// The keys that set the five text fields when read.
pub open spec fn text_key(x: Seq<char>) -> bool {
    x == "name"@ || x == "artist"@ || x == "album"@ || x == "genre"@ || x == "charter"@ || x == "frets"@
}

/// The keys written after the five text fields.
pub open spec fn later_key(x: Seq<char>) -> bool {
    ||| x == "year"@
    ||| x == "song_length"@
    ||| x == "preview_start_time"@
    ||| x == "album_track"@
    ||| x == "diff_guitar"@
    ||| x == "diff_bass"@
    ||| x == "diff_drums"@
    ||| x == "diff_keys"@
    ||| x == "diff_vocals"@
    ||| x == "diff_band"@
    ||| x == "diff_guitar_real"@
    ||| x == "diff_bass_real"@
    ||| x == "diff_keys_real"@
    ||| x == "icon"@
    ||| x == "loading_phrase"@
}

proof fn lemma_text_keys()
    ensures
        plain_key("name"@),
        plain_key("artist"@),
        plain_key("album"@),
        plain_key("genre"@),
        plain_key("charter"@),
        "frets"@.len() > 0,
        "name"@ != "artist"@ && "name"@ != "album"@ && "name"@ != "genre"@ && "name"@ != "charter"@
            && "name"@ != "frets"@,
        "artist"@ != "album"@ && "artist"@ != "genre"@ && "artist"@ != "charter"@ && "artist"@ != "frets"@,
        "album"@ != "genre"@ && "album"@ != "charter"@ && "album"@ != "frets"@,
        "genre"@ != "charter"@ && "genre"@ != "frets"@,
        "charter"@ != "frets"@,
{
    reveal_strlit("name");
    reveal_strlit("artist");
    reveal_strlit("album");
    reveal_strlit("genre");
    reveal_strlit("charter");
    reveal_strlit("frets");
    assert("name"@.len() == 4 && "name"@[0] == 'n');
    assert("artist"@.len() == 6);
    assert("album"@.len() == 5 && "album"@[0] == 'a');
    assert("genre"@.len() == 5 && "genre"@[0] == 'g');
    assert("charter"@.len() == 7);
    assert("frets"@.len() == 5 && "frets"@[0] == 'f');
}

proof fn lemma_later_key(x: Seq<char>)
    requires
        later_key(x),
    ensures
        plain_key(x),
        !text_key(x),
{
    lemma_text_keys();
    reveal_strlit("name");
    reveal_strlit("artist");
    reveal_strlit("album");
    reveal_strlit("genre");
    reveal_strlit("charter");
    reveal_strlit("frets");
    reveal_strlit("year");
    reveal_strlit("song_length");
    reveal_strlit("preview_start_time");
    reveal_strlit("album_track");
    reveal_strlit("diff_guitar");
    reveal_strlit("diff_bass");
    reveal_strlit("diff_drums");
    reveal_strlit("diff_keys");
    reveal_strlit("diff_vocals");
    reveal_strlit("diff_band");
    reveal_strlit("diff_guitar_real");
    reveal_strlit("diff_bass_real");
    reveal_strlit("diff_keys_real");
    reveal_strlit("icon");
    reveal_strlit("loading_phrase");
    assert("name"@.len() == 4 && "name"@[0] == 'n');
    assert("artist"@.len() == 6);
    assert("album"@.len() == 5);
    assert("genre"@.len() == 5);
    assert("charter"@.len() == 7);
    assert("frets"@.len() == 5);
    assert("year"@.len() == 4 && "year"@[0] == 'y');
    assert("song_length"@.len() == 11);
    assert("preview_start_time"@.len() == 18);
    assert("album_track"@.len() == 11);
    assert("diff_guitar"@.len() == 11);
    assert("diff_bass"@.len() == 9);
    assert("diff_drums"@.len() == 10);
    assert("diff_keys"@.len() == 9);
    assert("diff_vocals"@.len() == 11);
    assert("diff_band"@.len() == 9);
    assert("diff_guitar_real"@.len() == 16);
    assert("diff_bass_real"@.len() == 14);
    assert("diff_keys_real"@.len() == 14);
    assert("icon"@.len() == 4 && "icon"@[0] == 'i');
    assert("loading_phrase"@.len() == 14);
    assert(plain_key("year"@));
    assert(plain_key("song_length"@));
    assert(plain_key("preview_start_time"@));
    assert(plain_key("album_track"@));
    assert(plain_key("diff_guitar"@));
    assert(plain_key("diff_bass"@));
    assert(plain_key("diff_drums"@));
    assert(plain_key("diff_keys"@));
    assert(plain_key("diff_vocals"@));
    assert(plain_key("diff_band"@));
    assert(plain_key("diff_guitar_real"@));
    assert(plain_key("diff_bass_real"@));
    assert(plain_key("diff_keys_real"@));
    assert(plain_key("icon"@));
    assert(plain_key("loading_phrase"@));
}

/// The pairs as far as reading them back needs: the five text fields first,
/// in order, then pairs with other keys; every key plain.
pub open spec fn well_keyed(d: Seq<(Seq<char>, Seq<char>)>) -> bool {
    &&& d.len() >= 5
    &&& d[0].0 == "name"@
    &&& d[1].0 == "artist"@
    &&& d[2].0 == "album"@
    &&& d[3].0 == "genre"@
    &&& d[4].0 == "charter"@
    &&& forall|k: int| 0 <= k < d.len() ==> plain_key(#[trigger] d[k].0)
    &&& forall|k: int| 5 <= k < d.len() ==> !text_key(#[trigger] d[k].0)
}

proof fn lemma_dec_single_line(n: nat)
    ensures
        no_newline(dec_digits(n)),
    decreases n,
{
    if n >= 10 {
        lemma_dec_single_line(n / 10);
        let p = dec_digits(n / 10);
        assert forall|k: int| 0 <= k < dec_digits(n).len() implies dec_digits(n)[k] != '\n' by {
            if k < p.len() {
                assert(dec_digits(n)[k] == p[k]);
            }
        }
    }
}

proof fn lemma_int_single_line(i: int)
    ensures
        no_newline(int_to_dec(i)),
{
    if i < 0 {
        lemma_dec_single_line((-i) as nat);
        let p = dec_digits((-i) as nat);
        assert forall|k: int| 0 <= k < int_to_dec(i).len() implies int_to_dec(i)[k] != '\n' by {
            if k > 0 {
                assert(int_to_dec(i)[k] == p[k - 1]);
            }
        }
    } else {
        lemma_dec_single_line(i as nat);
    }
}

/// Pairs with later keys, each value on one line but the origin `g`.
pub open spec fn later_ok(s: Seq<(Seq<char>, Seq<char>)>, g: Seq<char>) -> bool {
    forall|k: int|
        0 <= k < s.len() ==> later_key(#[trigger] s[k].0) && (no_newline(s[k].1) || (s[k].0 == "icon"@ && s[k].1
            == g))
}

proof fn lemma_later_ok_add(a: Seq<(Seq<char>, Seq<char>)>, b: Seq<(Seq<char>, Seq<char>)>, g: Seq<char>)
    requires
        later_ok(a, g),
        later_ok(b, g),
    ensures
        later_ok(a + b, g),
{
    assert forall|k: int| 0 <= k < (a + b).len() implies later_key(#[trigger] (a + b)[k].0) && (no_newline(
        (a + b)[k].1,
    ) || ((a + b)[k].0 == "icon"@ && (a + b)[k].1 == g)) by {
        if k < a.len() {
            assert((a + b)[k] == a[k]);
            assert(later_key(a[k].0) && (no_newline(a[k].1) || (a[k].0 == "icon"@ && a[k].1 == g)));
        } else {
            let c = b[k - a.len()];
            assert((a + b)[k] == c);
            assert(later_key(c.0) && (no_newline(c.1) || (c.0 == "icon"@ && c.1 == g)));
        }
    }
}

proof fn lemma_opt_ok(key: Seq<char>, v: Option<i32>, g: Seq<char>)
    requires
        later_key(key),
    ensures
        later_ok(opt_entry(key, v), g),
{
    if let Some(x) = v {
        lemma_int_single_line(x as int);
    }
}

proof fn lemma_later_entries(m: MetaSpec)
    ensures
        later_ok(later_entries(m), m.game_origin),
{
    let g = m.game_origin;
    let e1 = opt_entry("year"@, m.year_released);
    let e2 = opt_entry("song_length"@, m.song_length);
    let e3 = opt_entry("preview_start_time"@, m.preview_start);
    let e4 = opt_entry("album_track"@, m.album_track_number);
    let e5 = opt_entry("diff_guitar"@, m.rank_guitar);
    let e6 = opt_entry("diff_bass"@, m.rank_bass);
    let e7 = opt_entry("diff_drums"@, m.rank_drum);
    let e8 = opt_entry("diff_keys"@, m.rank_keys);
    let e9 = opt_entry("diff_vocals"@, m.rank_vocals);
    let e10 = opt_entry("diff_band"@, m.rank_band);
    let e11 = opt_entry("diff_guitar_real"@, m.rank_real_guitar);
    let e12 = opt_entry("diff_bass_real"@, m.rank_real_bass);
    let e13 = opt_entry("diff_keys_real"@, m.rank_real_keys);
    let e14 = if m.game_origin.len() > 0 {
        seq![entry("icon"@, m.game_origin)]
    } else {
        Seq::empty()
    };
    lemma_opt_ok("year"@, m.year_released, m.game_origin);
    lemma_opt_ok("song_length"@, m.song_length, m.game_origin);
    lemma_opt_ok("preview_start_time"@, m.preview_start, m.game_origin);
    lemma_opt_ok("album_track"@, m.album_track_number, m.game_origin);
    lemma_opt_ok("diff_guitar"@, m.rank_guitar, m.game_origin);
    lemma_opt_ok("diff_bass"@, m.rank_bass, m.game_origin);
    lemma_opt_ok("diff_drums"@, m.rank_drum, m.game_origin);
    lemma_opt_ok("diff_keys"@, m.rank_keys, m.game_origin);
    lemma_opt_ok("diff_vocals"@, m.rank_vocals, m.game_origin);
    lemma_opt_ok("diff_band"@, m.rank_band, m.game_origin);
    lemma_opt_ok("diff_guitar_real"@, m.rank_real_guitar, m.game_origin);
    lemma_opt_ok("diff_bass_real"@, m.rank_real_bass, m.game_origin);
    lemma_opt_ok("diff_keys_real"@, m.rank_real_keys, m.game_origin);
    assert(later_ok(e14, m.game_origin));
    lemma_later_ok_add(e1, e2, g);
    lemma_later_ok_add(e1 + e2, e3, g);
    lemma_later_ok_add(e1 + e2 + e3, e4, g);
    lemma_later_ok_add(e1 + e2 + e3 + e4, e5, g);
    lemma_later_ok_add(e1 + e2 + e3 + e4 + e5, e6, g);
    lemma_later_ok_add(e1 + e2 + e3 + e4 + e5 + e6, e7, g);
    lemma_later_ok_add(e1 + e2 + e3 + e4 + e5 + e6 + e7, e8, g);
    lemma_later_ok_add(e1 + e2 + e3 + e4 + e5 + e6 + e7 + e8, e9, g);
    lemma_later_ok_add(e1 + e2 + e3 + e4 + e5 + e6 + e7 + e8 + e9, e10, g);
    lemma_later_ok_add(e1 + e2 + e3 + e4 + e5 + e6 + e7 + e8 + e9 + e10, e11, g);
    lemma_later_ok_add(e1 + e2 + e3 + e4 + e5 + e6 + e7 + e8 + e9 + e10 + e11, e12, g);
    lemma_later_ok_add(e1 + e2 + e3 + e4 + e5 + e6 + e7 + e8 + e9 + e10 + e11 + e12, e13, g);
    lemma_later_ok_add(e1 + e2 + e3 + e4 + e5 + e6 + e7 + e8 + e9 + e10 + e11 + e12 + e13, e14, g);
}

/// The name that `serialize_song_ini` writes: the display name when given.
pub open spec fn written_name(m: MetaSpec, display_name: Option<Seq<char>>) -> Seq<char> {
    match display_name {
        Some(n) => n,
        None => m.name,
    }
}

proof fn lemma_desired_keyed(m: MetaSpec, display_name: Option<Seq<char>>, description: Option<Seq<char>>)
    requires
        no_newline(written_name(m, display_name)),
        no_newline(m.artist),
        no_newline(m.album_name),
        no_newline(m.genre),
        no_newline(m.author),
    ensures
        well_keyed(desired(m, display_name, description)),
        forall|k: int|
            0 <= k < desired(m, display_name, description).len() ==> no_newline(
                #[trigger] desired(m, display_name, description)[k].1,
            ) || (desired(m, display_name, description)[k].0 == "icon"@ && desired(
                m,
                display_name,
                description,
            )[k].1 == m.game_origin) || (desired(m, display_name, description)[k].0 == "loading_phrase"@
                && description == Some(desired(m, display_name, description)[k].1)),
        desired(m, display_name, description)[0].1 == written_name(m, display_name),
        desired(m, display_name, description)[1].1 == m.artist,
        desired(m, display_name, description)[2].1 == m.album_name,
        desired(m, display_name, description)[3].1 == m.genre,
        desired(m, display_name, description)[4].1 == m.author,
{
    lemma_text_keys();
    lemma_later_entries(m);
    let l = later_entries(m);
    let base = meta_entries(m);
    let d = desired(m, display_name, description);
    let named = match display_name {
        Some(n) => base.update(0, entry("name"@, n)),
        None => base,
    };
    assert(named.len() == base.len());
    assert forall|k: int| 5 <= k < named.len() implies #[trigger] named[k] == l[k - 5] by {
        assert(base[k] == l[k - 5]);
    }
    assert forall|k: int| 0 <= k < d.len() implies plain_key(#[trigger] d[k].0) && (5 <= k ==> !text_key(d[k].0))
        && (no_newline(d[k].1) || (d[k].0 == "icon"@ && d[k].1 == m.game_origin) || (d[k].0 == "loading_phrase"@
        && description == Some(d[k].1))) by {
        if k < named.len() {
            assert(d[k] == named[k]);
            if k >= 5 {
                assert(later_key(l[k - 5].0));
                lemma_later_key(l[k - 5].0);
            }
        } else {
            reveal_strlit("loading_phrase");
            assert(d[k].0 == "loading_phrase"@);
            lemma_later_key("loading_phrase"@);
        }
    }
    assert(d[0] == named[0]);
    assert(d[1] == named[1]);
    assert(d[2] == named[2]);
    assert(d[3] == named[3]);
    assert(d[4] == named[4]);
}

/// Every line of `lines(s)` lies on one line.
proof fn lemma_lines_single_lines(s: Seq<char>)
    ensures
        all_single_lines(lines(s)),
    decreases s.len(),
{
    if s.len() > 0 {
        let i = first_index(s, '\n');
        lemma_first_index_bounds(s, '\n');
        if i < s.len() {
            lemma_lines_single_lines(s.skip(i + 1));
            let a = strip_cr(s.take(i));
            assert forall|k: int| 0 <= k < a.len() implies a[k] != '\n' by {
                assert(a[k] == s[k]);
            }
            let r = lines(s.skip(i + 1));
            assert(lines(s) == seq![a] + r);
            assert forall|k: int| 0 <= k < (seq![a] + r).len() implies no_newline(#[trigger] (seq![a] + r)[k]) by {
                if k > 0 {
                    assert((seq![a] + r)[k] == r[k - 1]);
                }
            }
        } else {
            assert(no_newline(s));
        }
    }
}

// ---------------------------------------------------------------- the lines written

proof fn lemma_match_index_hit(d: Seq<(Seq<char>, Seq<char>)>, key: Seq<char>)
    ensures
        0 <= match_index(d, key) <= d.len(),
        match_index(d, key) < d.len() ==> key_matches(d[match_index(d, key)], key),
        forall|i: int| 0 <= i < match_index(d, key) ==> !key_matches(#[trigger] d[i], key),
    decreases d.len(),
{
    if d.len() > 0 && !key_matches(d[0], key) {
        let t = d.drop_first();
        lemma_match_index_hit(t, key);
        let j = match_index(t, key);
        if j < t.len() {
            assert(t[j] == d[j + 1]);
        }
        assert forall|i: int| 0 <= i < match_index(d, key) implies !key_matches(#[trigger] d[i], key) by {
            if i > 0 {
                assert(d[i] == t[i - 1]);
            }
        }
    }
}

/// Where the five text fields' keys find their pairs.
proof fn lemma_key_indices(d: Seq<(Seq<char>, Seq<char>)>)
    requires
        well_keyed(d),
    ensures
        match_index(d, "name"@) == 0,
        match_index(d, "artist"@) == 1,
        match_index(d, "album"@) == 2,
        match_index(d, "genre"@) == 3,
        match_index(d, "charter"@) == 4,
        match_index(d, "frets"@) == 4,
        forall|k: int| 0 <= k < d.len() && #[trigger] d[k].0 == "name"@ ==> k == 0,
        forall|k: int| 0 <= k < d.len() && #[trigger] d[k].0 == "artist"@ ==> k == 1,
        forall|k: int| 0 <= k < d.len() && #[trigger] d[k].0 == "album"@ ==> k == 2,
        forall|k: int| 0 <= k < d.len() && #[trigger] d[k].0 == "genre"@ ==> k == 3,
        forall|k: int| 0 <= k < d.len() && #[trigger] d[k].0 == "charter"@ ==> k == 4,
        forall|k: int| 0 <= k < d.len() && #[trigger] d[k].0 == "frets"@ ==> k == 4,
{
    lemma_text_keys();
    assert(!key_matches(d[0], "artist"@));
    assert(!key_matches(d[0], "album"@) && !key_matches(d[1], "album"@));
    assert(!key_matches(d[0], "genre"@) && !key_matches(d[1], "genre"@) && !key_matches(d[2], "genre"@));
    assert(!key_matches(d[0], "charter"@) && !key_matches(d[1], "charter"@) && !key_matches(d[2], "charter"@)
        && !key_matches(d[3], "charter"@));
    assert(!key_matches(d[0], "frets"@) && !key_matches(d[1], "frets"@) && !key_matches(d[2], "frets"@)
        && !key_matches(d[3], "frets"@));
    lemma_match_index(d, "name"@, 0);
    lemma_match_index(d, "artist"@, 1);
    lemma_match_index(d, "album"@, 2);
    lemma_match_index(d, "genre"@, 3);
    lemma_match_index(d, "charter"@, 4);
    lemma_match_index(d, "frets"@, 4);
    assert forall|k: int| 5 <= k < d.len() implies !text_key(#[trigger] d[k].0) by {}
}

/// A trimmed text is a slice of the text.
pub proof fn lemma_trim_range(s: Seq<char>) -> (ab: (int, int))
    ensures
        0 <= ab.0 <= ab.1 <= s.len(),
        trim(s) == s.subrange(ab.0, ab.1),
{
    lemma_trim_start_shape(s);
    let a = choose|k: int| 0 <= k <= s.len() && trim_start(s) == s.skip(k);
    let t = trim_start(s);
    lemma_trim_end_shape(t);
    let b = choose|k: int| 0 <= k <= t.len() && trim_end(t) == t.take(k);
    assert(t.take(b) =~= s.subrange(a, a + b));
    (a, a + b)
}

proof fn lemma_target_range(d: Seq<(Seq<char>, Seq<char>)>, l: Seq<char>)
    ensures
        line_target(d, l) matches Some(j) ==> 0 <= j < d.len(),
{
    if let Some((kp, _v)) = split_once_eq(trim(l)) {
        lemma_match_index_hit(d, lowercase(trim(kp)));
    }
}

/// A line rewritten with pair `j` carries the key it had, now with the
/// value of pair `j`.
proof fn lemma_rewritten(d: Seq<(Seq<char>, Seq<char>)>, l: Seq<char>, j: int) -> (x: Seq<char>)
    requires
        line_target(d, l) == Some(j),
        d[j].0.len() > 0,
    ensures
        line_pair(l) is Some,
        match_index(d, line_pair(l)->Some_0.0) == j,
        key_matches(d[j], line_pair(l)->Some_0.0),
        line_pair(rewritten_line(d, l)) == Some((line_pair(l)->Some_0.0, trim(d[j].1))),
        no_newline(l) && no_newline(d[j].1) ==> no_newline(rewritten_line(d, l)),
        rewritten_line(d, l) == x + " = "@ + d[j].1,
        x.len() > 0,
        !is_ws(x[0]),
        !is_ws(x.last()),
        forall|q: int| 0 <= q < x.len() ==> #[trigger] x[q] != '=',
        x[0] != '[' && x[0] != ';' && x[0] != '#',
        lowercase(x) == line_pair(l)->Some_0.0,
        no_newline(l) ==> no_newline(x),
{
    reveal_strlit("frets");
    reveal_strlit(" = ");
    let t = trim(l);
    let i = first_index(t, '=');
    lemma_first_index_bounds(t, '=');
    let kp = t.take(i);
    let x = trim(kp);
    let key = lowercase(x);
    assert(split_once_eq(t) == Some((kp, t.skip(i + 1))));
    lemma_match_index_hit(d, key);
    assert(key_matches(d[j], key));
    assert(key.len() > 0);
    if x.len() == 0 {
        assert(is_ascii_text(x));
        assert(ascii_lower(x) =~= x);
        assert(false);
    }
    if kp.len() == 0 {
        assert(trim_start(kp) == kp);
        assert(trim_end(kp) == kp);
        assert(false);
    }
    lemma_trim_ends(l);
    assert(kp[0] == t[0]);
    lemma_trim_ends(kp);
    assert(trim_start(kp) == kp);
    lemma_trim_end_shape(kp);
    let b = choose|k: int| 0 <= k <= kp.len() && trim_end(kp) == kp.take(k);
    assert(x[0] == kp[0]);
    let (a2, b2) = lemma_trim_range(kp);
    assert forall|q: int| 0 <= q < x.len() implies #[trigger] x[q] != '=' by {
        assert(x[q] == kp[a2 + q]);
        assert(kp[a2 + q] == t[a2 + q]);
    }
    lemma_pair_line(x, d[j].1);
    assert(rewritten_line(d, l) == x + " = "@ + d[j].1);
    if no_newline(l) {
        let (a1, b1) = lemma_trim_range(l);
        assert forall|q: int| 0 <= q < x.len() implies x[q] != '\n' by {
            assert(x[q] == kp[a2 + q]);
            assert(kp[a2 + q] == t[a2 + q]);
            assert(t[a2 + q] == l[a1 + a2 + q]);
        }
    }
    if no_newline(l) && no_newline(d[j].1) {
        let (a1, b1) = lemma_trim_range(l);
        let r = x + " = "@ + d[j].1;
        assert forall|q: int| 0 <= q < r.len() implies r[q] != '\n' by {
            if q < x.len() {
                assert(r[q] == x[q]);
                assert(x[q] == kp[a2 + q]);
                assert(kp[a2 + q] == t[a2 + q]);
                assert(t[a2 + q] == l[a1 + a2 + q]);
            } else if q >= x.len() + 3 {
                assert(r[q] == d[j].1[q - x.len() - 3]);
            }
        }
    }
    x
}

/// The line appended for pair `e`.
pub open spec fn pair_text(e: (Seq<char>, Seq<char>)) -> Seq<char> {
    e.0 + " = "@ + e.1
}

proof fn lemma_appended_at(d: Seq<(Seq<char>, Seq<char>)>, ls: Seq<Seq<char>>, s: int, p: int) -> (k: int)
    requires
        0 <= s,
        0 <= p < appended(d, ls, s).len(),
    ensures
        s <= k < d.len(),
        appended(d, ls, s)[p] == pair_text(d[k]),
    decreases d.len() - s,
{
    if s >= d.len() {
        assert(false);
        0
    } else if !pair_used(d, ls, s) && d[s].1.len() > 0 {
        let rest = appended(d, ls, s + 1);
        assert(appended(d, ls, s) == seq![d[s].0 + " = "@ + d[s].1] + rest);
        if p == 0 {
            s
        } else {
            assert(appended(d, ls, s)[p] == rest[p - 1]);
            lemma_appended_at(d, ls, s + 1, p - 1)
        }
    } else {
        lemma_appended_at(d, ls, s + 1, p)
    }
}

proof fn lemma_appended_has(d: Seq<(Seq<char>, Seq<char>)>, ls: Seq<Seq<char>>, s: int, k: int) -> (p: int)
    requires
        0 <= s <= k < d.len(),
        !pair_used(d, ls, k),
        d[k].1.len() > 0,
    ensures
        0 <= p < appended(d, ls, s).len(),
        appended(d, ls, s)[p] == pair_text(d[k]),
    decreases k - s,
{
    let rest = appended(d, ls, s + 1);
    if s == k {
        assert(appended(d, ls, s) == seq![d[s].0 + " = "@ + d[s].1] + rest);
        0
    } else {
        let q = lemma_appended_has(d, ls, s + 1, k);
        if !pair_used(d, ls, s) && d[s].1.len() > 0 {
            assert(appended(d, ls, s) == seq![d[s].0 + " = "@ + d[s].1] + rest);
            assert(appended(d, ls, s)[q + 1] == rest[q]);
            q + 1
        } else {
            q
        }
    }
}

proof fn lemma_appended_line(d: Seq<(Seq<char>, Seq<char>)>, k: int)
    requires
        well_keyed(d),
        0 <= k < d.len(),
    ensures
        line_pair(pair_text(d[k])) == Some((d[k].0, trim(d[k].1))),
        no_newline(d[k].1) ==> no_newline(pair_text(d[k])),
{
    reveal_strlit(" = ");
    assert(plain_key(d[k].0));
    lemma_plain_key(d[k].0);
    lemma_pair_line(d[k].0, d[k].1);
    let r = pair_text(d[k]);
    assert forall|q: int| 0 <= q < r.len() && no_newline(d[k].1) implies r[q] != '\n' by {
        if q < d[k].0.len() {
            assert(r[q] == d[k].0[q]);
        } else if q >= d[k].0.len() + 3 {
            assert(r[q] == d[k].1[q - d[k].0.len() - 3]);
        }
    }
}

/// What line `p` of the written lines is: an existing line, rewritten or
/// not, or an appended pair.
proof fn lemma_written_at(d: Seq<(Seq<char>, Seq<char>)>, ls: Seq<Seq<char>>, p: int) -> (k: int)
    requires
        0 <= p < written_lines(d, ls).len(),
    ensures
        p < ls.len() ==> written_lines(d, ls)[p] == rewritten_line(d, ls[p]),
        p >= ls.len() ==> 0 <= k < d.len() && written_lines(d, ls)[p] == pair_text(d[k]),
{
    let mapped = ls.map_values(|l: Seq<char>| rewritten_line(d, l));
    if p < ls.len() {
        assert(written_lines(d, ls)[p] == mapped[p]);
        0
    } else {
        assert(written_lines(d, ls)[p] == appended(d, ls, 0)[p - ls.len()]);
        lemma_appended_at(d, ls, 0, p - ls.len())
    }
}

/// Every written line with key `key` carries the value of pair `j`, trimmed,
/// pair that `key` finds.
proof fn lemma_written_values(d: Seq<(Seq<char>, Seq<char>)>, ls: Seq<Seq<char>>, key: Seq<char>, j: int)
    requires
        well_keyed(d),
        0 <= j < d.len(),
        match_index(d, key) == j,
        forall|k: int| 0 <= k < d.len() && #[trigger] d[k].0 == key ==> k == j,
    ensures
        values_are(written_lines(d, ls), key, trim(d[j].1)),
{
    let out = written_lines(d, ls);
    assert forall|p: int| 0 <= p < out.len() && carries(#[trigger] out[p], key) implies line_pair(
        out[p],
    )->Some_0.1 == trim(d[j].1) by {
        let k = lemma_written_at(d, ls, p);
        if p < ls.len() {
            lemma_target_range(d, ls[p]);
            match line_target(d, ls[p]) {
                Some(jj) => {
                    assert(plain_key(d[jj].0));
                    lemma_rewritten(d, ls[p], jj);
                },
                None => {
                    assert(line_pair(ls[p]) matches Some((kk, _)) && kk == key);
                    assert(line_target(d, ls[p]) == Some(j));
                },
            }
        } else {
            lemma_appended_line(d, k);
        }
    }
}

/// A pair with a value that is not empty is written on some line with a key
/// that finds it.
proof fn lemma_written_has(d: Seq<(Seq<char>, Seq<char>)>, ls: Seq<Seq<char>>, j: int) -> (key: Seq<char>)
    requires
        well_keyed(d),
        0 <= j < d.len(),
        d[j].1.len() > 0,
    ensures
        key_matches(d[j], key),
        has_key(written_lines(d, ls), key),
{
    let out = written_lines(d, ls);
    if pair_used(d, ls, j) {
        let i = choose|i: int| 0 <= i < ls.len() && line_target(d, ls[i]) == Some(j);
        assert(plain_key(d[j].0));
        lemma_rewritten(d, ls[i], j);
        lemma_written_at(d, ls, i);
        let key = line_pair(ls[i])->Some_0.0;
        assert(carries(out[i], key));
        key
    } else {
        let p = lemma_appended_has(d, ls, 0, j);
        assert(out[ls.len() + p] == appended(d, ls, 0)[p]);
        lemma_appended_line(d, j);
        assert(carries(out[ls.len() + p], d[j].0));
        d[j].0
    }
}

// ---------------------------------------------------------------- the numeric fields and the origin

proof fn lemma_key_literals()
    ensures
        "name"@.len() == 4 && "name"@[0] == 'n',
        "artist"@.len() == 6,
        "album"@.len() == 5 && "album"@[0] == 'a',
        "genre"@.len() == 5 && "genre"@[0] == 'g',
        "charter"@.len() == 7,
        "frets"@.len() == 5 && "frets"@[0] == 'f',
        "year"@.len() == 4 && "year"@[0] == 'y',
        "song_length"@.len() == 11 && "song_length"@[0] == 's',
        "preview_start_time"@.len() == 18,
        "album_track"@.len() == 11 && "album_track"@[0] == 'a',
        "diff_guitar"@.len() == 11 && "diff_guitar"@[0] == 'd' && "diff_guitar"@[5] == 'g',
        "diff_bass"@.len() == 9 && "diff_bass"@[5] == 'b' && "diff_bass"@[7] == 's',
        "diff_drums"@.len() == 10,
        "diff_keys"@.len() == 9 && "diff_keys"@[5] == 'k',
        "diff_vocals"@.len() == 11 && "diff_vocals"@[0] == 'd' && "diff_vocals"@[5] == 'v',
        "diff_band"@.len() == 9 && "diff_band"@[5] == 'b' && "diff_band"@[7] == 'n',
        "diff_guitar_real"@.len() == 16,
        "diff_bass_real"@.len() == 14 && "diff_bass_real"@[0] == 'd' && "diff_bass_real"@[5] == 'b',
        "diff_keys_real"@.len() == 14 && "diff_keys_real"@[0] == 'd' && "diff_keys_real"@[5] == 'k',
        "icon"@.len() == 4 && "icon"@[0] == 'i',
        "loading_phrase"@.len() == 14 && "loading_phrase"@[0] == 'l',
{
    reveal_strlit("name");
    reveal_strlit("artist");
    reveal_strlit("album");
    reveal_strlit("genre");
    reveal_strlit("charter");
    reveal_strlit("frets");
    reveal_strlit("year");
    reveal_strlit("song_length");
    reveal_strlit("preview_start_time");
    reveal_strlit("album_track");
    reveal_strlit("diff_guitar");
    reveal_strlit("diff_bass");
    reveal_strlit("diff_drums");
    reveal_strlit("diff_keys");
    reveal_strlit("diff_vocals");
    reveal_strlit("diff_band");
    reveal_strlit("diff_guitar_real");
    reveal_strlit("diff_bass_real");
    reveal_strlit("diff_keys_real");
    reveal_strlit("icon");
    reveal_strlit("loading_phrase");
}

/// The text written for a number that may be unset.
pub open spec fn dec_opt(o: Option<i32>) -> Seq<char> {
    match o {
        Some(x) => int_to_dec(x as int),
        None => Seq::empty(),
    }
}

/// The value written for a later key (other than `loading_phrase`).
#[verifier::opaque]
pub open spec fn later_value(m: MetaSpec, k: Seq<char>) -> Seq<char> {
    if k == "year"@ {
        dec_opt(m.year_released)
    } else if k == "song_length"@ {
        dec_opt(m.song_length)
    } else if k == "preview_start_time"@ {
        dec_opt(m.preview_start)
    } else if k == "album_track"@ {
        dec_opt(m.album_track_number)
    } else if k == "diff_guitar"@ {
        dec_opt(m.rank_guitar)
    } else if k == "diff_bass"@ {
        dec_opt(m.rank_bass)
    } else if k == "diff_drums"@ {
        dec_opt(m.rank_drum)
    } else if k == "diff_keys"@ {
        dec_opt(m.rank_keys)
    } else if k == "diff_vocals"@ {
        dec_opt(m.rank_vocals)
    } else if k == "diff_band"@ {
        dec_opt(m.rank_band)
    } else if k == "diff_guitar_real"@ {
        dec_opt(m.rank_real_guitar)
    } else if k == "diff_bass_real"@ {
        dec_opt(m.rank_real_bass)
    } else if k == "diff_keys_real"@ {
        dec_opt(m.rank_real_keys)
    } else {
        m.game_origin
    }
}

/// The place of a later key in the order in which the pairs are written.
#[verifier::opaque]
pub open spec fn later_rank(k: Seq<char>) -> int {
    if k == "year"@ {
        0
    } else if k == "song_length"@ {
        1
    } else if k == "preview_start_time"@ {
        2
    } else if k == "album_track"@ {
        3
    } else if k == "diff_guitar"@ {
        4
    } else if k == "diff_bass"@ {
        5
    } else if k == "diff_drums"@ {
        6
    } else if k == "diff_keys"@ {
        7
    } else if k == "diff_vocals"@ {
        8
    } else if k == "diff_band"@ {
        9
    } else if k == "diff_guitar_real"@ {
        10
    } else if k == "diff_bass_real"@ {
        11
    } else if k == "diff_keys_real"@ {
        12
    } else if k == "icon"@ {
        13
    } else {
        14
    }
}

/// Later pairs of `m` in write order, with ranks in `lo..hi`.
#[verifier::opaque]
pub open spec fn later_run(s: Seq<(Seq<char>, Seq<char>)>, m: MetaSpec, lo: int, hi: int) -> bool {
    &&& forall|i: int|
        0 <= i < s.len() ==> later_key(#[trigger] s[i].0) && s[i].1 == later_value(m, s[i].0) && lo <= later_rank(
            s[i].0,
        ) < hi
    &&& forall|i: int, j: int| 0 <= i < j < s.len() ==> later_rank(#[trigger] s[i].0) < later_rank(#[trigger] s[j].0)
}

proof fn lemma_later_run_add(
    a: Seq<(Seq<char>, Seq<char>)>,
    b: Seq<(Seq<char>, Seq<char>)>,
    m: MetaSpec,
    lo: int,
    mid: int,
    hi: int,
)
    requires
        lo <= mid <= hi,
        later_run(a, m, lo, mid),
        later_run(b, m, mid, hi),
    ensures
        later_run(a + b, m, lo, hi),
{
    reveal(later_run);
    let c = a + b;
    assert forall|i: int| 0 <= i < c.len() implies later_key(#[trigger] c[i].0) && c[i].1 == later_value(m, c[i].0)
        && lo <= later_rank(c[i].0) < hi by {
        if i < a.len() {
            assert(c[i] == a[i]);
            assert(later_key(a[i].0) && a[i].1 == later_value(m, a[i].0) && lo <= later_rank(a[i].0) < mid);
        } else {
            assert(c[i] == b[i - a.len()]);
            assert(later_key(b[i - a.len()].0) && b[i - a.len()].1 == later_value(m, b[i - a.len()].0) && mid
                <= later_rank(b[i - a.len()].0) < hi);
        }
    }
    assert forall|i: int, j: int| 0 <= i < j < c.len() implies later_rank(#[trigger] c[i].0) < later_rank(
        #[trigger] c[j].0,
    ) by {
        if j < a.len() {
            assert(c[i] == a[i] && c[j] == a[j]);
        } else if i >= a.len() {
            assert(c[i] == b[i - a.len()] && c[j] == b[j - a.len()]);
            assert(later_rank(b[i - a.len()].0) < later_rank(b[j - a.len()].0));
        } else {
            assert(c[i] == a[i] && c[j] == b[j - a.len()]);
            assert(later_rank(a[i].0) < mid);
            assert(mid <= later_rank(b[j - a.len()].0));
        }
    }
}

/// The keys of a list of pairs.
#[verifier::opaque]
pub open spec fn key_set(s: Seq<(Seq<char>, Seq<char>)>) -> Set<Seq<char>> {
    Set::new(|k: Seq<char>| exists|i: int| 0 <= i < s.len() && s[i].0 == k)
}

proof fn lemma_key_set_add(a: Seq<(Seq<char>, Seq<char>)>, b: Seq<(Seq<char>, Seq<char>)>)
    ensures
        key_set(a + b) == key_set(a).union(key_set(b)),
{
    reveal(key_set);
    let c = a + b;
    assert forall|k: Seq<char>| key_set(c).contains(k) == key_set(a).union(key_set(b)).contains(k) by {
        if key_set(c).contains(k) {
            let i = choose|i: int| 0 <= i < c.len() && c[i].0 == k;
            if i < a.len() {
                assert(c[i] == a[i]);
                assert(key_set(a).contains(k));
            } else {
                assert(c[i] == b[i - a.len()]);
                assert(key_set(b).contains(k));
            }
        }
        if key_set(a).contains(k) {
            let i = choose|i: int| 0 <= i < a.len() && a[i].0 == k;
            assert(c[i] == a[i]);
            assert(key_set(c).contains(k));
        }
        if key_set(b).contains(k) {
            let i = choose|i: int| 0 <= i < b.len() && b[i].0 == k;
            assert(c[i + a.len()] == b[i]);
            assert(key_set(c).contains(k));
        }
    }
    assert(key_set(c) =~= key_set(a).union(key_set(b)));
}

proof fn lemma_opt_run(m: MetaSpec, key: Seq<char>, v: Option<i32>, r: int)
    requires
        later_key(key),
        later_rank(key) == r,
        later_value(m, key) == dec_opt(v),
    ensures
        later_run(opt_entry(key, v), m, r, r + 1),
        v is Some ==> key_set(opt_entry(key, v)).contains(key),
{
    reveal(later_run);
    reveal(key_set);
    if v is Some {
        assert(opt_entry(key, v)[0].0 == key);
    }
}

proof fn lemma_later_ranks()
    ensures
        later_rank("year"@) == 0,
        later_rank("song_length"@) == 1,
        later_rank("preview_start_time"@) == 2,
        later_rank("album_track"@) == 3,
        later_rank("diff_guitar"@) == 4,
        later_rank("diff_bass"@) == 5,
        later_rank("diff_drums"@) == 6,
        later_rank("diff_keys"@) == 7,
        later_rank("diff_vocals"@) == 8,
        later_rank("diff_band"@) == 9,
        later_rank("diff_guitar_real"@) == 10,
        later_rank("diff_bass_real"@) == 11,
        later_rank("diff_keys_real"@) == 12,
        later_rank("icon"@) == 13,
        later_rank("loading_phrase"@) == 14,
{
    reveal(later_rank);
    lemma_key_literals();
}

proof fn lemma_later_values(m: MetaSpec)
    ensures
        later_value(m, "year"@) == dec_opt(m.year_released),
        later_value(m, "song_length"@) == dec_opt(m.song_length),
        later_value(m, "preview_start_time"@) == dec_opt(m.preview_start),
        later_value(m, "album_track"@) == dec_opt(m.album_track_number),
        later_value(m, "diff_guitar"@) == dec_opt(m.rank_guitar),
        later_value(m, "diff_bass"@) == dec_opt(m.rank_bass),
        later_value(m, "diff_drums"@) == dec_opt(m.rank_drum),
        later_value(m, "diff_keys"@) == dec_opt(m.rank_keys),
        later_value(m, "diff_vocals"@) == dec_opt(m.rank_vocals),
        later_value(m, "diff_band"@) == dec_opt(m.rank_band),
        later_value(m, "diff_guitar_real"@) == dec_opt(m.rank_real_guitar),
        later_value(m, "diff_bass_real"@) == dec_opt(m.rank_real_bass),
        later_value(m, "diff_keys_real"@) == dec_opt(m.rank_real_keys),
        later_value(m, "icon"@) == m.game_origin,
{
    reveal(later_value);
    lemma_key_literals();
}

proof fn lemma_opt_key(key: Seq<char>, v: Option<i32>)
    ensures
        v is Some ==> key_set(opt_entry(key, v)).contains(key),
        forall|k: Seq<char>| #[trigger] key_set(opt_entry(key, v)).contains(k) ==> k == key && v is Some,
{
    reveal(key_set);
    if v is Some {
        assert(opt_entry(key, v)[0].0 == key);
    }
}

/// The pairs written after the five text fields: each with a later key and
/// the value of its field, in write order.
proof fn lemma_later_shape(m: MetaSpec)
    ensures
        later_run(later_entries(m), m, 0, 14),
{
    lemma_later_ranks();
    lemma_later_values(m);
    let e1 = opt_entry("year"@, m.year_released);
    let e2 = opt_entry("song_length"@, m.song_length);
    let e3 = opt_entry("preview_start_time"@, m.preview_start);
    let e4 = opt_entry("album_track"@, m.album_track_number);
    let e5 = opt_entry("diff_guitar"@, m.rank_guitar);
    let e6 = opt_entry("diff_bass"@, m.rank_bass);
    let e7 = opt_entry("diff_drums"@, m.rank_drum);
    let e8 = opt_entry("diff_keys"@, m.rank_keys);
    let e9 = opt_entry("diff_vocals"@, m.rank_vocals);
    let e10 = opt_entry("diff_band"@, m.rank_band);
    let e11 = opt_entry("diff_guitar_real"@, m.rank_real_guitar);
    let e12 = opt_entry("diff_bass_real"@, m.rank_real_bass);
    let e13 = opt_entry("diff_keys_real"@, m.rank_real_keys);
    let e14 = if m.game_origin.len() > 0 {
        seq![entry("icon"@, m.game_origin)]
    } else {
        Seq::empty()
    };
    lemma_opt_run(m, "year"@, m.year_released, 0);
    lemma_opt_run(m, "song_length"@, m.song_length, 1);
    lemma_opt_run(m, "preview_start_time"@, m.preview_start, 2);
    lemma_opt_run(m, "album_track"@, m.album_track_number, 3);
    lemma_opt_run(m, "diff_guitar"@, m.rank_guitar, 4);
    lemma_opt_run(m, "diff_bass"@, m.rank_bass, 5);
    lemma_opt_run(m, "diff_drums"@, m.rank_drum, 6);
    lemma_opt_run(m, "diff_keys"@, m.rank_keys, 7);
    lemma_opt_run(m, "diff_vocals"@, m.rank_vocals, 8);
    lemma_opt_run(m, "diff_band"@, m.rank_band, 9);
    lemma_opt_run(m, "diff_guitar_real"@, m.rank_real_guitar, 10);
    lemma_opt_run(m, "diff_bass_real"@, m.rank_real_bass, 11);
    lemma_opt_run(m, "diff_keys_real"@, m.rank_real_keys, 12);
    assert(later_run(e14, m, 13, 14)) by {
        reveal(later_run);
    }
    let a2 = e1 + e2;
    let a3 = a2 + e3;
    let a4 = a3 + e4;
    let a5 = a4 + e5;
    let a6 = a5 + e6;
    let a7 = a6 + e7;
    let a8 = a7 + e8;
    let a9 = a8 + e9;
    let a10 = a9 + e10;
    let a11 = a10 + e11;
    let a12 = a11 + e12;
    let a13 = a12 + e13;
    lemma_later_run_add(e1, e2, m, 0, 1, 2);
    lemma_later_run_add(a2, e3, m, 0, 2, 3);
    lemma_later_run_add(a3, e4, m, 0, 3, 4);
    lemma_later_run_add(a4, e5, m, 0, 4, 5);
    lemma_later_run_add(a5, e6, m, 0, 5, 6);
    lemma_later_run_add(a6, e7, m, 0, 6, 7);
    lemma_later_run_add(a7, e8, m, 0, 7, 8);
    lemma_later_run_add(a8, e9, m, 0, 8, 9);
    lemma_later_run_add(a9, e10, m, 0, 9, 10);
    lemma_later_run_add(a10, e11, m, 0, 10, 11);
    lemma_later_run_add(a11, e12, m, 0, 11, 12);
    lemma_later_run_add(a12, e13, m, 0, 12, 13);
    lemma_later_run_add(a13, e14, m, 0, 13, 14);
}

/// The keys of the later pairs: one for each field that is set.
#[verifier::rlimit(40)]
proof fn lemma_later_keys(m: MetaSpec)
    ensures
        m.year_released is Some ==> key_set(later_entries(m)).contains("year"@),
        m.song_length is Some ==> key_set(later_entries(m)).contains("song_length"@),
        m.preview_start is Some ==> key_set(later_entries(m)).contains("preview_start_time"@),
        m.album_track_number is Some ==> key_set(later_entries(m)).contains("album_track"@),
        m.rank_guitar is Some ==> key_set(later_entries(m)).contains("diff_guitar"@),
        m.rank_bass is Some ==> key_set(later_entries(m)).contains("diff_bass"@),
        m.rank_drum is Some ==> key_set(later_entries(m)).contains("diff_drums"@),
        m.rank_keys is Some ==> key_set(later_entries(m)).contains("diff_keys"@),
        m.rank_vocals is Some ==> key_set(later_entries(m)).contains("diff_vocals"@),
        m.rank_band is Some ==> key_set(later_entries(m)).contains("diff_band"@),
        m.rank_real_guitar is Some ==> key_set(later_entries(m)).contains("diff_guitar_real"@),
        m.rank_real_bass is Some ==> key_set(later_entries(m)).contains("diff_bass_real"@),
        m.rank_real_keys is Some ==> key_set(later_entries(m)).contains("diff_keys_real"@),
        m.game_origin.len() > 0 ==> key_set(later_entries(m)).contains("icon"@),
{
    let e1 = opt_entry("year"@, m.year_released);
    let e2 = opt_entry("song_length"@, m.song_length);
    let e3 = opt_entry("preview_start_time"@, m.preview_start);
    let e4 = opt_entry("album_track"@, m.album_track_number);
    let e5 = opt_entry("diff_guitar"@, m.rank_guitar);
    let e6 = opt_entry("diff_bass"@, m.rank_bass);
    let e7 = opt_entry("diff_drums"@, m.rank_drum);
    let e8 = opt_entry("diff_keys"@, m.rank_keys);
    let e9 = opt_entry("diff_vocals"@, m.rank_vocals);
    let e10 = opt_entry("diff_band"@, m.rank_band);
    let e11 = opt_entry("diff_guitar_real"@, m.rank_real_guitar);
    let e12 = opt_entry("diff_bass_real"@, m.rank_real_bass);
    let e13 = opt_entry("diff_keys_real"@, m.rank_real_keys);
    let e14 = if m.game_origin.len() > 0 {
        seq![entry("icon"@, m.game_origin)]
    } else {
        Seq::empty()
    };
    if m.game_origin.len() > 0 {
        assert(key_set(e14).contains("icon"@)) by {
            reveal(key_set);
            assert(e14[0].0 == "icon"@);
        }
    }
    lemma_opt_key("year"@, m.year_released);
    lemma_opt_key("song_length"@, m.song_length);
    lemma_opt_key("preview_start_time"@, m.preview_start);
    lemma_opt_key("album_track"@, m.album_track_number);
    lemma_opt_key("diff_guitar"@, m.rank_guitar);
    lemma_opt_key("diff_bass"@, m.rank_bass);
    lemma_opt_key("diff_drums"@, m.rank_drum);
    lemma_opt_key("diff_keys"@, m.rank_keys);
    lemma_opt_key("diff_vocals"@, m.rank_vocals);
    lemma_opt_key("diff_band"@, m.rank_band);
    lemma_opt_key("diff_guitar_real"@, m.rank_real_guitar);
    lemma_opt_key("diff_bass_real"@, m.rank_real_bass);
    lemma_opt_key("diff_keys_real"@, m.rank_real_keys);
    let a2 = e1 + e2;
    let a3 = a2 + e3;
    let a4 = a3 + e4;
    let a5 = a4 + e5;
    let a6 = a5 + e6;
    let a7 = a6 + e7;
    let a8 = a7 + e8;
    let a9 = a8 + e9;
    let a10 = a9 + e10;
    let a11 = a10 + e11;
    let a12 = a11 + e12;
    let a13 = a12 + e13;
    lemma_key_set_add(e1, e2);
    lemma_key_set_add(a2, e3);
    lemma_key_set_add(a3, e4);
    lemma_key_set_add(a4, e5);
    lemma_key_set_add(a5, e6);
    lemma_key_set_add(a6, e7);
    lemma_key_set_add(a7, e8);
    lemma_key_set_add(a8, e9);
    lemma_key_set_add(a9, e10);
    lemma_key_set_add(a10, e11);
    lemma_key_set_add(a11, e12);
    lemma_key_set_add(a12, e13);
    lemma_key_set_add(a13, e14);
}

/// Whether key `k` is written after the text fields for `m`: the origin
/// where it is not empty, or a numeric field that is set.
pub open spec fn later_written(m: MetaSpec, k: Seq<char>) -> bool {
    ||| (k == "icon"@ && m.game_origin.len() > 0)
    ||| exists|f: int| 0 <= f < 13 && k == number_key(f) && #[trigger] number_field(m, f) is Some
}

proof fn lemma_opt_written(m: MetaSpec, f: int)
    requires
        0 <= f < 13,
    ensures
        forall|k: Seq<char>| #[trigger] key_set(opt_entry(number_key(f), number_field(m, f))).contains(k) ==> later_written(m, k),
{
    lemma_opt_key(number_key(f), number_field(m, f));
}

/// The later pairs are those of the fields that are set.
proof fn lemma_later_keys_only(m: MetaSpec)
    ensures
        forall|k: Seq<char>| #[trigger] key_set(later_entries(m)).contains(k) ==> later_written(m, k),
{
    let e1 = opt_entry(number_key(0), number_field(m, 0));
    let e2 = opt_entry(number_key(1), number_field(m, 1));
    let e3 = opt_entry(number_key(2), number_field(m, 2));
    let e4 = opt_entry(number_key(3), number_field(m, 3));
    let e5 = opt_entry(number_key(4), number_field(m, 4));
    let e6 = opt_entry(number_key(5), number_field(m, 5));
    let e7 = opt_entry(number_key(6), number_field(m, 6));
    let e8 = opt_entry(number_key(7), number_field(m, 7));
    let e9 = opt_entry(number_key(8), number_field(m, 8));
    let e10 = opt_entry(number_key(9), number_field(m, 9));
    let e11 = opt_entry(number_key(10), number_field(m, 10));
    let e12 = opt_entry(number_key(11), number_field(m, 11));
    let e13 = opt_entry(number_key(12), number_field(m, 12));
    let e14 = if m.game_origin.len() > 0 {
        seq![entry("icon"@, m.game_origin)]
    } else {
        Seq::empty()
    };
    assert(later_entries(m) == e1 + e2 + e3 + e4 + e5 + e6 + e7 + e8 + e9 + e10 + e11 + e12 + e13 + e14);
    lemma_opt_written(m, 0);
    lemma_opt_written(m, 1);
    lemma_opt_written(m, 2);
    lemma_opt_written(m, 3);
    lemma_opt_written(m, 4);
    lemma_opt_written(m, 5);
    lemma_opt_written(m, 6);
    lemma_opt_written(m, 7);
    lemma_opt_written(m, 8);
    lemma_opt_written(m, 9);
    lemma_opt_written(m, 10);
    lemma_opt_written(m, 11);
    lemma_opt_written(m, 12);
    assert forall|k: Seq<char>| #[trigger] key_set(e14).contains(k) implies later_written(m, k) by {
        reveal(key_set);
    }
    let a2 = e1 + e2;
    let a3 = a2 + e3;
    let a4 = a3 + e4;
    let a5 = a4 + e5;
    let a6 = a5 + e6;
    let a7 = a6 + e7;
    let a8 = a7 + e8;
    let a9 = a8 + e9;
    let a10 = a9 + e10;
    let a11 = a10 + e11;
    let a12 = a11 + e12;
    let a13 = a12 + e13;
    lemma_key_set_add(e1, e2);
    assert(forall|k: Seq<char>| #[trigger] key_set(a2).contains(k) ==> later_written(m, k));
    lemma_key_set_add(a2, e3);
    assert(forall|k: Seq<char>| #[trigger] key_set(a3).contains(k) ==> later_written(m, k));
    lemma_key_set_add(a3, e4);
    assert(forall|k: Seq<char>| #[trigger] key_set(a4).contains(k) ==> later_written(m, k));
    lemma_key_set_add(a4, e5);
    assert(forall|k: Seq<char>| #[trigger] key_set(a5).contains(k) ==> later_written(m, k));
    lemma_key_set_add(a5, e6);
    assert(forall|k: Seq<char>| #[trigger] key_set(a6).contains(k) ==> later_written(m, k));
    lemma_key_set_add(a6, e7);
    assert(forall|k: Seq<char>| #[trigger] key_set(a7).contains(k) ==> later_written(m, k));
    lemma_key_set_add(a7, e8);
    assert(forall|k: Seq<char>| #[trigger] key_set(a8).contains(k) ==> later_written(m, k));
    lemma_key_set_add(a8, e9);
    assert(forall|k: Seq<char>| #[trigger] key_set(a9).contains(k) ==> later_written(m, k));
    lemma_key_set_add(a9, e10);
    assert(forall|k: Seq<char>| #[trigger] key_set(a10).contains(k) ==> later_written(m, k));
    lemma_key_set_add(a10, e11);
    assert(forall|k: Seq<char>| #[trigger] key_set(a11).contains(k) ==> later_written(m, k));
    lemma_key_set_add(a11, e12);
    assert(forall|k: Seq<char>| #[trigger] key_set(a12).contains(k) ==> later_written(m, k));
    lemma_key_set_add(a12, e13);
    assert(forall|k: Seq<char>| #[trigger] key_set(a13).contains(k) ==> later_written(m, k));
    lemma_key_set_add(a13, e14);
}

/// The key of the numeric field number `f` (`0..13`), in write order.
pub open spec fn number_key(f: int) -> Seq<char> {
    if f == 0 {
        "year"@
    } else if f == 1 {
        "song_length"@
    } else if f == 2 {
        "preview_start_time"@
    } else if f == 3 {
        "album_track"@
    } else if f == 4 {
        "diff_guitar"@
    } else if f == 5 {
        "diff_bass"@
    } else if f == 6 {
        "diff_drums"@
    } else if f == 7 {
        "diff_keys"@
    } else if f == 8 {
        "diff_vocals"@
    } else if f == 9 {
        "diff_band"@
    } else if f == 10 {
        "diff_guitar_real"@
    } else if f == 11 {
        "diff_bass_real"@
    } else {
        "diff_keys_real"@
    }
}

/// The numeric field number `f` (`0..13`) of `m`.
pub open spec fn number_field(m: MetaSpec, f: int) -> Option<i32> {
    if f == 0 {
        m.year_released
    } else if f == 1 {
        m.song_length
    } else if f == 2 {
        m.preview_start
    } else if f == 3 {
        m.album_track_number
    } else if f == 4 {
        m.rank_guitar
    } else if f == 5 {
        m.rank_bass
    } else if f == 6 {
        m.rank_drum
    } else if f == 7 {
        m.rank_keys
    } else if f == 8 {
        m.rank_vocals
    } else if f == 9 {
        m.rank_band
    } else if f == 10 {
        m.rank_real_guitar
    } else if f == 11 {
        m.rank_real_bass
    } else {
        m.rank_real_keys
    }
}

proof fn lemma_number_key(m: MetaSpec, f: int)
    requires
        0 <= f < 13,
    ensures
        later_key(number_key(f)),
        later_rank(number_key(f)) == f,
        later_value(m, number_key(f)) == dec_opt(number_field(m, f)),
        number_field(m, f) is Some ==> key_set(later_entries(m)).contains(number_key(f)),
        !text_key(number_key(f)),
{
    lemma_later_ranks();
    lemma_later_values(m);
    lemma_later_keys(m);
    lemma_later_key(number_key(f));
}

proof fn lemma_set_number(m: MetaSpec, k: Seq<char>, w: Seq<char>, f: int)
    requires
        0 <= f < 13,
    ensures
        number_field(ini_set(m, k, w), f) == (if k == number_key(f) {
            parse_i32(w)
        } else {
            number_field(m, f)
        }),
{
    lemma_key_literals();
}

proof fn lemma_set_origin(m: MetaSpec, k: Seq<char>, w: Seq<char>)
    ensures
        ini_set(m, k, w).game_origin == (if k == "icon"@ {
            w
        } else {
            m.game_origin
        }),
{
    lemma_key_literals();
}

/// Reading lines whose `number_key(f)` lines all carry `v` sets field `f`
/// from `v` where some line carries that key.
proof fn lemma_read_number(ls: Seq<Seq<char>>, f: int, v: Seq<char>)
    requires
        0 <= f < 13,
        values_are(ls, number_key(f), v),
    ensures
        number_field(ini_read(ls), f) == (if has_key(ls, number_key(f)) {
            parse_i32(v)
        } else {
            None
        }),
    decreases ls.len(),
{
    if ls.len() > 0 {
        let key = number_key(f);
        let init = ls.drop_last();
        let last = ls.last();
        lemma_values_init(ls, key, v);
        lemma_read_number(init, f, v);
        lemma_has_key_last(ls, key);
        let mm = ini_read(init);
        assert(ini_read(ls) == ini_line(mm, last));
        match line_pair(last) {
            Some((k, w)) => {
                assert(ini_line(mm, last) == ini_set(mm, k, w));
                lemma_set_number(mm, k, w, f);
            },
            None => {
                assert(ini_line(mm, last) == mm);
            },
        }
    }
}

/// Reading lines whose `icon` lines all carry `v` sets the origin to `v`
/// where some line carries `icon`.
proof fn lemma_read_origin(ls: Seq<Seq<char>>, v: Seq<char>)
    requires
        values_are(ls, "icon"@, v),
    ensures
        ini_read(ls).game_origin == (if has_key(ls, "icon"@) {
            v
        } else {
            Seq::<char>::empty()
        }),
    decreases ls.len(),
{
    if ls.len() > 0 {
        let init = ls.drop_last();
        let last = ls.last();
        lemma_values_init(ls, "icon"@, v);
        lemma_read_origin(init, v);
        lemma_has_key_last(ls, "icon"@);
        let mm = ini_read(init);
        assert(ini_read(ls) == ini_line(mm, last));
        match line_pair(last) {
            Some((k, w)) => {
                assert(ini_line(mm, last) == ini_set(mm, k, w));
                lemma_set_origin(mm, k, w);
            },
            None => {
                assert(ini_line(mm, last) == mm);
            },
        }
    }
}

/// Where a later key that is written stands among the pairs: once, after the
/// text fields, with the value of its field.
proof fn lemma_later_index(
    m: MetaSpec,
    display_name: Option<Seq<char>>,
    description: Option<Seq<char>>,
    key: Seq<char>,
) -> (j: int)
    requires
        later_key(key),
        later_rank(key) < 14,
        key_set(later_entries(m)).contains(key),
    ensures
        5 <= j < desired(m, display_name, description).len(),
        desired(m, display_name, description)[j] == entry(key, later_value(m, key)),
        match_index(desired(m, display_name, description), key) == j,
        forall|k: int|
            0 <= k < desired(m, display_name, description).len() && #[trigger] desired(
                m,
                display_name,
                description,
            )[k].0 == key ==> k == j,
{
    let d = desired(m, display_name, description);
    let l = later_entries(m);
    let base = meta_entries(m);
    let named = match display_name {
        Some(n) => base.update(0, entry("name"@, n)),
        None => base,
    };
    lemma_later_shape(m);
    lemma_later_key(key);
    lemma_text_keys();
    lemma_later_ranks();
    reveal(key_set);
    reveal(later_run);
    let i = choose|i: int| 0 <= i < l.len() && l[i].0 == key;
    let j = i + 5;
    assert(named.len() == base.len());
    assert(d[j] == named[j]);
    assert(named[j] == l[i]);
    assert(later_key(l[i].0) && l[i].1 == later_value(m, l[i].0));
    assert forall|k: int| 0 <= k < d.len() && #[trigger] d[k].0 == key implies k == j by {
        if k < 5 {
            assert(d[k] == named[k]);
        } else if k < named.len() {
            assert(d[k] == named[k]);
            assert(named[k] == l[k - 5]);
            if k - 5 < i {
                assert(later_rank(l[k - 5].0) < later_rank(l[i].0));
            } else if k - 5 > i {
                assert(later_rank(l[i].0) < later_rank(l[k - 5].0));
            }
        } else {
            assert(d[k].0 == "loading_phrase"@);
        }
    }
    assert forall|q: int| 0 <= q < j implies !key_matches(#[trigger] d[q], key) by {
        assert(d[q].0 == key ==> q == j);
    }
    lemma_match_index(d, key, j);
    j
}

// ---------------------------------------------------------------- values that span lines

/// The pieces of `s` between its line breaks.
pub open spec fn split_nl(s: Seq<char>) -> Seq<Seq<char>>
    decreases s.len(),
{
    let i = first_index(s, '\n');
    if i >= s.len() || i < 0 {
        seq![s]
    } else {
        seq![s.take(i)] + split_nl(s.skip(i + 1))
    }
}

/// The written lines cut at the line breaks they hold.
pub open spec fn flat(out: Seq<Seq<char>>) -> Seq<Seq<char>>
    decreases out.len(),
{
    if out.len() == 0 {
        Seq::empty()
    } else {
        flat(out.drop_last()) + split_nl(out.last())
    }
}

proof fn lemma_split_nl(s: Seq<char>)
    ensures
        split_nl(s).len() >= 1,
        all_single_lines(split_nl(s)),
        join_lines(split_nl(s)) == s,
        no_newline(s) ==> split_nl(s) == seq![s],
    decreases s.len(),
{
    reveal_strlit("\n");
    let i = first_index(s, '\n');
    lemma_first_index_bounds(s, '\n');
    if i >= s.len() || i < 0 {
        assert(no_newline(s));
        assert(join_lines(seq![s]) == s);
    } else {
        let a = s.take(i);
        let b = s.skip(i + 1);
        lemma_split_nl(b);
        let r = split_nl(b);
        lemma_join_front(a, r);
        assert(s =~= a + "\n"@ + b);
        assert(all_single_lines(seq![a] + r)) by {
            assert forall|k: int| 0 <= k < (seq![a] + r).len() implies no_newline(#[trigger] (seq![a] + r)[k]) by {
                if k > 0 {
                    assert((seq![a] + r)[k] == r[k - 1]);
                }
            }
        }
        assert(s[i] == '\n');
    }
}

proof fn lemma_join_concat(a: Seq<Seq<char>>, b: Seq<Seq<char>>)
    requires
        a.len() > 0,
        b.len() > 0,
    ensures
        join_lines(a + b) == join_lines(a) + "\n"@ + join_lines(b),
    decreases b.len(),
{
    let c = a + b;
    assert(c.last() == b.last());
    if b.len() == 1 {
        assert(c.drop_last() =~= a);
    } else {
        lemma_join_concat(a, b.drop_last());
        assert(c.drop_last() =~= a + b.drop_last());
        assert(join_lines(a) + "\n"@ + join_lines(b.drop_last()) + "\n"@ + b.last() =~= join_lines(a) + "\n"@ + (
        join_lines(b.drop_last()) + "\n"@ + b.last()));
    }
}

proof fn lemma_flat(out: Seq<Seq<char>>)
    ensures
        join_lines(flat(out)) == join_lines(out),
        all_single_lines(flat(out)),
        out.len() > 0 ==> flat(out).len() > 0,
    decreases out.len(),
{
    if out.len() > 0 {
        let init = out.drop_last();
        lemma_flat(init);
        lemma_split_nl(out.last());
        let f = flat(init);
        let p = split_nl(out.last());
        if init.len() == 0 {
            assert(f =~= Seq::<Seq<char>>::empty());
            assert(f + p =~= p);
            assert(join_lines(out) == out[0]);
        } else {
            lemma_join_concat(f, p);
        }
        assert forall|k: int| 0 <= k < (f + p).len() implies no_newline(#[trigger] (f + p)[k]) by {
            if k < f.len() {
                assert((f + p)[k] == f[k]);
            } else {
                assert((f + p)[k] == p[k - f.len()]);
            }
        }
    }
}

/// Pieces of `a + w` where `a` holds no line break: `a` joins the first.
proof fn lemma_split_prefix(a: Seq<char>, w: Seq<char>)
    requires
        no_newline(a),
    ensures
        split_nl(a + w) == seq![a + split_nl(w)[0]] + split_nl(w).drop_first(),
{
    let s = a + w;
    let i = first_index(w, '\n');
    lemma_first_index_bounds(w, '\n');
    assert forall|q: int| 0 <= q < a.len() + i && q < s.len() implies #[trigger] s[q] != '\n' by {
        if q < a.len() {
            assert(s[q] == a[q]);
        } else {
            assert(s[q] == w[q - a.len()]);
        }
    }
    if i < w.len() {
        assert(s[a.len() + i] == w[i]);
        lemma_first_index(s, '\n', a.len() + i);
        assert(s.take(a.len() + i) =~= a + w.take(i));
        assert(s.skip(a.len() + i + 1) =~= w.skip(i + 1));
        assert(split_nl(w) == seq![w.take(i)] + split_nl(w.skip(i + 1)));
        assert((seq![w.take(i)] + split_nl(w.skip(i + 1))).drop_first() =~= split_nl(w.skip(i + 1)));
    } else {
        lemma_first_index(s, '\n', s.len() as int);
        assert(split_nl(w) == seq![w]);
        assert(seq![w].drop_first() =~= Seq::<Seq<char>>::empty());
        assert(seq![a + w] + Seq::<Seq<char>>::empty() =~= seq![a + w]);
    }
}

/// Whether a line with key `k` and value `w` leaves the field that `k`
/// reads back for `m` as `serialize_song_ini` wrote it: `w` is the value
/// written for a text field (the display name for `name`; for `charter`
/// and `frets`, the charter or nothing, since reading keeps the first
/// charter that is not empty), reads as the same number for a numeric field
/// that is set, or is the origin for `icon` where the origin is read back;
/// any value keeps a field that is not read back.
pub open spec fn keeps_field(m: MetaSpec, display_name: Option<Seq<char>>, k: Seq<char>, w: Seq<char>) -> bool {
    if k == "name"@ {
        w == written_name(m, display_name)
    } else if k == "artist"@ {
        w == m.artist
    } else if k == "album"@ {
        w == m.album_name
    } else if k == "genre"@ {
        w == m.genre
    } else if k == "charter"@ || k == "frets"@ {
        w == m.author || w.len() == 0
    } else if k == "icon"@ {
        m.game_origin.len() > 0 && plain_value(m.game_origin) ==> w == m.game_origin
    } else {
        forall|f: int|
            0 <= f < 13 && number_field(m, f) is Some && k == #[trigger] number_key(f) ==> parse_i32(w)
                == number_field(m, f)
    }
}

/// Whether every line of `ls` with key `k` keeps the field `k` reads back.
pub open spec fn values_keep(ls: Seq<Seq<char>>, m: MetaSpec, display_name: Option<Seq<char>>, k: Seq<char>) -> bool {
    forall|i: int|
        0 <= i < ls.len() && carries(#[trigger] ls[i], k) ==> keeps_field(m, display_name, k, line_pair(ls[i])->Some_0.1)
}

/// Whether no line of `out` that spans lines carries key `k`, and each of
/// its pieces that does keeps the field `k` reads back.
pub open spec fn spans_keep(out: Seq<Seq<char>>, m: MetaSpec, display_name: Option<Seq<char>>, k: Seq<char>) -> bool {
    forall|i: int|
        0 <= i < out.len() && !no_newline(#[trigger] out[i]) ==> !carries(out[i], k) && forall|p: int|
            0 <= p < split_nl(out[i]).len() && carries(#[trigger] split_nl(out[i])[p], k) ==> keeps_field(
                m,
                display_name,
                k,
                line_pair(split_nl(out[i])[p])->Some_0.1,
            )
}

proof fn lemma_flat_keep(out: Seq<Seq<char>>, m: MetaSpec, display_name: Option<Seq<char>>, k: Seq<char>)
    requires
        values_keep(out, m, display_name, k),
        spans_keep(out, m, display_name, k),
    ensures
        values_keep(flat(out), m, display_name, k),
    decreases out.len(),
{
    if out.len() > 0 {
        let init = out.drop_last();
        let l = out.last();
        assert(values_keep(init, m, display_name, k)) by {
            assert forall|i: int| 0 <= i < init.len() && carries(#[trigger] init[i], k) implies keeps_field(
                m,
                display_name,
                k,
                line_pair(init[i])->Some_0.1,
            ) by {
                assert(init[i] == out[i]);
            }
        }
        assert(spans_keep(init, m, display_name, k)) by {
            assert forall|i: int| 0 <= i < init.len() && !no_newline(#[trigger] init[i]) implies !carries(init[i], k)
                && forall|p: int|
                0 <= p < split_nl(init[i]).len() && carries(#[trigger] split_nl(init[i])[p], k) ==> keeps_field(
                    m,
                    display_name,
                    k,
                    line_pair(split_nl(init[i])[p])->Some_0.1,
                ) by {
                assert(init[i] == out[i]);
            }
        }
        lemma_flat_keep(init, m, display_name, k);
        lemma_split_nl(l);
        let f = flat(init);
        let ps = split_nl(l);
        assert(out[out.len() - 1] == l);
        assert forall|q: int| 0 <= q < (f + ps).len() && carries(#[trigger] (f + ps)[q], k) implies keeps_field(
            m,
            display_name,
            k,
            line_pair((f + ps)[q])->Some_0.1,
        ) by {
            if q < f.len() {
                assert((f + ps)[q] == f[q]);
            } else {
                assert((f + ps)[q] == ps[q - f.len()]);
                if no_newline(l) {
                    assert(ps[q - f.len()] == l);
                }
            }
        }
    }
}

proof fn lemma_flat_has(out: Seq<Seq<char>>, m: MetaSpec, display_name: Option<Seq<char>>, k: Seq<char>)
    requires
        has_key(out, k),
        spans_keep(out, m, display_name, k),
    ensures
        has_key(flat(out), k),
    decreases out.len(),
{
    let init = out.drop_last();
    let l = out.last();
    let f = flat(init);
    lemma_split_nl(l);
    let ps = split_nl(l);
    if carries(l, k) {
        assert(out[out.len() - 1] == l);
        assert(no_newline(l));
        assert(ps == seq![l]);
        assert((f + ps)[f.len() as int] == l);
        assert(carries((f + ps)[f.len() as int], k));
    } else {
        let i = choose|i: int| 0 <= i < out.len() && carries(#[trigger] out[i], k);
        assert(i < init.len());
        assert(init[i] == out[i]);
        assert(has_key(init, k));
        assert(spans_keep(init, m, display_name, k)) by {
            assert forall|x: int| 0 <= x < init.len() && !no_newline(#[trigger] init[x]) implies !carries(init[x], k)
                && forall|p: int|
                0 <= p < split_nl(init[x]).len() && carries(#[trigger] split_nl(init[x])[p], k) ==> keeps_field(
                    m,
                    display_name,
                    k,
                    line_pair(split_nl(init[x])[p])->Some_0.1,
                ) by {
                assert(init[x] == out[x]);
            }
        }
        lemma_flat_has(init, m, display_name, k);
        let q = choose|q: int| 0 <= q < f.len() && carries(#[trigger] f[q], k);
        assert((f + ps)[q] == f[q]);
    }
}

proof fn lemma_flat_contains(out: Seq<Seq<char>>, i: int)
    requires
        0 <= i < out.len(),
        no_newline(out[i]),
    ensures
        exists|q: int| 0 <= q < flat(out).len() && flat(out)[q] == out[i],
    decreases out.len(),
{
    let init = out.drop_last();
    let l = out.last();
    let f = flat(init);
    lemma_split_nl(l);
    let ps = split_nl(l);
    assert(flat(out) == f + ps);
    if i == out.len() - 1 {
        assert(out[i] == l);
        assert(ps == seq![l]);
        assert((f + ps)[f.len() as int] == l);
        assert(flat(out)[f.len() as int] == out[i]);
    } else {
        assert(init[i] == out[i]);
        lemma_flat_contains(init, i);
        let q = choose|q: int| 0 <= q < f.len() && f[q] == init[i];
        assert((f + ps)[q] == f[q]);
        assert(flat(out)[q] == out[i]);
    }
}

/// Whether each line after the first of `v` that carries key `k` keeps the
/// field `k` reads back.
pub open spec fn tail_keep(v: Seq<char>, m: MetaSpec, display_name: Option<Seq<char>>, k: Seq<char>) -> bool {
    forall|p: int|
        1 <= p < split_nl(v).len() && carries(#[trigger] split_nl(v)[p], k) ==> keeps_field(
            m,
            display_name,
            k,
            line_pair(split_nl(v)[p])->Some_0.1,
        )
}

/// A written line `x = w` with a key other than `k` does not carry `k`,
/// and its pieces that do keep the field, where those of `w` after the
/// first do.
proof fn lemma_line_clear(
    x: Seq<char>,
    w: Seq<char>,
    k: Seq<char>,
    m: MetaSpec,
    display_name: Option<Seq<char>>,
)
    requires
        x.len() > 0,
        !is_ws(x[0]),
        !is_ws(x.last()),
        forall|i: int| 0 <= i < x.len() ==> #[trigger] x[i] != '=',
        x[0] != '[' && x[0] != ';' && x[0] != '#',
        no_newline(x),
        lowercase(x) != k,
        tail_keep(w, m, display_name, k),
    ensures
        !carries(x + " = "@ + w, k),
        forall|p: int|
            0 <= p < split_nl(x + " = "@ + w).len() && carries(#[trigger] split_nl(x + " = "@ + w)[p], k)
                ==> keeps_field(m, display_name, k, line_pair(split_nl(x + " = "@ + w)[p])->Some_0.1),
{
    reveal_strlit(" = ");
    lemma_pair_line(x, w);
    let a = x + " = "@;
    assert(no_newline(a)) by {
        assert forall|q: int| 0 <= q < a.len() implies a[q] != '\n' by {
            if q < x.len() {
                assert(a[q] == x[q]);
            }
        }
    }
    lemma_split_prefix(a, w);
    lemma_split_nl(w);
    let w0 = split_nl(w)[0];
    lemma_pair_line(x, w0);
    assert(a + w0 == x + " = "@ + w0);
    assert(a + w == x + " = "@ + w);
    assert forall|p: int|
        0 <= p < split_nl(x + " = "@ + w).len() && carries(#[trigger] split_nl(x + " = "@ + w)[p], k) implies keeps_field(
        m,
        display_name,
        k,
        line_pair(split_nl(x + " = "@ + w)[p])->Some_0.1,
    ) by {
        if p > 0 {
            assert(split_nl(x + " = "@ + w)[p] == split_nl(w)[p]);
        }
    }
}

/// Where every value that spans lines sits in a pair whose key is not `k`
/// (nor `charter`) and whose later lines keep the field `k` reads back, the
/// written lines that span lines keep it too.
proof fn lemma_written_clear(
    d: Seq<(Seq<char>, Seq<char>)>,
    ls: Seq<Seq<char>>,
    k: Seq<char>,
    m: MetaSpec,
    display_name: Option<Seq<char>>,
)
    requires
        well_keyed(d),
        all_single_lines(ls),
        forall|j: int|
            0 <= j < d.len() && !no_newline(#[trigger] d[j].1) ==> d[j].0 != k && d[j].0 != "charter"@
                && tail_keep(d[j].1, m, display_name, k),
    ensures
        spans_keep(written_lines(d, ls), m, display_name, k),
{
    reveal_strlit("charter");
    let out = written_lines(d, ls);
    assert forall|i: int| 0 <= i < out.len() && !no_newline(#[trigger] out[i]) implies !carries(out[i], k)
        && forall|p: int|
        0 <= p < split_nl(out[i]).len() && carries(#[trigger] split_nl(out[i])[p], k) ==> keeps_field(
            m,
            display_name,
            k,
            line_pair(split_nl(out[i])[p])->Some_0.1,
        ) by {
        let kk = lemma_written_at(d, ls, i);
        if i < ls.len() {
            assert(no_newline(ls[i]));
            lemma_target_range(d, ls[i]);
            match line_target(d, ls[i]) {
                Some(j) => {
                    assert(plain_key(d[j].0));
                    let x = lemma_rewritten(d, ls[i], j);
                    if no_newline(d[j].1) {
                        assert(false);
                    }
                    lemma_line_clear(x, d[j].1, k, m, display_name);
                },
                None => {
                    assert(false);
                },
            }
        } else {
            lemma_appended_line(d, kk);
            assert(plain_key(d[kk].0));
            lemma_plain_key(d[kk].0);
            if no_newline(d[kk].1) {
                assert(false);
            }
            lemma_line_clear(d[kk].0, d[kk].1, k, m, display_name);
        }
    }
}

/// Whether key `k` is one that the read-back law reads back for `m`: a text
/// field's key, the key of a numeric field that is set, or `icon` where the
/// origin is plain and not empty.
pub open spec fn read_back_key(m: MetaSpec, k: Seq<char>) -> bool {
    ||| text_key(k)
    ||| exists|f: int| 0 <= f < 13 && number_field(m, f) is Some && k == #[trigger] number_key(f)
    ||| (k == "icon"@ && m.game_origin.len() > 0 && plain_value(m.game_origin))
}

/// Whether every line after the first of `v` that carries a key keeps the
/// field that key reads back for `m`.
pub open spec fn tail_safe(m: MetaSpec, display_name: Option<Seq<char>>, v: Seq<char>) -> bool {
    forall|p: int|
        1 <= p < split_nl(v).len() ==> match line_pair(#[trigger] split_nl(v)[p]) {
            Some((k, w)) => keeps_field(m, display_name, k, w),
            None => true,
        }
}

proof fn lemma_tail_keep(m: MetaSpec, display_name: Option<Seq<char>>, v: Seq<char>, k: Seq<char>)
    requires
        tail_safe(m, display_name, v),
    ensures
        tail_keep(v, m, display_name, k),
{
    assert forall|p: int| 1 <= p < split_nl(v).len() && carries(#[trigger] split_nl(v)[p], k) implies keeps_field(
        m,
        display_name,
        k,
        line_pair(split_nl(v)[p])->Some_0.1,
    ) by {
        match line_pair(split_nl(v)[p]) {
            Some((kk, _)) => {},
            None => {},
        }
    }
}

/// The written lines that span lines leave a key read back out, and those
/// of their pieces that carry it keep the field it reads back.
proof fn lemma_desired_clear(
    m: MetaSpec,
    original: Seq<char>,
    display_name: Option<Seq<char>>,
    description: Option<Seq<char>>,
    k: Seq<char>,
)
    requires
        no_newline(written_name(m, display_name)),
        no_newline(m.artist),
        no_newline(m.album_name),
        no_newline(m.genre),
        no_newline(m.author),
        tail_safe(m, display_name, m.game_origin),
        description matches Some(x) ==> tail_safe(m, display_name, x),
        read_back_key(m, k),
    ensures
        spans_keep(written_lines(desired(m, display_name, description), lines(original)), m, display_name, k),
{
    let d = desired(m, display_name, description);
    lemma_desired_keyed(m, display_name, description);
    lemma_lines_single_lines(original);
    lemma_key_literals();
    lemma_later_ranks();
    reveal_strlit("icon");
    reveal_strlit("loading_phrase");
    assert(!text_key("icon"@)) by {
        lemma_later_key("icon"@);
    }
    assert(!text_key("loading_phrase"@)) by {
        lemma_later_key("loading_phrase"@);
    }
    assert forall|j: int| 0 <= j < d.len() && !no_newline(#[trigger] d[j].1) implies d[j].0 != k && d[j].0
        != "charter"@ && tail_keep(d[j].1, m, display_name, k) by {
        if d[j].0 == "icon"@ {
            assert(d[j].1 == m.game_origin);
            lemma_tail_keep(m, display_name, m.game_origin, k);
            if k == "icon"@ {
                assert(!text_key(k));
                if exists|f: int| 0 <= f < 13 && number_field(m, f) is Some && k == #[trigger] number_key(f) {
                    let f = choose|f: int| 0 <= f < 13 && number_field(m, f) is Some && k == #[trigger] number_key(f);
                    lemma_number_key(m, f);
                }
                assert(plain_value(m.game_origin));
                assert(false);
            }
        } else {
            assert(d[j].0 == "loading_phrase"@);
            let x = description->Some_0;
            lemma_tail_keep(m, display_name, x, k);
            if k == "loading_phrase"@ {
                if exists|f: int| 0 <= f < 13 && number_field(m, f) is Some && k == #[trigger] number_key(f) {
                    let f = choose|f: int| 0 <= f < 13 && number_field(m, f) is Some && k == #[trigger] number_key(f);
                    lemma_number_key(m, f);
                }
                assert(false);
            }
        }
    }
    lemma_written_clear(d, lines(original), k, m, display_name);
}

/// Whether a field value reads back as written: no white space at its ends
/// (reading trims values) and no line break.
pub open spec fn plain_value(v: Seq<char>) -> bool {
    trim(v) == v && no_newline(v)
}

/// What the written text reads: the written lines cut at their line breaks.
proof fn lemma_read_flat(
    m: MetaSpec,
    original: Seq<char>,
    display_name: Option<Seq<char>>,
    description: Option<Seq<char>>,
) -> (out: Seq<Seq<char>>)
    ensures
        out == flat(written_lines(desired(m, display_name, description), lines(original))),
        song_ini_meta(song_ini_text(m, original, display_name, description)) == ini_read(out),
{
    let w = written_lines(desired(m, display_name, description), lines(original));
    lemma_flat(w);
    lemma_read_joined(flat(w), original);
    flat(w)
}

/// A key read back keeps the fields it reads and its presence when the
/// written lines are cut at their line breaks.
proof fn lemma_flat_key(
    m: MetaSpec,
    original: Seq<char>,
    display_name: Option<Seq<char>>,
    description: Option<Seq<char>>,
    k: Seq<char>,
)
    requires
        no_newline(written_name(m, display_name)),
        no_newline(m.artist),
        no_newline(m.album_name),
        no_newline(m.genre),
        no_newline(m.author),
        tail_safe(m, display_name, m.game_origin),
        description matches Some(x) ==> tail_safe(m, display_name, x),
        read_back_key(m, k),
    ensures
        ({
            let w = written_lines(desired(m, display_name, description), lines(original));
            &&& values_keep(w, m, display_name, k) ==> values_keep(flat(w), m, display_name, k)
            &&& has_key(w, k) ==> has_key(flat(w), k)
        }),
{
    let w = written_lines(desired(m, display_name, description), lines(original));
    lemma_desired_clear(m, original, display_name, description, k);
    if values_keep(w, m, display_name, k) {
        lemma_flat_keep(w, m, display_name, k);
    }
    if has_key(w, k) {
        lemma_flat_has(w, m, display_name, k);
    }
}

/// Lines whose `v` lines all carry value `v` keep the field where `v` is
/// what it keeps.
proof fn lemma_keep_from_values(
    ls: Seq<Seq<char>>,
    m: MetaSpec,
    display_name: Option<Seq<char>>,
    k: Seq<char>,
    v: Seq<char>,
)
    requires
        values_are(ls, k, v),
        keeps_field(m, display_name, k, v),
    ensures
        values_keep(ls, m, display_name, k),
{
}

/// The text fields that are written read back (see `lemma_song_ini_read_back`).
proof fn lemma_text_fields_back(
    m: MetaSpec,
    original: Seq<char>,
    display_name: Option<Seq<char>>,
    description: Option<Seq<char>>,
)
    requires
        plain_value(written_name(m, display_name)),
        plain_value(m.artist),
        plain_value(m.album_name),
        plain_value(m.genre),
        plain_value(m.author),
        tail_safe(m, display_name, m.game_origin),
        description matches Some(x) ==> tail_safe(m, display_name, x),
    ensures
        song_ini_meta(song_ini_text(m, original, display_name, description)).name == written_name(m, display_name),
        song_ini_meta(song_ini_text(m, original, display_name, description)).artist == m.artist,
        song_ini_meta(song_ini_text(m, original, display_name, description)).album_name == m.album_name,
        song_ini_meta(song_ini_text(m, original, display_name, description)).genre == m.genre,
        song_ini_meta(song_ini_text(m, original, display_name, description)).author == m.author,
{
    let d = desired(m, display_name, description);
    let ls = lines(original);
    let w = written_lines(d, ls);
    lemma_desired_keyed(m, display_name, description);
    lemma_lines_single_lines(original);
    let out = lemma_read_flat(m, original, display_name, description);
    lemma_key_indices(d);
    lemma_text_keys();
    lemma_written_values(d, ls, "name"@, 0);
    lemma_written_values(d, ls, "artist"@, 1);
    lemma_written_values(d, ls, "album"@, 2);
    lemma_written_values(d, ls, "genre"@, 3);
    lemma_written_values(d, ls, "charter"@, 4);
    lemma_written_values(d, ls, "frets"@, 4);
    lemma_keep_from_values(w, m, display_name, "name"@, d[0].1);
    lemma_keep_from_values(w, m, display_name, "artist"@, d[1].1);
    lemma_keep_from_values(w, m, display_name, "album"@, d[2].1);
    lemma_keep_from_values(w, m, display_name, "genre"@, d[3].1);
    lemma_keep_from_values(w, m, display_name, "charter"@, d[4].1);
    lemma_keep_from_values(w, m, display_name, "frets"@, d[4].1);
    lemma_flat_key(m, original, display_name, description, "name"@);
    lemma_flat_key(m, original, display_name, description, "artist"@);
    lemma_flat_key(m, original, display_name, description, "album"@);
    lemma_flat_key(m, original, display_name, description, "genre"@);
    lemma_flat_key(m, original, display_name, description, "charter"@);
    lemma_flat_key(m, original, display_name, description, "frets"@);
    assert(values_are(out, "name"@, d[0].1));
    assert(values_are(out, "artist"@, d[1].1));
    assert(values_are(out, "album"@, d[2].1));
    assert(values_are(out, "genre"@, d[3].1));
    assert(charter_values(out, d[4].1));
    lemma_read_fields(out, d[0].1, d[1].1, d[2].1, d[3].1, d[4].1);
    if d[4].1.len() > 0 {
        let key = lemma_written_has(d, ls, 4);
        reveal_strlit("charter");
        reveal_strlit("frets");
        let i = choose|i: int| 0 <= i < w.len() && carries(#[trigger] w[i], key);
        lemma_desired_clear(m, original, display_name, description, key);
        assert(no_newline(w[i]));
        lemma_flat_contains(w, i);
        let q = choose|q: int| 0 <= q < out.len() && out[q] == w[i];
        assert(charter_line(out[q]));
        assert(has_charter(out, d[4].1));
    }
    if d[0].1.len() > 0 {
        lemma_written_has(d, ls, 0);
    }
    if d[1].1.len() > 0 {
        lemma_written_has(d, ls, 1);
    }
    if d[2].1.len() > 0 {
        lemma_written_has(d, ls, 2);
    }
    if d[3].1.len() > 0 {
        lemma_written_has(d, ls, 3);
    }
    if d[4].1.len() > 0 {
        lemma_written_has(d, ls, 4);
    }
}

/// A later pair that is written with a value that is not empty, plain,
/// found by its key and keeping the field that key reads back, reads back
/// through the lines that carry that key.
proof fn lemma_later_back(
    m: MetaSpec,
    original: Seq<char>,
    display_name: Option<Seq<char>>,
    description: Option<Seq<char>>,
    key: Seq<char>,
) -> (out: Seq<Seq<char>>)
    requires
        plain_value(written_name(m, display_name)),
        plain_value(m.artist),
        plain_value(m.album_name),
        plain_value(m.genre),
        plain_value(m.author),
        tail_safe(m, display_name, m.game_origin),
        description matches Some(x) ==> tail_safe(m, display_name, x),
        read_back_key(m, key),
        later_key(key),
        later_rank(key) < 14,
        key_set(later_entries(m)).contains(key),
        later_value(m, key).len() > 0,
        trim(later_value(m, key)) == later_value(m, key),
        keeps_field(m, display_name, key, later_value(m, key)),
    ensures
        song_ini_meta(song_ini_text(m, original, display_name, description)) == ini_read(out),
        values_keep(out, m, display_name, key),
        has_key(out, key),
{
    let d = desired(m, display_name, description);
    let ls = lines(original);
    lemma_desired_keyed(m, display_name, description);
    lemma_lines_single_lines(original);
    let out = lemma_read_flat(m, original, display_name, description);
    lemma_later_key(key);
    let j = lemma_later_index(m, display_name, description, key);
    lemma_written_values(d, ls, key, j);
    lemma_written_has(d, ls, j);
    lemma_keep_from_values(written_lines(d, ls), m, display_name, key, later_value(m, key));
    lemma_flat_key(m, original, display_name, description, key);
    out
}

/// Reading lines whose `number_key(f)` lines all read as `r` sets field `f`
/// to `r` where some line carries that key, and leaves it unset otherwise.
proof fn lemma_read_number_as(ls: Seq<Seq<char>>, f: int, r: Option<i32>)
    requires
        0 <= f < 13,
        forall|i: int|
            0 <= i < ls.len() && carries(#[trigger] ls[i], number_key(f)) ==> parse_i32(line_pair(ls[i])->Some_0.1)
                == r,
    ensures
        number_field(ini_read(ls), f) == (if has_key(ls, number_key(f)) {
            r
        } else {
            None
        }),
    decreases ls.len(),
{
    if ls.len() > 0 {
        let key = number_key(f);
        let init = ls.drop_last();
        let last = ls.last();
        assert forall|i: int|
            0 <= i < init.len() && carries(#[trigger] init[i], key) implies parse_i32(line_pair(init[i])->Some_0.1)
            == r by {
            assert(init[i] == ls[i]);
        }
        lemma_read_number_as(init, f, r);
        lemma_has_key_last(ls, key);
        let mm = ini_read(init);
        assert(ini_read(ls) == ini_line(mm, last));
        assert(last == ls[ls.len() - 1]);
        match line_pair(last) {
            Some((k, w)) => {
                assert(ini_line(mm, last) == ini_set(mm, k, w));
                lemma_set_number(mm, k, w, f);
            },
            None => {
                assert(ini_line(mm, last) == mm);
            },
        }
    } else {
        assert(number_field(empty_meta(), f) is None);
    }
}

proof fn lemma_number_back(
    m: MetaSpec,
    original: Seq<char>,
    display_name: Option<Seq<char>>,
    description: Option<Seq<char>>,
    f: int,
)
    requires
        plain_value(written_name(m, display_name)),
        plain_value(m.artist),
        plain_value(m.album_name),
        plain_value(m.genre),
        plain_value(m.author),
        tail_safe(m, display_name, m.game_origin),
        description matches Some(x) ==> tail_safe(m, display_name, x),
        0 <= f < 13,
        number_field(m, f) is Some,
    ensures
        number_field(song_ini_meta(song_ini_text(m, original, display_name, description)), f) == number_field(m, f),
{
    let key = number_key(f);
    let x = number_field(m, f)->Some_0;
    lemma_number_key(m, f);
    lemma_parse_i32_dec(x);
    lemma_text_keys();
    lemma_later_ranks();
    lemma_later_key(key);
    let v = int_to_dec(x as int);
    assert(v[v.len() - 1] == v.last());
    lemma_trim_noop(v);
    assert(read_back_key(m, key));
    assert(key != "icon"@);
    assert(forall|g: int| 0 <= g < 13 && number_field(m, g) is Some && key == #[trigger] number_key(g) ==> g == f) by {
        assert forall|g: int| 0 <= g < 13 && number_field(m, g) is Some && key == #[trigger] number_key(g) implies g
            == f by {
            lemma_number_key(m, g);
        }
    }
    assert(keeps_field(m, display_name, key, v));
    let out = lemma_later_back(m, original, display_name, description, key);
    assert forall|i: int| 0 <= i < out.len() && carries(#[trigger] out[i], key) implies parse_i32(
        line_pair(out[i])->Some_0.1,
    ) == Some(x) by {
        assert(keeps_field(m, display_name, key, line_pair(out[i])->Some_0.1));
    }
    lemma_read_number_as(out, f, Some(x));
}

/// Reading back what `serialize_song_ini` writes gives what was written:
/// the name (the display name when one is given), artist, album, genre and
/// charter, every numeric field that is set, and the origin when it is not
/// empty and lies on one line without white space at its ends, whatever the
/// original text held. The text values must carry no white space at their
/// ends (reading trims values) and no line break. The origin and the
/// description may span lines; a line of theirs after the first may carry
/// any key, as long as it does not change a field read back here.
pub proof fn lemma_song_ini_read_back(
    m: MetaSpec,
    original: Seq<char>,
    display_name: Option<Seq<char>>,
    description: Option<Seq<char>>,
)
    requires
        plain_value(written_name(m, display_name)),
        plain_value(m.artist),
        plain_value(m.album_name),
        plain_value(m.genre),
        plain_value(m.author),
        tail_safe(m, display_name, m.game_origin),
        description matches Some(x) ==> tail_safe(m, display_name, x),
    ensures
        ({
            let r = song_ini_meta(song_ini_text(m, original, display_name, description));
            &&& r.name == written_name(m, display_name)
            &&& r.artist == m.artist
            &&& r.album_name == m.album_name
            &&& r.genre == m.genre
            &&& r.author == m.author
            &&& m.year_released is Some ==> r.year_released == m.year_released
            &&& m.song_length is Some ==> r.song_length == m.song_length
            &&& m.preview_start is Some ==> r.preview_start == m.preview_start
            &&& m.album_track_number is Some ==> r.album_track_number == m.album_track_number
            &&& m.rank_guitar is Some ==> r.rank_guitar == m.rank_guitar
            &&& m.rank_bass is Some ==> r.rank_bass == m.rank_bass
            &&& m.rank_drum is Some ==> r.rank_drum == m.rank_drum
            &&& m.rank_keys is Some ==> r.rank_keys == m.rank_keys
            &&& m.rank_vocals is Some ==> r.rank_vocals == m.rank_vocals
            &&& m.rank_band is Some ==> r.rank_band == m.rank_band
            &&& m.rank_real_guitar is Some ==> r.rank_real_guitar == m.rank_real_guitar
            &&& m.rank_real_bass is Some ==> r.rank_real_bass == m.rank_real_bass
            &&& m.rank_real_keys is Some ==> r.rank_real_keys == m.rank_real_keys
            &&& m.game_origin.len() > 0 && plain_value(m.game_origin) ==> r.game_origin == m.game_origin
        }),
{
    lemma_text_fields_back(m, original, display_name, description);
    if number_field(m, 0) is Some {
        lemma_number_back(m, original, display_name, description, 0);
    }
    if number_field(m, 1) is Some {
        lemma_number_back(m, original, display_name, description, 1);
    }
    if number_field(m, 2) is Some {
        lemma_number_back(m, original, display_name, description, 2);
    }
    if number_field(m, 3) is Some {
        lemma_number_back(m, original, display_name, description, 3);
    }
    if number_field(m, 4) is Some {
        lemma_number_back(m, original, display_name, description, 4);
    }
    if number_field(m, 5) is Some {
        lemma_number_back(m, original, display_name, description, 5);
    }
    if number_field(m, 6) is Some {
        lemma_number_back(m, original, display_name, description, 6);
    }
    if number_field(m, 7) is Some {
        lemma_number_back(m, original, display_name, description, 7);
    }
    if number_field(m, 8) is Some {
        lemma_number_back(m, original, display_name, description, 8);
    }
    if number_field(m, 9) is Some {
        lemma_number_back(m, original, display_name, description, 9);
    }
    if number_field(m, 10) is Some {
        lemma_number_back(m, original, display_name, description, 10);
    }
    if number_field(m, 11) is Some {
        lemma_number_back(m, original, display_name, description, 11);
    }
    if number_field(m, 12) is Some {
        lemma_number_back(m, original, display_name, description, 12);
    }
    let r = song_ini_meta(song_ini_text(m, original, display_name, description));
    assert(number_field(r, 0) == r.year_released);
    assert(number_field(r, 1) == r.song_length);
    assert(number_field(r, 2) == r.preview_start);
    assert(number_field(r, 3) == r.album_track_number);
    assert(number_field(r, 4) == r.rank_guitar);
    assert(number_field(r, 5) == r.rank_bass);
    assert(number_field(r, 6) == r.rank_drum);
    assert(number_field(r, 7) == r.rank_keys);
    assert(number_field(r, 8) == r.rank_vocals);
    assert(number_field(r, 9) == r.rank_band);
    assert(number_field(r, 10) == r.rank_real_guitar);
    assert(number_field(r, 11) == r.rank_real_bass);
    assert(number_field(r, 12) == r.rank_real_keys);
    if m.game_origin.len() > 0 && plain_value(m.game_origin) {
        lemma_later_ranks();
        lemma_later_values(m);
        lemma_later_keys(m);
        lemma_text_keys();
        reveal_strlit("icon");
        assert(!text_key("icon"@)) by {
            lemma_later_key("icon"@);
        }
        assert(read_back_key(m, "icon"@));
        assert(keeps_field(m, display_name, "icon"@, m.game_origin));
        let out = lemma_later_back(m, original, display_name, description, "icon"@);
        assert(values_are(out, "icon"@, m.game_origin));
        lemma_read_origin(out, m.game_origin);
    }
}

// ---------------------------------------------------------------- the loading phrase

/// Whether line `l` reads, by its text before `=`, as a `loading_phrase`
/// line when the loading phrase is looked up.
pub open spec fn phrase_line(l: Seq<char>) -> bool {
    split_once_eq(trim(l)) matches Some((k, _)) && lowercase(trim(k)) == "loading_phrase"@
}

/// The trimmed value of a `loading_phrase` line.
pub open spec fn phrase_value(l: Seq<char>) -> Seq<char> {
    trim(split_once_eq(trim(l))->Some_0.1)
}

/// Whether no comment or section line of `ls` (one that reading skips)
/// reads as a `loading_phrase` line when the loading phrase is looked up.
pub open spec fn comments_clear(ls: Seq<Seq<char>>) -> bool {
    forall|i: int| 0 <= i < ls.len() && ini_skipped(trim(#[trigger] ls[i])) ==> !phrase_line(ls[i])
}

/// A comment or section line whose text before `=` is ASCII never reads as
/// a `loading_phrase` line: its key keeps the `[`, `;` or `#` it starts with.
pub proof fn lemma_comments_clear_ascii(ls: Seq<Seq<char>>)
    requires
        forall|i: int|
            0 <= i < ls.len() && ini_skipped(trim(#[trigger] ls[i])) ==> (split_once_eq(trim(ls[i])) matches Some((k, _))
                ==> is_ascii_text(trim(k))),
    ensures
        comments_clear(ls),
{
    reveal_strlit("loading_phrase");
    assert forall|i: int| 0 <= i < ls.len() && ini_skipped(trim(#[trigger] ls[i])) implies !phrase_line(ls[i]) by {
        let t = trim(ls[i]);
        if let Some((k, _v)) = split_once_eq(t) {
            let j = first_index(t, '=');
            lemma_first_index_bounds(t, '=');
            assert(k == t.take(j));
            let x = trim(k);
            assert(ascii_lower(x).len() == x.len());
            if x.len() > 0 {
                assert(k.len() > 0);
                assert(k[0] == t[0]);
                assert(!is_ws(k[0]));
                assert(trim_start(k) == k);
                lemma_trim_end_shape(k);
                let b = choose|b: int| 0 <= b <= k.len() && trim_end(k) == k.take(b);
                assert(x[0] == k[0]);
                assert(ascii_lower(x)[0] == crate::text::ascii_lower_char(x[0]));
                assert(ascii_lower(x)[0] != 'l');
            }
        }
    }
}

proof fn lemma_phrase_of(ls: Seq<Seq<char>>, v: Seq<char>)
    requires
        forall|i: int| 0 <= i < ls.len() && phrase_line(#[trigger] ls[i]) ==> phrase_value(ls[i]) == v,
    ensures
        loading_phrase_of(ls) == (if exists|i: int| 0 <= i < ls.len() && phrase_line(#[trigger] ls[i]) {
            v
        } else {
            Seq::<char>::empty()
        }),
    decreases ls.len(),
{
    if ls.len() > 0 {
        let t = ls.drop_first();
        assert forall|i: int| 0 <= i < t.len() && phrase_line(#[trigger] t[i]) implies phrase_value(t[i]) == v by {
            assert(t[i] == ls[i + 1]);
        }
        lemma_phrase_of(t, v);
        if !phrase_line(ls[0]) {
            if exists|i: int| 0 <= i < ls.len() && phrase_line(#[trigger] ls[i]) {
                let i = choose|i: int| 0 <= i < ls.len() && phrase_line(#[trigger] ls[i]);
                assert(t[i - 1] == ls[i]);
            }
            if exists|i: int| 0 <= i < t.len() && phrase_line(#[trigger] t[i]) {
                let i = choose|i: int| 0 <= i < t.len() && phrase_line(#[trigger] t[i]);
                assert(ls[i + 1] == t[i]);
            }
        }
    }
}

proof fn lemma_phrase_strip_cr(l: Seq<char>)
    ensures
        trim(strip_cr(l)) == trim(l),
        phrase_line(strip_cr(l)) == phrase_line(l),
        phrase_value(strip_cr(l)) == phrase_value(l),
{
    if l.len() > 0 && l.last() == '\r' {
        assert(is_ws(l[l.len() - 1]));
        lemma_trim_sub(l, 0, l.len() - 1);
        assert(l.subrange(0, l.len() - 1) =~= strip_cr(l));
    }
}

/// On a line that reading does not skip, looking up the loading phrase
/// agrees with reading the line's pair.
proof fn lemma_phrase_pair(l: Seq<char>)
    requires
        !ini_skipped(trim(l)),
    ensures
        phrase_line(l) == carries(l, "loading_phrase"@),
        phrase_line(l) ==> phrase_value(l) == line_pair(l)->Some_0.1,
{
}

/// A written line that reading skips is a line of the original, unchanged.
proof fn lemma_written_skipped(d: Seq<(Seq<char>, Seq<char>)>, ls: Seq<Seq<char>>, p: int)
    requires
        well_keyed(d),
        0 <= p < written_lines(d, ls).len(),
        ini_skipped(trim(written_lines(d, ls)[p])),
    ensures
        p < ls.len(),
        written_lines(d, ls)[p] == ls[p],
{
    let out = written_lines(d, ls);
    let k = lemma_written_at(d, ls, p);
    if p < ls.len() {
        lemma_target_range(d, ls[p]);
        if let Some(j) = line_target(d, ls[p]) {
            assert(plain_key(d[j].0));
            lemma_rewritten(d, ls[p], j);
            assert(false);
        }
    } else {
        lemma_appended_line(d, k);
        assert(false);
    }
}

/// The text that joins `out`, with a final line break where the original
/// had one, as `serialize_song_ini` writes it.
pub open spec fn joined_text(out: Seq<Seq<char>>, original: Seq<char>) -> Seq<char> {
    let joined = join_lines(out);
    if original.len() > 0 && original.last() == '\n' && !(joined.len() > 0 && joined.last() == '\n') {
        joined.push('\n')
    } else {
        joined
    }
}

/// Each line of the joined text is empty or a line of `out`, maybe without
/// its `\r`; each line of `out` that is not empty is among them so.
proof fn lemma_joined_lines(out: Seq<Seq<char>>, original: Seq<char>)
    requires
        all_single_lines(out),
    ensures
        forall|q: int|
            0 <= q < lines(joined_text(out, original)).len() ==> (#[trigger] lines(joined_text(out, original))[q]).len()
                == 0 || exists|i: int|
                0 <= i < out.len() && (lines(joined_text(out, original))[q] == out[i] || lines(
                    joined_text(out, original),
                )[q] == strip_cr(#[trigger] out[i])),
        forall|i: int|
            0 <= i < out.len() && (#[trigger] out[i]).len() > 0 ==> exists|q: int|
                0 <= q < lines(joined_text(out, original)).len() && (lines(joined_text(out, original))[q] == out[i]
                    || #[trigger] lines(joined_text(out, original))[q] == strip_cr(out[i])),
{
    reveal_strlit("\n");
    let joined = join_lines(out);
    let text = joined_text(out, original);
    let tl = lines(text);
    if out.len() == 0 {
        assert(joined == Seq::<char>::empty());
        lemma_lines_cons(Seq::empty(), Seq::empty());
        assert(Seq::<char>::empty() + "\n"@ + Seq::<char>::empty() =~= joined.push('\n'));
        assert(lines(Seq::<char>::empty()) == Seq::<Seq<char>>::empty());
        assert(strip_cr(Seq::<char>::empty()) == Seq::<char>::empty());
        assert forall|q: int| 0 <= q < tl.len() implies (#[trigger] tl[q]).len() == 0 by {
            if text != joined {
                assert(text == Seq::<char>::empty() + "\n"@ + Seq::<char>::empty());
                assert(tl == seq![strip_cr(Seq::<char>::empty())] + Seq::<Seq<char>>::empty());
                assert(tl[q] == strip_cr(Seq::<char>::empty()));
            }
        }
    } else if text != joined {
        lemma_lines_join_nl(out);
        assert(joined.push('\n') =~= joined + "\n"@);
        assert(tl == strip_all(out));
        assert forall|q: int| 0 <= q < tl.len() implies (#[trigger] tl[q]).len() == 0 || exists|i: int|
            0 <= i < out.len() && (tl[q] == out[i] || tl[q] == strip_cr(#[trigger] out[i])) by {
            assert(tl[q] == strip_cr(out[q]));
        }
        assert forall|i: int| 0 <= i < out.len() && (#[trigger] out[i]).len() > 0 implies exists|q: int|
            0 <= q < tl.len() && (tl[q] == out[i] || #[trigger] tl[q] == strip_cr(out[i])) by {
            assert(tl[i] == strip_cr(out[i]));
        }
    } else {
        lemma_lines_join(out);
        let init = out.drop_last();
        assert forall|q: int| 0 <= q < tl.len() implies (#[trigger] tl[q]).len() == 0 || exists|i: int|
            0 <= i < out.len() && (tl[q] == out[i] || tl[q] == strip_cr(#[trigger] out[i])) by {
            if q < init.len() {
                assert(tl[q] == strip_all(init)[q]);
                assert(tl[q] == strip_cr(out[q]));
            } else {
                assert(tl[q] == out.last());
                assert(tl[q] == out[out.len() - 1]);
            }
        }
        assert forall|i: int| 0 <= i < out.len() && (#[trigger] out[i]).len() > 0 implies exists|q: int|
            0 <= q < tl.len() && (tl[q] == out[i] || #[trigger] tl[q] == strip_cr(out[i])) by {
            if i < init.len() {
                assert(tl[i] == strip_all(init)[i]);
                assert(tl[i] == strip_cr(out[i]));
            } else {
                assert(out[i] == out.last());
                assert(tl[init.len() as int] == out.last());
            }
        }
    }
}

/// Where the loading phrase stands among the pairs: last, and once.
proof fn lemma_phrase_index(m: MetaSpec, display_name: Option<Seq<char>>, x: Seq<char>) -> (j: int)
    requires
        no_newline(written_name(m, display_name)),
        no_newline(m.artist),
        no_newline(m.album_name),
        no_newline(m.genre),
        no_newline(m.author),
    ensures
        j == desired(m, display_name, Some(x)).len() - 1,
        5 <= j,
        desired(m, display_name, Some(x))[j] == entry("loading_phrase"@, x),
        match_index(desired(m, display_name, Some(x)), "loading_phrase"@) == j,
        forall|k: int|
            0 <= k < desired(m, display_name, Some(x)).len() && #[trigger] desired(m, display_name, Some(x))[k].0
                == "loading_phrase"@ ==> k == j,
{
    let d = desired(m, display_name, Some(x));
    let l = later_entries(m);
    let base = meta_entries(m);
    let named = match display_name {
        Some(n) => base.update(0, entry("name"@, n)),
        None => base,
    };
    lemma_desired_keyed(m, display_name, Some(x));
    lemma_later_shape(m);
    lemma_later_ranks();
    reveal(later_run);
    reveal_strlit("loading_phrase");
    assert(!text_key("loading_phrase"@)) by {
        lemma_later_key("loading_phrase"@);
    }
    let j = named.len() as int;
    assert(named.len() == base.len());
    assert forall|k: int| 0 <= k < d.len() && #[trigger] d[k].0 == "loading_phrase"@ implies k == j by {
        if k < 5 {
            assert(text_key(d[k].0));
        } else if k < named.len() {
            assert(d[k] == named[k]);
            assert(base[k] == l[k - 5]);
            assert(named[k] == l[k - 5]);
            assert(later_rank(l[k - 5].0) < 14);
        }
    }
    assert forall|q: int| 0 <= q < j implies !key_matches(#[trigger] d[q], "loading_phrase"@) by {
        assert(d[q].0 == "loading_phrase"@ ==> q == j);
        reveal_strlit("frets");
    }
    lemma_match_index(d, "loading_phrase"@, j);
    j
}

/// The description written as the loading phrase reads back, trimmed, from
/// what `serialize_song_ini` writes, when the text values and the
/// description lie on one line each and no comment or section line of the
/// original reads as a `loading_phrase` line (`lemma_comments_clear_ascii`
/// shows this of every original whose comment and section lines are ASCII
/// before their first `=`).
pub proof fn lemma_loading_phrase_read_back(
    m: MetaSpec,
    original: Seq<char>,
    display_name: Option<Seq<char>>,
    x: Seq<char>,
)
    requires
        no_newline(written_name(m, display_name)),
        no_newline(m.artist),
        no_newline(m.album_name),
        no_newline(m.genre),
        no_newline(m.author),
        no_newline(m.game_origin),
        no_newline(x),
        comments_clear(lines(original)),
    ensures
        loading_phrase_of(lines(song_ini_text(m, original, display_name, Some(x)))) == trim(x),
{
    let d = desired(m, display_name, Some(x));
    let ls = lines(original);
    let out = written_lines(d, ls);
    let lp = "loading_phrase"@;
    lemma_desired_keyed(m, display_name, Some(x));
    lemma_lines_single_lines(original);
    let j = lemma_phrase_index(m, display_name, x);
    assert(d[j].0 == lp && d[j].1 == x);
    assert(all_single_lines(out)) by {
        assert forall|k: int| 0 <= k < d.len() implies no_newline(#[trigger] d[k].1) by {
            if !no_newline(d[k].1) {
                if d[k].0 == "icon"@ {
                    assert(d[k].1 == m.game_origin);
                } else {
                    assert(Some(x) == Some(d[k].1));
                }
            }
        }
        assert forall|p: int| 0 <= p < out.len() implies no_newline(#[trigger] out[p]) by {
            let kk = lemma_written_at(d, ls, p);
            if p < ls.len() {
                assert(no_newline(ls[p]));
                lemma_target_range(d, ls[p]);
                if let Some(jj) = line_target(d, ls[p]) {
                    assert(plain_key(d[jj].0));
                    lemma_rewritten(d, ls[p], jj);
                }
            } else {
                lemma_appended_line(d, kk);
            }
        }
    }
    lemma_written_values(d, ls, lp, j);
    assert(joined_text(out, original) == song_ini_text(m, original, display_name, Some(x)));
    lemma_joined_lines(out, original);
    let tl = lines(song_ini_text(m, original, display_name, Some(x)));
    assert forall|i: int| 0 <= i < out.len() && phrase_line(#[trigger] out[i]) implies phrase_value(out[i]) == trim(
        x,
    ) by {
        if ini_skipped(trim(out[i])) {
            lemma_written_skipped(d, ls, i);
            assert(out[i] == ls[i]);
        } else {
            lemma_phrase_pair(out[i]);
        }
    }
    assert forall|q: int| 0 <= q < tl.len() && phrase_line(#[trigger] tl[q]) implies phrase_value(tl[q]) == trim(
        x,
    ) by {
        if tl[q].len() == 0 {
            let (a, b) = lemma_trim_range(tl[q]);
            assert(trim(tl[q]) =~= Seq::<char>::empty());
            assert(false);
        } else {
            let i = choose|i: int| 0 <= i < out.len() && (tl[q] == out[i] || tl[q] == strip_cr(#[trigger] out[i]));
            lemma_phrase_strip_cr(out[i]);
        }
    }
    lemma_phrase_of(tl, trim(x));
    if x.len() > 0 {
        let key = lemma_written_has(d, ls, j);
        reveal_strlit("frets");
        reveal_strlit("charter");
        reveal_strlit("loading_phrase");
        assert(key == lp);
        let i = choose|i: int| 0 <= i < out.len() && carries(#[trigger] out[i], lp);
        assert(!ini_skipped(trim(out[i])));
        lemma_phrase_pair(out[i]);
        let (a, b) = lemma_trim_range(out[i]);
        assert(out[i].len() > 0);
        let q = choose|q: int| 0 <= q < tl.len() && (tl[q] == out[i] || #[trigger] tl[q] == strip_cr(out[i]));
        lemma_phrase_strip_cr(out[i]);
        assert(phrase_line(tl[q]));
    } else {
        assert(trim(x) =~= Seq::<char>::empty()) by {
            let (a, b) = lemma_trim_range(x);
        }
    }
}

// ---------------------------------------------------------------- writing back what was read

/// Whether `k` is a key that `serialize_song_ini` writes for the metadata.
pub open spec fn meta_key(k: Seq<char>) -> bool {
    text_key(k) || (later_key(k) && k != "loading_phrase"@)
}

/// Whether `k` is the key of a numeric field.
pub open spec fn number_key_of(k: Seq<char>) -> bool {
    exists|f: int| 0 <= f < 13 && k == #[trigger] number_key(f)
}

/// Whether `x` can stand as the key of a `key = value` line: not empty, no
/// white space at its ends, no `=`, and not starting a section or comment.
pub open spec fn key_text(x: Seq<char>) -> bool {
    &&& x.len() > 0
    &&& !is_ws(x[0])
    &&& !is_ws(x.last())
    &&& forall|i: int| 0 <= i < x.len() ==> #[trigger] x[i] != '='
    &&& x[0] != '[' && x[0] != ';' && x[0] != '#'
}

/// Whether a line that carries a key the metadata writes reads exactly
/// `<key> = <value>`, the value without white space at its ends; a number,
/// where the value is one, written as `serialize_song_ini` writes it.
pub open spec fn settled_line(l: Seq<char>) -> bool {
    match line_pair(l) {
        Some((k, v)) => meta_key(k) ==> (exists|x: Seq<char>|
            key_text(x) && lowercase(x) == k && l == #[trigger] (x + " = "@ + v)) && (number_key_of(k) ==> (parse_i32(
            v,
        ) matches Some(n) ==> int_to_dec(n as int) == v)),
        None => true,
    }
}

/// Whether no two lines of `ls` carry the same key that the metadata writes.
pub open spec fn meta_keys_once(ls: Seq<Seq<char>>) -> bool {
    forall|i: int, j: int|
        #![trigger ls[i], ls[j]]
        0 <= i < j < ls.len() ==> !(line_pair(ls[i]) matches Some((k, _)) && meta_key(k) && carries(ls[j], k))
}

/// Whether `serialize_song_ini` writes a song.ini text back as it is when
/// given what it reads of the text: no `\r`, no empty line after a final
/// line break, every line with a key the metadata writes settled, no such
/// key on two lines, and not both `charter` and `frets`.
pub open spec fn settled_ini(s: Seq<char>) -> bool {
    let ls = lines(s);
    &&& forall|i: int| 0 <= i < s.len() ==> #[trigger] s[i] != '\r'
    &&& !(s.len() >= 2 && s[s.len() - 1] == '\n' && s[s.len() - 2] == '\n')
    &&& forall|i: int| 0 <= i < ls.len() ==> settled_line(#[trigger] ls[i])
    &&& meta_keys_once(ls)
    &&& !(has_key(ls, "charter"@) && has_key(ls, "frets"@))
}

/// The value of the line that carries key `k`, where one does.
pub open spec fn key_value(ls: Seq<Seq<char>>, k: Seq<char>) -> Seq<char> {
    if has_key(ls, k) {
        line_pair(ls[choose|i: int| 0 <= i < ls.len() && carries(#[trigger] ls[i], k)])->Some_0.1
    } else {
        Seq::empty()
    }
}

proof fn lemma_key_value(ls: Seq<Seq<char>>, k: Seq<char>)
    requires
        meta_keys_once(ls),
        meta_key(k),
    ensures
        values_are(ls, k, key_value(ls, k)),
{
    if has_key(ls, k) {
        let c = choose|i: int| 0 <= i < ls.len() && carries(#[trigger] ls[i], k);
        assert forall|i: int| 0 <= i < ls.len() && carries(#[trigger] ls[i], k) implies line_pair(ls[i])->Some_0.1
            == key_value(ls, k) by {
            if i < c {
                assert(!(line_pair(ls[i]) matches Some((kk, _)) && meta_key(kk) && carries(ls[c], kk)));
            } else if c < i {
                assert(!(line_pair(ls[c]) matches Some((kk, _)) && meta_key(kk) && carries(ls[i], kk)));
            }
        }
    }
}

/// Joining the lines of a text without `\\r` gives the text, without its
/// final line break where it has one.
proof fn lemma_join_lines_of(s: Seq<char>)
    requires
        forall|i: int| 0 <= i < s.len() ==> #[trigger] s[i] != '\r',
    ensures
        join_lines(lines(s)) == (if s.len() > 0 && s.last() == '\n' {
            s.drop_last()
        } else {
            s
        }),
    decreases s.len(),
{
    reveal_strlit("\n");
    if s.len() > 0 {
        let i = first_index(s, '\n');
        lemma_first_index_bounds(s, '\n');
        assert(s.last() == s[s.len() - 1]);
        if i >= s.len() {
            assert(lines(s) == seq![s]);
            assert(join_lines(seq![s]) == s);
        } else {
            let a = s.take(i);
            let rest = s.skip(i + 1);
            assert(strip_cr(a) == a) by {
                if a.len() > 0 {
                    assert(a.last() == s[i - 1]);
                }
            }
            assert(lines(s) == seq![a] + lines(rest));
            assert forall|q: int| 0 <= q < rest.len() implies #[trigger] rest[q] != '\r' by {
                assert(rest[q] == s[q + i + 1]);
            }
            lemma_join_lines_of(rest);
            assert(s =~= a + "\n"@ + rest);
            if rest.len() == 0 {
                assert(lines(rest) == Seq::<Seq<char>>::empty());
                assert(seq![a] + Seq::<Seq<char>>::empty() =~= seq![a]);
                assert(join_lines(seq![a]) == a);
                assert(s.drop_last() =~= a);
            } else {
                let lr = lines(rest);
                let j = first_index(rest, '\n');
                assert(lr.len() > 0);
                lemma_join_front(a, lr);
                assert(rest.last() == s.last());
                if rest.last() == '\n' {
                    assert(s.drop_last() =~= a + "\n"@ + rest.drop_last());
                }
            }
        }
    }
}

/// The pairs written for `m` as far as reading them back needs, with no
/// condition on their values.
proof fn lemma_meta_keyed(m: MetaSpec)
    ensures
        well_keyed(meta_entries(m)),
        meta_entries(m)[0].1 == m.name,
        meta_entries(m)[1].1 == m.artist,
        meta_entries(m)[2].1 == m.album_name,
        meta_entries(m)[3].1 == m.genre,
        meta_entries(m)[4].1 == m.author,
        forall|k: int| 5 <= k < meta_entries(m).len() ==> #[trigger] meta_entries(m)[k] == later_entries(m)[k - 5],
        later_run(later_entries(m), m, 0, 14),
{
    lemma_text_keys();
    lemma_later_shape(m);
    reveal(later_run);
    let l = later_entries(m);
    let d = meta_entries(m);
    assert forall|k: int| 5 <= k < d.len() implies #[trigger] d[k] == l[k - 5] by {}
    assert forall|k: int| 0 <= k < d.len() implies plain_key(#[trigger] d[k].0) && (5 <= k ==> !text_key(d[k].0)) by {
        if k >= 5 {
            assert(d[k] == l[k - 5]);
            assert(later_key(l[k - 5].0));
            lemma_later_key(l[k - 5].0);
        }
    }
}

/// A pair that key `k` finds is used where some line carries `k`.
proof fn lemma_used_by_key(d: Seq<(Seq<char>, Seq<char>)>, ls: Seq<Seq<char>>, j: int, k: Seq<char>)
    requires
        0 <= j < d.len(),
        match_index(d, k) == j,
        has_key(ls, k),
    ensures
        pair_used(d, ls, j),
{
    let i = choose|i: int| 0 <= i < ls.len() && carries(#[trigger] ls[i], k);
    assert(line_target(d, ls[i]) == Some(j));
}

proof fn lemma_nothing_appended(d: Seq<(Seq<char>, Seq<char>)>, ls: Seq<Seq<char>>, k: int)
    requires
        0 <= k,
        forall|j: int| k <= j < d.len() && (#[trigger] d[j]).1.len() > 0 ==> pair_used(d, ls, j),
    ensures
        appended(d, ls, k) == Seq::<Seq<char>>::empty(),
    decreases d.len() - k,
{
    if k < d.len() {
        lemma_nothing_appended(d, ls, k + 1);
    }
}

/// What reading a settled text gives, field by field.
proof fn lemma_settled_read(s: Seq<char>)
    requires
        settled_ini(s),
    ensures
        ({
            let ls = lines(s);
            let m = ini_read(ls);
            &&& m.name == key_value(ls, "name"@)
            &&& m.artist == key_value(ls, "artist"@)
            &&& m.album_name == key_value(ls, "album"@)
            &&& m.genre == key_value(ls, "genre"@)
            &&& m.author == (if has_key(ls, "charter"@) {
                key_value(ls, "charter"@)
            } else {
                key_value(ls, "frets"@)
            })
            &&& (m.name.len() > 0 ==> has_key(ls, "name"@))
            &&& (m.artist.len() > 0 ==> has_key(ls, "artist"@))
            &&& (m.album_name.len() > 0 ==> has_key(ls, "album"@))
            &&& (m.genre.len() > 0 ==> has_key(ls, "genre"@))
            &&& (m.author.len() > 0 ==> has_key(ls, "charter"@) || has_key(ls, "frets"@))
            &&& m.game_origin == key_value(ls, "icon"@)
            &&& (m.game_origin.len() > 0 ==> has_key(ls, "icon"@))
            &&& forall|f: int|
                0 <= f < 13 ==> #[trigger] number_field(m, f) == (if has_key(ls, number_key(f)) {
                    parse_i32(key_value(ls, number_key(f)))
                } else {
                    None
                })
        }),
{
    let ls = lines(s);
    lemma_text_keys();
    lemma_later_ranks();
    reveal_strlit("icon");
    reveal_strlit("loading_phrase");
    lemma_later_key("icon"@);
    lemma_key_value(ls, "name"@);
    lemma_key_value(ls, "artist"@);
    lemma_key_value(ls, "album"@);
    lemma_key_value(ls, "genre"@);
    lemma_key_value(ls, "charter"@);
    lemma_key_value(ls, "frets"@);
    lemma_key_value(ls, "icon"@);
    let cv = if has_key(ls, "charter"@) {
        key_value(ls, "charter"@)
    } else {
        key_value(ls, "frets"@)
    };
    assert(charter_values(ls, cv));
    lemma_read_fields(ls, key_value(ls, "name"@), key_value(ls, "artist"@), key_value(ls, "album"@), key_value(ls, "genre"@), cv);
    if cv.len() > 0 {
        let k = if has_key(ls, "charter"@) {
            "charter"@
        } else {
            "frets"@
        };
        assert(has_key(ls, k));
        let i = choose|i: int| 0 <= i < ls.len() && carries(#[trigger] ls[i], k);
        assert(charter_line(ls[i]));
        assert(has_charter(ls, cv));
    }
    if ini_read(ls).author.len() > 0 {
        let i = choose|i: int| 0 <= i < ls.len() && charter_line(#[trigger] ls[i]) && line_pair(ls[i])->Some_0.1 == cv;
        assert(carries(ls[i], "charter"@) || carries(ls[i], "frets"@));
    }
    lemma_read_origin(ls, key_value(ls, "icon"@));
    assert forall|f: int| 0 <= f < 13 implies #[trigger] number_field(ini_read(ls), f) == (if has_key(ls, number_key(f)) {
        parse_i32(key_value(ls, number_key(f)))
    } else {
        None
    }) by {
        lemma_number_key(ini_read(ls), f);
        assert(later_rank(number_key(f)) < 14);
        lemma_key_value(ls, number_key(f));
        lemma_read_number(ls, f, key_value(ls, number_key(f)));
    }
}

/// A settled line is written back as it is.
proof fn lemma_settled_line_kept(s: Seq<char>, i: int)
    requires
        settled_ini(s),
        0 <= i < lines(s).len(),
    ensures
        rewritten_line(meta_entries(ini_read(lines(s))), lines(s)[i]) == lines(s)[i],
{
    let ls = lines(s);
    let m = ini_read(ls);
    let d = meta_entries(m);
    let l = ls[i];
    lemma_meta_keyed(m);
    lemma_target_range(d, l);
    if let Some(j) = line_target(d, l) {
        assert(plain_key(d[j].0));
        lemma_rewritten(d, l, j);
        let k = line_pair(l)->Some_0.0;
        let v = line_pair(l)->Some_0.1;
        lemma_text_keys();
        lemma_later_ranks();
        reveal(later_run);
        reveal_strlit("charter");
        reveal_strlit("frets");
        reveal_strlit("icon");
        reveal_strlit("loading_phrase");
        let le = later_entries(m);
        if j >= 5 {
            assert(d[j] == le[j - 5]);
            assert(later_key(le[j - 5].0) && later_rank(le[j - 5].0) < 14);
            assert(!text_key(d[j].0));
            assert(k == d[j].0);
        }
        assert(meta_key(k));
        assert(settled_line(l));
        let x = choose|x: Seq<char>| key_text(x) && lowercase(x) == k && l == #[trigger] (x + " = "@ + v);
        lemma_pair_line(x, v);
        assert(carries(l, k));
        lemma_settled_read(s);
        lemma_key_value(ls, k);
        assert(line_pair(ls[i])->Some_0.1 == key_value(ls, k));
        if j >= 5 {
            let e = le[j - 5];
            assert(e.1 == later_value(m, e.0));
            if k == "icon"@ {
                lemma_later_values(m);
            } else {
                assert(key_set(le).contains(k)) by {
                    reveal(key_set);
                }
                lemma_later_keys_only(m);
                assert(later_written(m, k));
                let f = choose|f: int| 0 <= f < 13 && k == number_key(f) && #[trigger] number_field(m, f) is Some;
                lemma_number_key(m, f);
                assert(number_field(m, f) == parse_i32(v));
                assert(number_key_of(k));
            }
        } else if j == 4 {
            if k == "frets"@ {
                assert(!has_key(ls, "charter"@));
            }
        }
        assert(d[j].1 == v);
    }
}

/// Writing back, unchanged, the metadata read from a settled song.ini text
/// gives the text itself: every line stays as it is and none is added.
pub proof fn lemma_unchanged_written_back(s: Seq<char>)
    requires
        settled_ini(s),
    ensures
        song_ini_text(song_ini_meta(s), s, None, None) == s,
{
    let ls = lines(s);
    let m = ini_read(ls);
    let d = desired(m, None, None);
    assert(d == meta_entries(m));
    lemma_meta_keyed(m);
    lemma_settled_read(s);
    let mapped = ls.map_values(|l: Seq<char>| rewritten_line(d, l));
    assert forall|i: int| 0 <= i < ls.len() implies #[trigger] mapped[i] == ls[i] by {
        lemma_settled_line_kept(s, i);
    }
    assert(mapped =~= ls);
    lemma_key_indices(d);
    lemma_later_ranks();
    reveal(later_run);
    assert forall|j: int| 0 <= j < d.len() && (#[trigger] d[j]).1.len() > 0 implies pair_used(d, ls, j) by {
        if j == 0 {
            lemma_used_by_key(d, ls, 0, "name"@);
        } else if j == 1 {
            lemma_used_by_key(d, ls, 1, "artist"@);
        } else if j == 2 {
            lemma_used_by_key(d, ls, 2, "album"@);
        } else if j == 3 {
            lemma_used_by_key(d, ls, 3, "genre"@);
        } else if j == 4 {
            if has_key(ls, "charter"@) {
                lemma_used_by_key(d, ls, 4, "charter"@);
            } else {
                lemma_used_by_key(d, ls, 4, "frets"@);
            }
        } else {
            let le = later_entries(m);
            let k = d[j].0;
            assert(d[j] == le[j - 5]);
            assert(later_key(k) && later_rank(k) < 14);
            assert(key_set(le).contains(k)) by {
                reveal(key_set);
            }
            lemma_later_keys_only(m);
            let jj = lemma_later_index(m, None, None, k);
            assert(jj == j);
            if k == "icon"@ && m.game_origin.len() > 0 {
                lemma_used_by_key(d, ls, j, k);
            } else {
                let f = choose|f: int| 0 <= f < 13 && k == number_key(f) && #[trigger] number_field(m, f) is Some;
                assert(has_key(ls, number_key(f)));
                lemma_used_by_key(d, ls, j, k);
            }
        }
    }
    lemma_nothing_appended(d, ls, 0);
    assert(written_lines(d, ls) =~= ls);
    lemma_join_lines_of(s);
    if s.len() > 0 && s.last() == '\n' {
        let joined = s.drop_last();
        if joined.len() > 0 {
            assert(joined.last() == s[s.len() - 2]);
        }
        assert(joined.push('\n') =~= s);
    }
}

} // verus!
