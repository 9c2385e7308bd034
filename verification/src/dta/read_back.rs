//! What reading a DTA tree gives after `apply_metadata` has written to it.
use vstd::prelude::*;
use crate::dta::parser::{
    all_ints, author_of, dta_meta, entry_read, field_set, first_int, first_list, first_string, first_symbol,
    is_trivia, key_of, rank_set, ranks_read, ranks_read_step, value_after_key, Dta,
};
use crate::dta::serializer::{
    after_key_index, field_applied, first_list_index, item_applied, metadata_applied, nth_int_index, rank_for,
    rank_pair_applied, replace_at, wanted, with_int,
    with_nth_int, with_opt_int, with_string, with_symbol,
};
use crate::dta::types::{empty_meta, MetaSpec};
use crate::text::lines;

verus! {

// ---------------------------------------------------------------- reading the song entry

/// Whether `n` is a `(k ...)` list.
pub open spec fn keyed(n: Dta, k: Seq<char>) -> bool {
    n is List && key_of(n->List_0) == Some(k)
}

/// The children of the last `(k ...)` list among `ns`.
pub open spec fn last_keyed(ns: Seq<Dta>, k: Seq<char>) -> Option<Seq<Dta>>
    decreases ns.len(),
{
    if ns.len() == 0 {
        None
    } else if keyed(ns.last(), k) {
        Some(ns.last()->List_0)
    } else {
        last_keyed(ns.drop_last(), k)
    }
}

/// The key of text field number `f` (`0..7`): name, artist, album, genre,
/// sub-genre, vocal gender, origin.
pub open spec fn text_key(f: int) -> Seq<char> {
    if f == 0 {
        "name"@
    } else if f == 1 {
        "artist"@
    } else if f == 2 {
        "album_name"@
    } else if f == 3 {
        "genre"@
    } else if f == 4 {
        "sub_genre"@
    } else if f == 5 {
        "vocal_gender"@
    } else {
        "game_origin"@
    }
}

/// Text field number `f` of `m`.
pub open spec fn text_field(m: MetaSpec, f: int) -> Seq<char> {
    if f == 0 {
        m.name
    } else if f == 1 {
        m.artist
    } else if f == 2 {
        m.album_name
    } else if f == 3 {
        m.genre
    } else if f == 4 {
        m.sub_genre
    } else if f == 5 {
        m.vocal_gender
    } else {
        m.game_origin
    }
}

/// How text field `f` is read from its list: the first string for the name,
/// artist and album, the first value after the key for the others.
pub open spec fn text_read(f: int, sub: Seq<Dta>) -> Seq<char> {
    if f < 3 {
        first_string(sub)
    } else {
        value_after_key(sub, false)
    }
}

/// The key of integer field number `g` (`0..5`): album track, year, length,
/// rating, song id.
pub open spec fn int_key(g: int) -> Seq<char> {
    if g == 0 {
        "album_track_number"@
    } else if g == 1 {
        "year_released"@
    } else if g == 2 {
        "song_length"@
    } else if g == 3 {
        "rating"@
    } else {
        "song_id"@
    }
}

/// Integer field number `g` of `m`.
pub open spec fn int_field(m: MetaSpec, g: int) -> Option<i32> {
    if g == 0 {
        m.album_track_number
    } else if g == 1 {
        m.year_released
    } else if g == 2 {
        m.song_length
    } else if g == 3 {
        m.rating
    } else {
        m.song_id
    }
}

proof fn lemma_dta_literals()
    ensures
        "name"@.len() == 4 && "name"@[0] == 'n',
        "artist"@.len() == 6 && "artist"@[0] == 'a',
        "album_name"@.len() == 10,
        "album_track_number"@.len() == 18,
        "genre"@.len() == 5,
        "sub_genre"@.len() == 9,
        "vocal_gender"@.len() == 12,
        "year_released"@.len() == 13,
        "song_length"@.len() == 11 && "song_length"@[0] == 's',
        "rating"@.len() == 6 && "rating"@[0] == 'r',
        "song_id"@.len() == 7 && "song_id"@[0] == 's',
        "game_origin"@.len() == 11 && "game_origin"@[0] == 'g',
        "preview"@.len() == 7 && "preview"@[0] == 'p',
        "rank"@.len() == 4 && "rank"@[0] == 'r',
{
    reveal_strlit("name");
    reveal_strlit("artist");
    reveal_strlit("album_name");
    reveal_strlit("album_track_number");
    reveal_strlit("genre");
    reveal_strlit("sub_genre");
    reveal_strlit("vocal_gender");
    reveal_strlit("year_released");
    reveal_strlit("song_length");
    reveal_strlit("rating");
    reveal_strlit("song_id");
    reveal_strlit("game_origin");
    reveal_strlit("preview");
    reveal_strlit("rank");
}

/// Reading a `rank` list sets rank fields only.
proof fn lemma_ranks_keep(m: MetaSpec, ns: Seq<Dta>)
    ensures
        forall|f: int| 0 <= f < 7 ==> #[trigger] text_field(ranks_read(m, ns), f) == text_field(m, f),
        forall|g: int| 0 <= g < 5 ==> #[trigger] int_field(ranks_read(m, ns), g) == int_field(m, g),
        ranks_read(m, ns).preview_start == m.preview_start,
        ranks_read(m, ns).preview_end == m.preview_end,
    decreases ns.len(),
{
    if ns.len() > 0 {
        lemma_ranks_keep(m, ns.drop_last());
        let a = ranks_read(m, ns.drop_last());
        let b = ranks_read(m, ns);
        assert(b == ranks_read_step(a, ns.last()));
        assert(b.name == a.name && b.artist == a.artist && b.album_name == a.album_name && b.genre == a.genre);
        assert(b.sub_genre == a.sub_genre && b.vocal_gender == a.vocal_gender && b.game_origin == a.game_origin);
        assert(b.album_track_number == a.album_track_number && b.year_released == a.year_released);
        assert(b.song_length == a.song_length && b.rating == a.rating && b.song_id == a.song_id);
        assert forall|f: int| 0 <= f < 7 implies #[trigger] text_field(b, f) == text_field(m, f) by {
            assert(text_field(a, f) == text_field(m, f));
        }
        assert forall|g: int| 0 <= g < 5 implies #[trigger] int_field(b, g) == int_field(m, g) by {
            assert(int_field(a, g) == int_field(m, g));
        }
    }
}

proof fn lemma_field_set_text(m: MetaSpec, k: Seq<char>, sub: Seq<Dta>, f: int)
    requires
        0 <= f < 7,
    ensures
        text_field(field_set(m, k, sub), f) == (if k == text_key(f) {
            text_read(f, sub)
        } else {
            text_field(m, f)
        }),
{
    lemma_dta_literals();
    lemma_ranks_keep(m, sub);
}

proof fn lemma_field_set_int(m: MetaSpec, k: Seq<char>, sub: Seq<Dta>, g: int)
    requires
        0 <= g < 5,
    ensures
        int_field(field_set(m, k, sub), g) == (if k == int_key(g) {
            first_int(sub)
        } else {
            int_field(m, g)
        }),
{
    lemma_dta_literals();
    lemma_ranks_keep(m, sub);
}

proof fn lemma_field_set_preview(m: MetaSpec, k: Seq<char>, sub: Seq<Dta>)
    ensures
        k != "preview"@ ==> field_set(m, k, sub).preview_start == m.preview_start && field_set(m, k, sub).preview_end
            == m.preview_end,
        k == "preview"@ && all_ints(sub).len() >= 2 ==> field_set(m, k, sub).preview_start == Some(all_ints(sub)[0])
            && field_set(m, k, sub).preview_end == Some(all_ints(sub)[1]),
{
    lemma_dta_literals();
    lemma_ranks_keep(m, sub);
}

/// A text field read from the song entry comes from its last `(key ...)` list.
proof fn lemma_entry_read_text(m: MetaSpec, ns: Seq<Dta>, f: int)
    requires
        0 <= f < 7,
    ensures
        text_field(entry_read(m, ns), f) == match last_keyed(ns, text_key(f)) {
            Some(sub) => text_read(f, sub),
            None => text_field(m, f),
        },
    decreases ns.len(),
{
    if ns.len() > 0 {
        lemma_entry_read_text(m, ns.drop_last(), f);
        let mm = entry_read(m, ns.drop_last());
        let n = ns.last();
        if n is List {
            if let Some(k) = key_of(n->List_0) {
                lemma_field_set_text(mm, k, n->List_0, f);
            }
        }
    }
}

/// An integer field read from the song entry comes from its last
/// `(key ...)` list.
proof fn lemma_entry_read_int(m: MetaSpec, ns: Seq<Dta>, g: int)
    requires
        0 <= g < 5,
    ensures
        int_field(entry_read(m, ns), g) == match last_keyed(ns, int_key(g)) {
            Some(sub) => first_int(sub),
            None => int_field(m, g),
        },
    decreases ns.len(),
{
    if ns.len() > 0 {
        lemma_entry_read_int(m, ns.drop_last(), g);
        let mm = entry_read(m, ns.drop_last());
        let n = ns.last();
        if n is List {
            if let Some(k) = key_of(n->List_0) {
                lemma_field_set_int(mm, k, n->List_0, g);
            }
        }
    }
}

/// The preview read from the song entry comes from its last `preview` list
/// when that list holds two integers.
proof fn lemma_entry_read_preview(m: MetaSpec, ns: Seq<Dta>)
    ensures
        match last_keyed(ns, "preview"@) {
            Some(ps) => all_ints(ps).len() >= 2 ==> entry_read(m, ns).preview_start == Some(all_ints(ps)[0])
                && entry_read(m, ns).preview_end == Some(all_ints(ps)[1]),
            None => true,
        },
    decreases ns.len(),
{
    if ns.len() > 0 {
        lemma_entry_read_preview(m, ns.drop_last());
        let mm = entry_read(m, ns.drop_last());
        let n = ns.last();
        if n is List {
            if let Some(k) = key_of(n->List_0) {
                lemma_field_set_preview(mm, k, n->List_0);
            }
        }
    }
}

// ---------------------------------------------------------------- what the setters leave

/// Where the key of a keyed list stands: after white space and comments only.
proof fn lemma_key_at(ns: Seq<Dta>) -> (p: int)
    requires
        key_of(ns) is Some,
    ensures
        0 <= p < ns.len(),
        ns[p] == Dta::Symbol(key_of(ns)->Some_0),
        forall|i: int| 0 <= i < p ==> is_trivia(#[trigger] ns[i]),
    decreases ns.len(),
{
    if ns[0] is Symbol {
        0
    } else {
        let t = ns.drop_first();
        let q = lemma_key_at(t);
        assert forall|i: int| 0 <= i < q + 1 implies is_trivia(#[trigger] ns[i]) by {
            if i > 0 {
                assert(ns[i] == t[i - 1]);
            }
        }
        q + 1
    }
}

proof fn lemma_key_from(ns: Seq<Dta>, p: int)
    requires
        0 <= p < ns.len(),
        ns[p] is Symbol,
        forall|i: int| 0 <= i < p ==> is_trivia(#[trigger] ns[i]),
    ensures
        key_of(ns) == Some(ns[p]->Symbol_0),
    decreases p,
{
    if p > 0 {
        let t = ns.drop_first();
        assert(is_trivia(ns[0]));
        assert forall|i: int| 0 <= i < p - 1 implies is_trivia(#[trigger] t[i]) by {
            assert(t[i] == ns[i + 1]);
        }
        assert(t[p - 1] == ns[p]);
        lemma_key_from(t, p - 1);
    }
}

/// Setting a node after the key keeps the key.
proof fn lemma_key_update(ns: Seq<Dta>, p: int, q: int, n: Dta)
    requires
        0 <= p < ns.len(),
        ns[p] is Symbol,
        forall|i: int| 0 <= i < p ==> is_trivia(#[trigger] ns[i]),
        p < q,
    ensures
        key_of(replace_at(ns, q, n)) == key_of(ns),
{
    lemma_key_from(ns, p);
    if q < ns.len() {
        let u = ns.update(q, n);
        assert(u[p] == ns[p]);
        assert forall|i: int| 0 <= i < p implies is_trivia(#[trigger] u[i]) by {
            assert(u[i] == ns[i]);
        }
        lemma_key_from(u, p);
    }
}

/// Scanning for the key passes white space and comments.
proof fn lemma_after_key_skip(ns: Seq<Dta>, i: int, p: int, want: int)
    requires
        0 <= i <= p < ns.len(),
        ns[p] is Symbol,
        forall|q: int| i <= q < p ==> !(#[trigger] ns[q] is Symbol),
    ensures
        after_key_index(ns, i, false, want) == after_key_index(ns, p + 1, true, want),
    decreases p - i,
{
    if i < p {
        lemma_after_key_skip(ns, i + 1, p, want);
    }
}

/// What scanning after the key finds: the first node of the kind wanted.
proof fn lemma_after_found(ns: Seq<Dta>, i: int, want: int)
    requires
        0 <= i,
    ensures
        i <= after_key_index(ns, i, true, want) <= ns.len() || (i > ns.len() && after_key_index(ns, i, true, want)
            == ns.len()),
        after_key_index(ns, i, true, want) < ns.len() ==> wanted(ns[after_key_index(ns, i, true, want)], want),
        forall|q: int| i <= q < after_key_index(ns, i, true, want) && q < ns.len() ==> !wanted(#[trigger] ns[q], want),
    decreases ns.len() - i,
{
    if i < ns.len() && !wanted(ns[i], want) {
        lemma_after_found(ns, i + 1, want);
    }
}

/// The node of the kind wanted that a setter replaces: the first after the
/// key, if any.
proof fn lemma_after_key(ns: Seq<Dta>, want: int) -> (p: int)
    requires
        key_of(ns) is Some,
    ensures
        0 <= p < ns.len(),
        ns[p] is Symbol,
        forall|i: int| 0 <= i < p ==> is_trivia(#[trigger] ns[i]),
        p < after_key_index(ns, 0, false, want) <= ns.len(),
        after_key_index(ns, 0, false, want) < ns.len() ==> wanted(ns[after_key_index(ns, 0, false, want)], want),
        forall|q: int| p < q < after_key_index(ns, 0, false, want) ==> !wanted(#[trigger] ns[q], want),
{
    let p = lemma_key_at(ns);
    assert forall|q: int| 0 <= q < p implies !(#[trigger] ns[q] is Symbol) by {
        assert(is_trivia(ns[q]));
    }
    lemma_after_key_skip(ns, 0, p, want);
    lemma_after_found(ns, p + 1, want);
    p
}

proof fn lemma_first_string_at(ns: Seq<Dta>, j: int)
    requires
        0 <= j < ns.len(),
        ns[j] is Str,
        forall|i: int| 0 <= i < j ==> !(#[trigger] ns[i] is Str),
    ensures
        first_string(ns) == ns[j]->Str_0,
    decreases j,
{
    if j > 0 {
        let t = ns.drop_first();
        assert(!(ns[0] is Str));
        assert forall|i: int| 0 <= i < j - 1 implies !(#[trigger] t[i] is Str) by {
            assert(t[i] == ns[i + 1]);
        }
        assert(t[j - 1] == ns[j]);
        lemma_first_string_at(t, j - 1);
    }
}

proof fn lemma_first_int_at(ns: Seq<Dta>, j: int)
    requires
        0 <= j < ns.len(),
        ns[j] is Int,
        forall|i: int| 0 <= i < j ==> !(#[trigger] ns[i] is Int),
    ensures
        first_int(ns) == Some(ns[j]->Int_0),
    decreases j,
{
    if j > 0 {
        let t = ns.drop_first();
        assert(!(ns[0] is Int));
        assert forall|i: int| 0 <= i < j - 1 implies !(#[trigger] t[i] is Int) by {
            assert(t[i] == ns[i + 1]);
        }
        assert(t[j - 1] == ns[j]);
        lemma_first_int_at(t, j - 1);
    }
}

proof fn lemma_value_found_at(ns: Seq<Dta>, j: int, v: Seq<char>)
    requires
        0 <= j < ns.len(),
        ns[j] == Dta::Symbol(v),
        forall|i: int| 0 <= i < j ==> !(#[trigger] ns[i] is Symbol) && !(ns[i] is Str),
    ensures
        value_after_key(ns, true) == v,
    decreases j,
{
    if j > 0 {
        let t = ns.drop_first();
        assert(!(ns[0] is Symbol) && !(ns[0] is Str));
        assert forall|i: int| 0 <= i < j - 1 implies !(#[trigger] t[i] is Symbol) && !(t[i] is Str) by {
            assert(t[i] == ns[i + 1]);
        }
        assert(t[j - 1] == ns[j]);
        lemma_value_found_at(t, j - 1, v);
    }
}

proof fn lemma_value_at(ns: Seq<Dta>, p: int, j: int, v: Seq<char>)
    requires
        0 <= p < j < ns.len(),
        ns[p] is Symbol,
        forall|i: int| 0 <= i < p ==> !(#[trigger] ns[i] is Symbol),
        ns[j] == Dta::Symbol(v),
        forall|i: int| p < i < j ==> !(#[trigger] ns[i] is Symbol) && !(ns[i] is Str),
    ensures
        value_after_key(ns, false) == v,
    decreases p,
{
    let t = ns.drop_first();
    if p > 0 {
        assert(!(ns[0] is Symbol));
        assert forall|i: int| 0 <= i < p - 1 implies !(#[trigger] t[i] is Symbol) by {
            assert(t[i] == ns[i + 1]);
        }
        assert forall|i: int| p - 1 < i < j - 1 implies !(#[trigger] t[i] is Symbol) && !(t[i] is Str) by {
            assert(t[i] == ns[i + 1]);
        }
        assert(t[p - 1] == ns[p]);
        assert(t[j - 1] == ns[j]);
        lemma_value_at(t, p - 1, j - 1, v);
    } else {
        assert forall|i: int| 0 <= i < j - 1 implies !(#[trigger] t[i] is Symbol) && !(t[i] is Str) by {
            assert(t[i] == ns[i + 1]);
        }
        assert(t[j - 1] == ns[j]);
        lemma_value_found_at(t, j - 1, v);
    }
}

/// Whether a list has a place for a text value: a string or symbol after its key.
pub open spec fn string_slot(sub: Seq<Dta>) -> bool {
    after_key_index(sub, 0, false, 0) < sub.len() || after_key_index(sub, 0, false, 1) < sub.len()
}

/// Whether the first value after a list's key is a symbol.
pub open spec fn symbol_slot(sub: Seq<Dta>) -> bool {
    after_key_index(sub, 0, false, 1) < after_key_index(sub, 0, false, 0)
}

/// Whether a list has an integer after its key.
pub open spec fn int_slot(sub: Seq<Dta>) -> bool {
    after_key_index(sub, 0, false, 2) < sub.len()
}

proof fn lemma_with_string(sub: Seq<Dta>, v: Seq<char>)
    requires
        key_of(sub) is Some,
    ensures
        key_of(with_string(sub, v)) == key_of(sub),
        string_slot(sub) ==> first_string(with_string(sub, v)) == v,
{
    let p = lemma_after_key(sub, 0);
    lemma_after_key(sub, 1);
    let j0 = after_key_index(sub, 0, false, 0);
    let j1 = after_key_index(sub, 0, false, 1);
    if j0 < sub.len() {
        lemma_key_update(sub, p, j0, Dta::Str(v));
        let u = sub.update(j0, Dta::Str(v));
        assert forall|i: int| 0 <= i < j0 implies !(#[trigger] u[i] is Str) by {
            assert(u[i] == sub[i]);
            if i < p {
                assert(is_trivia(sub[i]));
            }
        }
        lemma_first_string_at(u, j0);
    } else {
        lemma_key_update(sub, p, j1, Dta::Str(v));
        if j1 < sub.len() {
            let u = sub.update(j1, Dta::Str(v));
            assert forall|i: int| 0 <= i < j1 implies !(#[trigger] u[i] is Str) by {
                assert(u[i] == sub[i]);
                if i < p {
                    assert(is_trivia(sub[i]));
                } else if i > p {
                    assert(!wanted(sub[i], 0));
                }
            }
            lemma_first_string_at(u, j1);
        }
    }
}

proof fn lemma_with_symbol(sub: Seq<Dta>, v: Seq<char>)
    requires
        key_of(sub) is Some,
    ensures
        key_of(with_symbol(sub, v)) == key_of(sub),
        symbol_slot(sub) ==> value_after_key(with_symbol(sub, v), false) == v,
{
    let p = lemma_after_key(sub, 1);
    lemma_after_key(sub, 0);
    let j1 = after_key_index(sub, 0, false, 1);
    lemma_key_update(sub, p, j1, Dta::Symbol(v));
    if symbol_slot(sub) {
        let u = sub.update(j1, Dta::Symbol(v));
        assert forall|i: int| 0 <= i < p implies !(#[trigger] u[i] is Symbol) by {
            assert(u[i] == sub[i]);
            assert(is_trivia(sub[i]));
        }
        assert forall|i: int| p < i < j1 implies !(#[trigger] u[i] is Symbol) && !(u[i] is Str) by {
            assert(u[i] == sub[i]);
            assert(!wanted(sub[i], 1));
            assert(!wanted(sub[i], 0));
        }
        assert(u[p] == sub[p]);
        lemma_value_at(u, p, j1, v);
    }
}

proof fn lemma_with_int(sub: Seq<Dta>, x: i32)
    requires
        key_of(sub) is Some,
    ensures
        key_of(with_int(sub, x)) == key_of(sub),
        int_slot(sub) ==> first_int(with_int(sub, x)) == Some(x),
{
    let p = lemma_after_key(sub, 2);
    let j = after_key_index(sub, 0, false, 2);
    lemma_key_update(sub, p, j, Dta::Int(x));
    if j < sub.len() {
        let u = sub.update(j, Dta::Int(x));
        assert forall|i: int| 0 <= i < j implies !(#[trigger] u[i] is Int) by {
            assert(u[i] == sub[i]);
            if i < p {
                assert(is_trivia(sub[i]));
            } else if i > p {
                assert(!wanted(sub[i], 2));
            }
        }
        lemma_first_int_at(u, j);
    }
}

proof fn lemma_all_ints_add(a: Seq<Dta>, b: Seq<Dta>)
    ensures
        all_ints(a + b) == all_ints(a) + all_ints(b),
    decreases a.len(),
{
    if a.len() == 0 {
        assert(a + b =~= b);
    } else {
        lemma_all_ints_add(a.drop_first(), b);
        assert((a + b).drop_first() =~= a.drop_first() + b);
        assert((a + b)[0] == a[0]);
    }
}

/// Setting an integer node sets the matching entry of the integers read.
proof fn lemma_all_ints_update(ns: Seq<Dta>, j: int, x: i32)
    requires
        0 <= j < ns.len(),
        ns[j] is Int,
    ensures
        all_ints(ns.update(j, Dta::Int(x))) == all_ints(ns).update(all_ints(ns.take(j)).len() as int, x),
        all_ints(ns.update(j, Dta::Int(x))).len() == all_ints(ns).len(),
{
    let pre = ns.take(j);
    let post = ns.skip(j + 1);
    assert(ns =~= pre + seq![ns[j]] + post);
    assert(ns.update(j, Dta::Int(x)) =~= pre + seq![Dta::Int(x)] + post);
    lemma_all_ints_add(pre + seq![ns[j]], post);
    lemma_all_ints_add(pre, seq![ns[j]]);
    lemma_all_ints_add(pre + seq![Dta::Int(x)], post);
    lemma_all_ints_add(pre, seq![Dta::Int(x)]);
    assert(seq![ns[j]].drop_first() =~= Seq::<Dta>::empty());
    assert(seq![Dta::Int(x)].drop_first() =~= Seq::<Dta>::empty());
    assert(all_ints(Seq::<Dta>::empty()) == Seq::<i32>::empty());
    assert(all_ints(seq![ns[j]]) =~= seq![ns[j]->Int_0]);
    assert(all_ints(seq![Dta::Int(x)]) =~= seq![x]);
    assert(all_ints(ns.update(j, Dta::Int(x))) =~= all_ints(ns).update(all_ints(pre).len() as int, x));
}

/// Where the `n`-th integer from `i` stands.
proof fn lemma_nth_int(ns: Seq<Dta>, i: int, n: int)
    requires
        0 <= i <= ns.len(),
        0 <= n,
    ensures
        (nth_int_index(ns, i, n) < ns.len()) == (all_ints(ns.skip(i)).len() > n),
        nth_int_index(ns, i, n) < ns.len() ==> i <= nth_int_index(ns, i, n) && ns[nth_int_index(ns, i, n)] is Int
            && all_ints(ns.subrange(i, nth_int_index(ns, i, n))).len() == n,
    decreases ns.len() - i,
{
    if i < ns.len() {
        let t = ns.skip(i);
        assert(t[0] == ns[i]);
        assert(t.drop_first() =~= ns.skip(i + 1));
        if ns[i] is Int && n == 0 {
            assert(ns.subrange(i, i) =~= Seq::<Dta>::empty());
        } else {
            lemma_nth_int(ns, i + 1, if ns[i] is Int { n - 1 } else { n });
            let idx = nth_int_index(ns, i, n);
            if idx < ns.len() {
                let r = ns.subrange(i, idx);
                assert(r[0] == ns[i]);
                assert(r.drop_first() =~= ns.subrange(i + 1, idx));
            }
        }
    } else {
        assert(ns.skip(i) =~= Seq::<Dta>::empty());
    }
}

proof fn lemma_with_nth_int(sub: Seq<Dta>, n: int, x: i32)
    requires
        key_of(sub) is Some,
        0 <= n,
    ensures
        key_of(with_nth_int(sub, n, x)) == key_of(sub),
        n < all_ints(sub).len() ==> all_ints(with_nth_int(sub, n, x)) == all_ints(sub).update(n, x),
{
    let p = lemma_key_at(sub);
    lemma_nth_int(sub, 0, n);
    assert(sub.skip(0) =~= sub);
    let idx = nth_int_index(sub, 0, n);
    if idx < sub.len() {
        assert(idx != p);
        if idx < p {
            assert(is_trivia(sub[idx]));
        }
        lemma_key_update(sub, p, idx, Dta::Int(x));
        assert(sub.subrange(0, idx) =~= sub.take(idx));
        lemma_all_ints_update(sub, idx, x);
    }
}

/// The preview list after both times are set: its first two integers are
/// the new times.
proof fn lemma_with_preview(sub: Seq<Dta>, a: i32, b: i32)
    requires
        key_of(sub) is Some,
    ensures
        key_of(with_nth_int(with_nth_int(sub, 0, a), 1, b)) == key_of(sub),
        all_ints(sub).len() >= 2 ==> all_ints(with_nth_int(with_nth_int(sub, 0, a), 1, b)).len() >= 2 && all_ints(
            with_nth_int(with_nth_int(sub, 0, a), 1, b),
        )[0] == a && all_ints(with_nth_int(with_nth_int(sub, 0, a), 1, b))[1] == b,
{
    lemma_with_nth_int(sub, 0, a);
    let s1 = with_nth_int(sub, 0, a);
    lemma_with_nth_int(s1, 1, b);
}

proof fn lemma_with_opt_int(sub: Seq<Dta>, v: Option<i32>)
    requires
        key_of(sub) is Some,
    ensures
        key_of(with_opt_int(sub, v)) == key_of(sub),
        v is Some && int_slot(sub) ==> first_int(with_opt_int(sub, v)) == v,
{
    if let Some(x) = v {
        lemma_with_int(sub, x);
    }
}

/// Setting the ranks keeps the kind of every node that is not a list.
proof fn lemma_rank_map_key(sub: Seq<Dta>, m: MetaSpec)
    requires
        key_of(sub) is Some,
    ensures
        key_of(sub.map_values(|n: Dta| rank_pair_applied(n, m))) == key_of(sub),
{
    let p = lemma_key_at(sub);
    let u = sub.map_values(|n: Dta| rank_pair_applied(n, m));
    assert(u[p] == rank_pair_applied(sub[p], m));
    assert forall|i: int| 0 <= i < p implies is_trivia(#[trigger] u[i]) by {
        assert(u[i] == rank_pair_applied(sub[i], m));
        assert(is_trivia(sub[i]));
    }
    lemma_key_from(u, p);
    lemma_key_from(sub, p);
}

/// Applying metadata to a `(key ...)` list keeps its key.
proof fn lemma_field_applied_key(sub: Seq<Dta>, k: Seq<char>, m: MetaSpec)
    requires
        key_of(sub) is Some,
    ensures
        key_of(field_applied(sub, k, m)) == key_of(sub),
{
    lemma_with_string(sub, m.name);
    lemma_with_string(sub, m.artist);
    lemma_with_string(sub, m.album_name);
    lemma_with_opt_int(sub, m.album_track_number);
    lemma_with_symbol(sub, m.genre);
    lemma_with_symbol(sub, m.sub_genre);
    lemma_with_symbol(sub, m.vocal_gender);
    lemma_with_opt_int(sub, m.year_released);
    lemma_with_opt_int(sub, m.song_length);
    lemma_with_opt_int(sub, m.rating);
    lemma_with_opt_int(sub, m.song_id);
    lemma_with_symbol(sub, m.game_origin);
    if let (Some(a), Some(b)) = (m.preview_start, m.preview_end) {
        lemma_with_preview(sub, a, b);
    }
    lemma_rank_map_key(sub, m);
}

proof fn lemma_keyed_applied(n: Dta, k: Seq<char>, m: MetaSpec)
    ensures
        keyed(item_applied(n, m), k) == keyed(n, k),
        keyed(n, k) ==> item_applied(n, m)->List_0 == field_applied(n->List_0, k, m),
{
    if n is List {
        if let Some(kk) = key_of(n->List_0) {
            lemma_field_applied_key(n->List_0, kk, m);
        }
    }
}

/// The last `(k ...)` list of the song entry after applying metadata is the
/// last one before, with the field set.
proof fn lemma_last_keyed_applied(items: Seq<Dta>, k: Seq<char>, m: MetaSpec)
    ensures
        last_keyed(items.map_values(|n: Dta| item_applied(n, m)), k) == match last_keyed(items, k) {
            Some(sub) => Some(field_applied(sub, k, m)),
            None => None,
        },
    decreases items.len(),
{
    let u = items.map_values(|n: Dta| item_applied(n, m));
    if items.len() > 0 {
        let init = items.drop_last();
        lemma_last_keyed_applied(init, k, m);
        assert(u.drop_last() =~= init.map_values(|n: Dta| item_applied(n, m)));
        assert(u.last() == item_applied(items.last(), m));
        lemma_keyed_applied(items.last(), k, m);
    }
}

// ---------------------------------------------------------------- ranks

/// The instrument of rank field number `h` (`0..9`).
pub open spec fn rank_key(h: int) -> Seq<char> {
    if h == 0 {
        "drum"@
    } else if h == 1 {
        "guitar"@
    } else if h == 2 {
        "bass"@
    } else if h == 3 {
        "vocals"@
    } else if h == 4 {
        "keys"@
    } else if h == 5 {
        "band"@
    } else if h == 6 {
        "real_guitar"@
    } else if h == 7 {
        "real_bass"@
    } else {
        "real_keys"@
    }
}

/// Rank field number `h` of `m`.
pub open spec fn rank_field(m: MetaSpec, h: int) -> Option<i32> {
    if h == 0 {
        m.rank_drum
    } else if h == 1 {
        m.rank_guitar
    } else if h == 2 {
        m.rank_bass
    } else if h == 3 {
        m.rank_vocals
    } else if h == 4 {
        m.rank_keys
    } else if h == 5 {
        m.rank_band
    } else if h == 6 {
        m.rank_real_guitar
    } else if h == 7 {
        m.rank_real_bass
    } else {
        m.rank_real_keys
    }
}

proof fn lemma_rank_literals()
    ensures
        "drum"@.len() == 4 && "drum"@[0] == 'd',
        "guitar"@.len() == 6 && "guitar"@[0] == 'g',
        "bass"@.len() == 4 && "bass"@[0] == 'b' && "bass"@[2] == 's',
        "vocals"@.len() == 6 && "vocals"@[0] == 'v',
        "keys"@.len() == 4 && "keys"@[0] == 'k',
        "band"@.len() == 4 && "band"@[0] == 'b' && "band"@[2] == 'n',
        "real_guitar"@.len() == 11,
        "real_bass"@.len() == 9 && "real_bass"@[5] == 'b',
        "real_keys"@.len() == 9 && "real_keys"@[5] == 'k',
{
    reveal_strlit("drum");
    reveal_strlit("guitar");
    reveal_strlit("bass");
    reveal_strlit("vocals");
    reveal_strlit("keys");
    reveal_strlit("band");
    reveal_strlit("real_guitar");
    reveal_strlit("real_bass");
    reveal_strlit("real_keys");
}

proof fn lemma_rank_set(m: MetaSpec, k: Seq<char>, v: Option<i32>, h: int)
    requires
        0 <= h < 9,
    ensures
        rank_field(rank_set(m, k, v), h) == (if k == rank_key(h) {
            v
        } else {
            rank_field(m, h)
        }),
        rank_for(m, rank_key(h)) == rank_field(m, h),
{
    lemma_rank_literals();
}

/// A rank read from a `rank` list comes from the last pair for its instrument.
proof fn lemma_ranks_read_rank(m: MetaSpec, ns: Seq<Dta>, h: int)
    requires
        0 <= h < 9,
    ensures
        rank_field(ranks_read(m, ns), h) == match last_keyed(ns, rank_key(h)) {
            Some(pair) => first_int(pair),
            None => rank_field(m, h),
        },
    decreases ns.len(),
{
    if ns.len() > 0 {
        lemma_ranks_read_rank(m, ns.drop_last(), h);
        let mm = ranks_read(m, ns.drop_last());
        let n = ns.last();
        if n is List {
            if let Some(k) = key_of(n->List_0) {
                lemma_rank_set(mm, k, first_int(n->List_0), h);
            }
        }
    }
}

proof fn lemma_field_set_rank(m: MetaSpec, k: Seq<char>, sub: Seq<Dta>, h: int)
    requires
        0 <= h < 9,
    ensures
        rank_field(field_set(m, k, sub), h) == (if k == "rank"@ {
            rank_field(ranks_read(m, sub), h)
        } else {
            rank_field(m, h)
        }),
{
    lemma_dta_literals();
}

/// A rank read from the song entry comes from its last `rank` list, when that
/// list has a pair for the instrument.
proof fn lemma_entry_read_rank(m: MetaSpec, ns: Seq<Dta>, h: int)
    requires
        0 <= h < 9,
    ensures
        match last_keyed(ns, "rank"@) {
            Some(rs) => match last_keyed(rs, rank_key(h)) {
                Some(pair) => rank_field(entry_read(m, ns), h) == first_int(pair),
                None => true,
            },
            None => true,
        },
    decreases ns.len(),
{
    if ns.len() > 0 {
        lemma_entry_read_rank(m, ns.drop_last(), h);
        let mm = entry_read(m, ns.drop_last());
        let n = ns.last();
        if n is List {
            if let Some(k) = key_of(n->List_0) {
                lemma_field_set_rank(mm, k, n->List_0, h);
                lemma_ranks_read_rank(mm, n->List_0, h);
            }
        }
    }
}

/// The last pair for an instrument after the ranks are set is the last one
/// before, with the rank set.
proof fn lemma_last_pair_applied(rs: Seq<Dta>, k: Seq<char>, m: MetaSpec)
    ensures
        last_keyed(rs.map_values(|n: Dta| rank_pair_applied(n, m)), k) == match last_keyed(rs, k) {
            Some(pair) => Some(with_opt_int(pair, rank_for(m, k))),
            None => None,
        },
    decreases rs.len(),
{
    let u = rs.map_values(|n: Dta| rank_pair_applied(n, m));
    if rs.len() > 0 {
        let init = rs.drop_last();
        lemma_last_pair_applied(init, k, m);
        assert(u.drop_last() =~= init.map_values(|n: Dta| rank_pair_applied(n, m)));
        assert(u.last() == rank_pair_applied(rs.last(), m));
        let n = rs.last();
        if n is List {
            if let Some(kk) = key_of(n->List_0) {
                lemma_with_opt_int(n->List_0, rank_for(m, kk));
            }
        }
    }
}

// ---------------------------------------------------------------- the song entry

proof fn lemma_first_list_at(ns: Seq<Dta>, i: int)
    requires
        0 <= i <= ns.len(),
        forall|q: int| 0 <= q < i ==> !(#[trigger] ns[q] is List),
    ensures
        first_list(ns) == first_list(ns.skip(i)),
        first_list_index(ns, 0) == first_list_index(ns, i),
    decreases i,
{
    if i > 0 {
        let t = ns.drop_first();
        assert forall|q: int| 0 <= q < i - 1 implies !(#[trigger] t[q] is List) by {
            assert(t[q] == ns[q + 1]);
        }
        lemma_first_list_at(t, i - 1);
        assert(t.skip(i - 1) =~= ns.skip(i));
        lemma_first_list_index_shift(ns, i);
    } else {
        assert(ns.skip(0) =~= ns);
    }
}

proof fn lemma_first_list_index_shift(ns: Seq<Dta>, i: int)
    requires
        0 <= i <= ns.len(),
        forall|q: int| 0 <= q < i ==> !(#[trigger] ns[q] is List),
    ensures
        first_list_index(ns, 0) == first_list_index(ns, i),
    decreases i,
{
    if i > 0 {
        lemma_first_list_index_shift(ns, i - 1);
    }
}

proof fn lemma_first_list_found(ns: Seq<Dta>, i: int)
    requires
        0 <= i,
    ensures
        first_list_index(ns, i) >= i || first_list_index(ns, i) == ns.len(),
        first_list_index(ns, i) <= ns.len(),
        first_list_index(ns, i) < ns.len() ==> ns[first_list_index(ns, i)] is List,
        forall|q: int| i <= q < first_list_index(ns, i) && q < ns.len() ==> !(#[trigger] ns[q] is List),
    decreases ns.len() - i,
{
    if 0 <= i < ns.len() && !(ns[i] is List) {
        lemma_first_list_found(ns, i + 1);
    }
}

/// The song entry after applying metadata: the same entry with each of its
/// `(key ...)` lists set.
proof fn lemma_entry_applied(ns: Seq<Dta>, m: MetaSpec)
    ensures
        first_list(metadata_applied(ns, m)) == match first_list(ns) {
            Some(items) => Some(items.map_values(|n: Dta| item_applied(n, m))),
            None => None,
        },
{
    lemma_first_list_found(ns, 0);
    let i = first_list_index(ns, 0);
    lemma_first_list_at(ns, i);
    if i < ns.len() {
        let u = metadata_applied(ns, m);
        assert(u == ns.update(i, Dta::List(ns[i]->List_0.map_values(|n: Dta| item_applied(n, m)))));
        assert forall|q: int| 0 <= q < i implies !(#[trigger] u[q] is List) by {
            assert(u[q] == ns[q]);
        }
        lemma_first_list_at(u, i);
        assert(u.skip(i)[0] == u[i]);
        assert(ns.skip(i)[0] == ns[i]);
    } else {
        assert(ns.skip(i) =~= Seq::<Dta>::empty());
    }
}

proof fn lemma_first_symbol_applied(items: Seq<Dta>, m: MetaSpec)
    ensures
        first_symbol(items.map_values(|n: Dta| item_applied(n, m))) == first_symbol(items),
    decreases items.len(),
{
    if items.len() > 0 {
        let u = items.map_values(|n: Dta| item_applied(n, m));
        lemma_first_symbol_applied(items.drop_first(), m);
        assert(u.drop_first() =~= items.drop_first().map_values(|n: Dta| item_applied(n, m)));
        assert(u[0] == item_applied(items[0], m));
    }
}

// ---------------------------------------------------------------- the law

/// Whether text field `f` is written to a song entry: its last `(key ...)`
/// list has a place for the value (a string or symbol after the key for the
/// name, artist and album; a symbol first after the key for the others).
pub open spec fn text_written(items: Seq<Dta>, f: int) -> bool {
    match last_keyed(items, text_key(f)) {
        Some(l) => if f < 3 {
            string_slot(l)
        } else {
            symbol_slot(l)
        },
        None => false,
    }
}

/// Whether integer field `g` of `m` is written to a song entry: it is set and
/// its last `(key ...)` list has an integer after the key.
pub open spec fn int_written(items: Seq<Dta>, g: int, m: MetaSpec) -> bool {
    int_field(m, g) is Some && match last_keyed(items, int_key(g)) {
        Some(l) => int_slot(l),
        None => false,
    }
}

/// Whether the preview times of `m` are written to a song entry: both are
/// set and its last `preview` list holds two integers.
pub open spec fn preview_written(items: Seq<Dta>, m: MetaSpec) -> bool {
    m.preview_start is Some && m.preview_end is Some && match last_keyed(items, "preview"@) {
        Some(l) => all_ints(l).len() >= 2,
        None => false,
    }
}

/// Whether rank `h` of `m` is written to a song entry: it is set and the
/// last pair for its instrument in the last `rank` list has an integer.
pub open spec fn rank_written(items: Seq<Dta>, h: int, m: MetaSpec) -> bool {
    rank_field(m, h) is Some && match last_keyed(items, "rank"@) {
        Some(rs) => match last_keyed(rs, rank_key(h)) {
            Some(pair) => int_slot(pair),
            None => false,
        },
        None => false,
    }
}

proof fn lemma_text_back(items: Seq<Dta>, m1: MetaSpec, m: MetaSpec, f: int)
    requires
        0 <= f < 7,
        text_written(items, f),
    ensures
        text_field(entry_read(m1, items.map_values(|n: Dta| item_applied(n, m))), f) == text_field(m, f),
{
    let k = text_key(f);
    let l = last_keyed(items, k)->Some_0;
    lemma_entry_read_text(m1, items.map_values(|n: Dta| item_applied(n, m)), f);
    lemma_last_keyed_applied(items, k, m);
    lemma_last_keyed_is_keyed(items, k);
    lemma_dta_literals();
    lemma_with_string(l, text_field(m, f));
    lemma_with_symbol(l, text_field(m, f));
}

proof fn lemma_int_back(items: Seq<Dta>, m1: MetaSpec, m: MetaSpec, g: int)
    requires
        0 <= g < 5,
        int_written(items, g, m),
    ensures
        int_field(entry_read(m1, items.map_values(|n: Dta| item_applied(n, m))), g) == int_field(m, g),
{
    let k = int_key(g);
    let l = last_keyed(items, k)->Some_0;
    lemma_entry_read_int(m1, items.map_values(|n: Dta| item_applied(n, m)), g);
    lemma_last_keyed_applied(items, k, m);
    lemma_last_keyed_is_keyed(items, k);
    lemma_dta_literals();
    lemma_with_opt_int(l, int_field(m, g));
}

proof fn lemma_preview_back(items: Seq<Dta>, m1: MetaSpec, m: MetaSpec)
    requires
        preview_written(items, m),
    ensures
        entry_read(m1, items.map_values(|n: Dta| item_applied(n, m))).preview_start == m.preview_start,
        entry_read(m1, items.map_values(|n: Dta| item_applied(n, m))).preview_end == m.preview_end,
{
    let l = last_keyed(items, "preview"@)->Some_0;
    lemma_entry_read_preview(m1, items.map_values(|n: Dta| item_applied(n, m)));
    lemma_last_keyed_applied(items, "preview"@, m);
    lemma_last_keyed_is_keyed(items, "preview"@);
    lemma_dta_literals();
    lemma_with_preview(l, m.preview_start->Some_0, m.preview_end->Some_0);
}

proof fn lemma_rank_back(items: Seq<Dta>, m1: MetaSpec, m: MetaSpec, h: int)
    requires
        0 <= h < 9,
        rank_written(items, h, m),
    ensures
        rank_field(entry_read(m1, items.map_values(|n: Dta| item_applied(n, m))), h) == rank_field(m, h),
{
    let rs = last_keyed(items, "rank"@)->Some_0;
    let pair = last_keyed(rs, rank_key(h))->Some_0;
    lemma_entry_read_rank(m1, items.map_values(|n: Dta| item_applied(n, m)), h);
    lemma_last_keyed_applied(items, "rank"@, m);
    lemma_dta_literals();
    assert(field_applied(rs, "rank"@, m) == rs.map_values(|n: Dta| rank_pair_applied(n, m)));
    lemma_last_pair_applied(rs, rank_key(h), m);
    lemma_last_keyed_is_keyed(rs, rank_key(h));
    lemma_rank_set(m, rank_key(h), None, h);
    lemma_with_opt_int(pair, rank_field(m, h));
}

proof fn lemma_last_keyed_is_keyed(ns: Seq<Dta>, k: Seq<char>)
    ensures
        last_keyed(ns, k) matches Some(l) ==> key_of(l) == Some(k),
    decreases ns.len(),
{
    if ns.len() > 0 {
        lemma_last_keyed_is_keyed(ns.drop_last(), k);
    }
}

/// Reading a DTA tree after `apply_metadata` has written `m` to it gives what
/// was written: each text field, each integer field that is set, the preview
/// times when both are set, and each rank that is set, where the song entry
/// has a place for the value (see `text_written` and the like). The
/// shortname and the author, which are not written, read as before.
pub proof fn lemma_dta_read_back(ns: Seq<Dta>, raw: Seq<char>, m: MetaSpec)
    ensures
        dta_meta(metadata_applied(ns, m), raw).shortname == dta_meta(ns, raw).shortname,
        dta_meta(metadata_applied(ns, m), raw).author == dta_meta(ns, raw).author,
        first_list(ns) matches Some(items) ==> {
            let r = dta_meta(metadata_applied(ns, m), raw);
            &&& forall|f: int| 0 <= f < 7 && text_written(items, f) ==> #[trigger] text_field(r, f) == text_field(m, f)
            &&& forall|g: int| 0 <= g < 5 && int_written(items, g, m) ==> #[trigger] int_field(r, g) == int_field(m, g)
            &&& preview_written(items, m) ==> r.preview_start == m.preview_start && r.preview_end == m.preview_end
            &&& forall|h: int| 0 <= h < 9 && rank_written(items, h, m) ==> #[trigger] rank_field(r, h) == rank_field(m, h)
        },
{
    lemma_entry_applied(ns, m);
    if let Some(items) = first_list(ns) {
        let u = items.map_values(|n: Dta| item_applied(n, m));
        lemma_first_symbol_applied(items, m);
        let r = dta_meta(metadata_applied(ns, m), raw);
        let m0 = MetaSpec { author: author_of(Seq::empty(), lines(raw)), ..empty_meta() };
        let m1 = match first_symbol(items) {
            Some(x) => MetaSpec { shortname: x, ..m0 },
            None => m0,
        };
        assert(r == entry_read(m1, u));
        assert forall|f: int| 0 <= f < 7 && text_written(items, f) implies #[trigger] text_field(r, f) == text_field(m, f) by {
            lemma_text_back(items, m1, m, f);
        }
        assert forall|g: int| 0 <= g < 5 && int_written(items, g, m) implies #[trigger] int_field(r, g) == int_field(m, g) by {
            lemma_int_back(items, m1, m, g);
        }
        if preview_written(items, m) {
            lemma_preview_back(items, m1, m);
        }
        assert forall|h: int| 0 <= h < 9 && rank_written(items, h, m) implies #[trigger] rank_field(r, h) == rank_field(m, h) by {
            lemma_rank_back(items, m1, m, h);
        }
        lemma_entry_keeps(m1, u);
        lemma_entry_keeps(m1, items);
    }
}

/// Reading the song entry sets neither the shortname nor the author.
proof fn lemma_entry_keeps(m: MetaSpec, ns: Seq<Dta>)
    ensures
        entry_read(m, ns).shortname == m.shortname,
        entry_read(m, ns).author == m.author,
    decreases ns.len(),
{
    if ns.len() > 0 {
        lemma_entry_keeps(m, ns.drop_last());
        let mm = entry_read(m, ns.drop_last());
        let n = ns.last();
        if n is List {
            if let Some(k) = key_of(n->List_0) {
                lemma_field_set_keeps(mm, k, n->List_0);
            }
        }
    }
}

proof fn lemma_field_set_keeps(m: MetaSpec, k: Seq<char>, sub: Seq<Dta>)
    ensures
        field_set(m, k, sub).shortname == m.shortname,
        field_set(m, k, sub).author == m.author,
{
    lemma_ranks_keep_names(m, sub);
}

proof fn lemma_ranks_keep_names(m: MetaSpec, ns: Seq<Dta>)
    ensures
        ranks_read(m, ns).shortname == m.shortname,
        ranks_read(m, ns).author == m.author,
    decreases ns.len(),
{
    if ns.len() > 0 {
        lemma_ranks_keep_names(m, ns.drop_last());
    }
}

// ---------------------------------------------------------------- under plain conditions

/// The last `(k ...)` list among `ns` is one of them, and there is a last
/// one where some list is keyed `k`.
proof fn lemma_last_keyed_among(ns: Seq<Dta>, k: Seq<char>)
    ensures
        last_keyed(ns, k) matches Some(l) ==> exists|i: int|
            0 <= i < ns.len() && keyed(#[trigger] ns[i], k) && ns[i]->List_0 == l,
        (exists|i: int| 0 <= i < ns.len() && keyed(#[trigger] ns[i], k)) ==> last_keyed(ns, k) is Some,
    decreases ns.len(),
{
    if ns.len() > 0 {
        let init = ns.drop_last();
        lemma_last_keyed_among(init, k);
        if keyed(ns.last(), k) {
            assert(keyed(ns[ns.len() - 1], k));
        } else {
            if last_keyed(init, k) is Some {
                let i = choose|i: int|
                    0 <= i < init.len() && keyed(#[trigger] init[i], k) && init[i]->List_0 == last_keyed(init, k)->Some_0;
                assert(ns[i] == init[i]);
            }
            if exists|i: int| 0 <= i < ns.len() && keyed(#[trigger] ns[i], k) {
                let i = choose|i: int| 0 <= i < ns.len() && keyed(#[trigger] ns[i], k);
                assert(ns[ns.len() - 1] == ns.last());
                assert(init[i] == ns[i]);
            }
        }
    }
}

/// Whether `items` has a `(k ...)` list and every such list holds a node of
/// kind `want` (0 string, 2 integer) after its key.
pub open spec fn every_keyed_holds(items: Seq<Dta>, k: Seq<char>, want: int) -> bool {
    &&& exists|i: int| 0 <= i < items.len() && keyed(#[trigger] items[i], k)
    &&& forall|i: int|
        0 <= i < items.len() && keyed(#[trigger] items[i], k) ==> after_key_index(items[i]->List_0, 0, false, want)
            < items[i]->List_0.len()
}

/// Reading a DTA tree after `apply_metadata` has written `m` with a year
/// gives the name, artist, album and year written, where the song entry has
/// `(name ...)`, `(artist ...)` and `(album_name ...)` lists, each holding a
/// string after its key, and `(year_released ...)` lists, each holding an
/// integer after its key.
pub proof fn lemma_dta_names_read_back(ns: Seq<Dta>, raw: Seq<char>, m: MetaSpec)
    requires
        first_list(ns) matches Some(items) && every_keyed_holds(items, "name"@, 0) && every_keyed_holds(
            items,
            "artist"@,
            0,
        ) && every_keyed_holds(items, "album_name"@, 0) && every_keyed_holds(items, "year_released"@, 2),
        m.year_released is Some,
    ensures
        dta_meta(metadata_applied(ns, m), raw).name == m.name,
        dta_meta(metadata_applied(ns, m), raw).artist == m.artist,
        dta_meta(metadata_applied(ns, m), raw).album_name == m.album_name,
        dta_meta(metadata_applied(ns, m), raw).year_released == m.year_released,
{
    let items = first_list(ns)->Some_0;
    let r = dta_meta(metadata_applied(ns, m), raw);
    lemma_dta_read_back(ns, raw, m);
    assert forall|f: int| 0 <= f < 3 implies text_written(items, f) by {
        let k = text_key(f);
        lemma_last_keyed_among(items, k);
        let l = last_keyed(items, k)->Some_0;
        let i = choose|i: int| 0 <= i < items.len() && keyed(#[trigger] items[i], k) && items[i]->List_0 == l;
    }
    assert(text_field(r, 0) == text_field(m, 0));
    assert(text_field(r, 1) == text_field(m, 1));
    assert(text_field(r, 2) == text_field(m, 2));
    lemma_last_keyed_among(items, "year_released"@);
    let l = last_keyed(items, "year_released"@)->Some_0;
    let i = choose|i: int| 0 <= i < items.len() && keyed(#[trigger] items[i], "year_released"@) && items[i]->List_0 == l;
    assert(int_written(items, 1, m));
    assert(int_field(r, 1) == int_field(m, 1));
}

// ---------------------------------------------------------------- applying twice

/// Whether two nodes are of the same kind as far as finding a value goes:
/// both strings, both symbols, both integers, or none of these.
pub open spec fn same_kind(x: Dta, y: Dta) -> bool {
    &&& (x is Str <==> y is Str)
    &&& (x is Symbol <==> y is Symbol)
    &&& (x is Int <==> y is Int)
}

pub open spec fn same_kinds(a: Seq<Dta>, b: Seq<Dta>) -> bool {
    a.len() == b.len() && forall|q: int| 0 <= q < a.len() ==> same_kind(#[trigger] a[q], b[q])
}

proof fn lemma_same_kinds_trans(a: Seq<Dta>, b: Seq<Dta>, c: Seq<Dta>)
    requires
        same_kinds(a, b),
        same_kinds(b, c),
    ensures
        same_kinds(a, c),
{
    assert forall|q: int| 0 <= q < a.len() implies same_kind(#[trigger] a[q], c[q]) by {
        assert(same_kind(a[q], b[q]));
        assert(same_kind(b[q], c[q]));
    }
}

proof fn lemma_after_key_same(a: Seq<Dta>, b: Seq<Dta>, i: int, found: bool, want: int)
    requires
        same_kinds(a, b),
    ensures
        after_key_index(a, i, found, want) == after_key_index(b, i, found, want),
    decreases a.len() - i,
{
    if 0 <= i < a.len() {
        assert(same_kind(a[i], b[i]));
        lemma_after_key_same(a, b, i + 1, true, want);
        lemma_after_key_same(a, b, i + 1, found, want);
    }
}

proof fn lemma_after_key_wanted(ns: Seq<Dta>, i: int, found: bool, want: int)
    ensures
        after_key_index(ns, i, found, want) < ns.len() ==> wanted(ns[after_key_index(ns, i, found, want)], want)
            && after_key_index(ns, i, found, want) >= 0,
    decreases ns.len() - i,
{
    if 0 <= i < ns.len() {
        lemma_after_key_wanted(ns, i + 1, true, want);
        lemma_after_key_wanted(ns, i + 1, found, want);
    }
}

proof fn lemma_nth_int_same(a: Seq<Dta>, b: Seq<Dta>, i: int, n: int)
    requires
        same_kinds(a, b),
    ensures
        nth_int_index(a, i, n) == nth_int_index(b, i, n),
    decreases a.len() - i,
{
    if 0 <= i < a.len() {
        assert(same_kind(a[i], b[i]));
        lemma_nth_int_same(a, b, i + 1, n - 1);
        lemma_nth_int_same(a, b, i + 1, n);
    }
}

proof fn lemma_nth_int_is_int(ns: Seq<Dta>, i: int, n: int)
    ensures
        nth_int_index(ns, i, n) < ns.len() ==> nth_int_index(ns, i, n) >= 0 && ns[nth_int_index(ns, i, n)] is Int,
    decreases ns.len() - i,
{
    if 0 <= i < ns.len() {
        lemma_nth_int_is_int(ns, i + 1, n - 1);
        lemma_nth_int_is_int(ns, i + 1, n);
    }
}

proof fn lemma_replace_same(a: Seq<Dta>, j: int, x: Dta)
    requires
        0 <= j < a.len() ==> same_kind(a[j], x),
    ensures
        same_kinds(a, replace_at(a, j, x)),
{
    let r = replace_at(a, j, x);
    assert forall|q: int| 0 <= q < a.len() implies same_kind(#[trigger] a[q], r[q]) by {}
}

proof fn lemma_with_symbol_twice(sub: Seq<Dta>, v: Seq<char>)
    ensures
        with_symbol(with_symbol(sub, v), v) == with_symbol(sub, v),
{
    let j = after_key_index(sub, 0, false, 1);
    lemma_after_key_wanted(sub, 0, false, 1);
    let s1 = with_symbol(sub, v);
    lemma_replace_same(sub, j, Dta::Symbol(v));
    lemma_after_key_same(sub, s1, 0, false, 1);
    assert(replace_at(s1, j, Dta::Symbol(v)) =~= s1);
}

proof fn lemma_with_opt_int_twice(sub: Seq<Dta>, v: Option<i32>)
    ensures
        with_opt_int(with_opt_int(sub, v), v) == with_opt_int(sub, v),
{
    if let Some(x) = v {
        let j = after_key_index(sub, 0, false, 2);
        lemma_after_key_wanted(sub, 0, false, 2);
        let s1 = with_int(sub, x);
        lemma_replace_same(sub, j, Dta::Int(x));
        lemma_after_key_same(sub, s1, 0, false, 2);
        assert(replace_at(s1, j, Dta::Int(x)) =~= s1);
    }
}

proof fn lemma_with_string_twice(sub: Seq<Dta>, v: Seq<char>)
    requires
        key_of(sub) is Some,
    ensures
        with_string(with_string(sub, v), v) == with_string(sub, v),
{
    let j0 = after_key_index(sub, 0, false, 0);
    lemma_after_key_wanted(sub, 0, false, 0);
    if j0 < sub.len() {
        let s1 = sub.update(j0, Dta::Str(v));
        lemma_replace_same(sub, j0, Dta::Str(v));
        lemma_after_key_same(sub, s1, 0, false, 0);
        assert(s1.update(j0, Dta::Str(v)) =~= s1);
    } else {
        let j1 = after_key_index(sub, 0, false, 1);
        lemma_after_key_wanted(sub, 0, false, 1);
        if j1 < sub.len() {
            let s1 = sub.update(j1, Dta::Str(v));
            assert(with_string(sub, v) == s1);
            let p = lemma_after_key(sub, 0);
            let p2 = lemma_after_key(sub, 1);
            if p2 < p {
                assert(is_trivia(sub[p2]));
            }
            if p < p2 {
                assert(is_trivia(sub[p]));
            }
            lemma_with_string(sub, v);
            let p1 = lemma_after_key(s1, 0);
            if p1 < p {
                assert(s1[p1] == sub[p1]);
                assert(is_trivia(sub[p1]));
            }
            if p < p1 {
                assert(s1[p] == sub[p]);
                assert(is_trivia(s1[p]));
            }
            let k = after_key_index(s1, 0, false, 0);
            if k < j1 {
                assert(s1[k] == sub[k]);
                assert(wanted(s1[k], 0));
                assert(!wanted(sub[k], 0));
            }
            if k > j1 {
                assert(wanted(s1[j1], 0));
            }
            assert(k == j1);
            assert(s1.update(j1, Dta::Str(v)) =~= s1);
        }
    }
}

proof fn lemma_preview_twice(sub: Seq<Dta>, a: i32, b: i32)
    ensures
        with_nth_int(with_nth_int(with_nth_int(with_nth_int(sub, 0, a), 1, b), 0, a), 1, b) == with_nth_int(
            with_nth_int(sub, 0, a),
            1,
            b,
        ),
{
    let i0 = nth_int_index(sub, 0, 0);
    lemma_nth_int_is_int(sub, 0, 0);
    let s1 = with_nth_int(sub, 0, a);
    lemma_replace_same(sub, i0, Dta::Int(a));
    let i1 = nth_int_index(s1, 0, 1);
    lemma_nth_int_is_int(s1, 0, 1);
    let s2 = with_nth_int(s1, 1, b);
    lemma_replace_same(s1, i1, Dta::Int(b));
    lemma_same_kinds_trans(sub, s1, s2);
    assert(same_kinds(s2, sub)) by {
        assert forall|q: int| 0 <= q < s2.len() implies same_kind(#[trigger] s2[q], sub[q]) by {
            assert(same_kind(sub[q], s2[q]));
        }
    }
    lemma_nth_int_same(s2, sub, 0, 0);
    let t1 = with_nth_int(s2, 0, a);
    assert(t1 == replace_at(s2, i0, Dta::Int(a)));
    lemma_nth_int_is_int(s2, 0, 0);
    lemma_replace_same(s2, i0, Dta::Int(a));
    lemma_same_kinds_trans(s1, s2, t1);
    assert(same_kinds(t1, s1)) by {
        assert forall|q: int| 0 <= q < t1.len() implies same_kind(#[trigger] t1[q], s1[q]) by {
            assert(same_kind(s1[q], t1[q]));
        }
    }
    lemma_nth_int_same(t1, s1, 0, 1);
    let t2 = with_nth_int(t1, 1, b);
    assert(t2 == replace_at(t1, i1, Dta::Int(b)));
    assert(t2 =~= s2);
}

proof fn lemma_rank_pair_twice(n: Dta, m: MetaSpec)
    ensures
        rank_pair_applied(rank_pair_applied(n, m), m) == rank_pair_applied(n, m),
{
    if n is List {
        if let Some(k) = key_of(n->List_0) {
            lemma_with_opt_int(n->List_0, rank_for(m, k));
            lemma_with_opt_int_twice(n->List_0, rank_for(m, k));
        }
    }
}

proof fn lemma_field_applied_twice(sub: Seq<Dta>, k: Seq<char>, m: MetaSpec)
    requires
        key_of(sub) is Some,
    ensures
        field_applied(field_applied(sub, k, m), k, m) == field_applied(sub, k, m),
{
    lemma_with_string_twice(sub, m.name);
    lemma_with_string_twice(sub, m.artist);
    lemma_with_string_twice(sub, m.album_name);
    lemma_with_opt_int_twice(sub, m.album_track_number);
    lemma_with_symbol_twice(sub, m.genre);
    lemma_with_symbol_twice(sub, m.sub_genre);
    lemma_with_symbol_twice(sub, m.vocal_gender);
    lemma_with_opt_int_twice(sub, m.year_released);
    lemma_with_opt_int_twice(sub, m.song_length);
    lemma_with_opt_int_twice(sub, m.rating);
    lemma_with_opt_int_twice(sub, m.song_id);
    lemma_with_symbol_twice(sub, m.game_origin);
    if let (Some(a), Some(b)) = (m.preview_start, m.preview_end) {
        lemma_preview_twice(sub, a, b);
    }
    let u = sub.map_values(|n: Dta| rank_pair_applied(n, m));
    let uu = u.map_values(|n: Dta| rank_pair_applied(n, m));
    assert forall|q: int| 0 <= q < u.len() implies #[trigger] uu[q] == u[q] by {
        lemma_rank_pair_twice(sub[q], m);
    }
    assert(uu =~= u);
}

proof fn lemma_item_applied_twice(n: Dta, m: MetaSpec)
    ensures
        item_applied(item_applied(n, m), m) == item_applied(n, m),
{
    if n is List {
        if let Some(k) = key_of(n->List_0) {
            lemma_field_applied_key(n->List_0, k, m);
            lemma_field_applied_twice(n->List_0, k, m);
        }
    }
}

/// Applying the same metadata twice gives what applying it once gives.
/// Applying it changes only the song entry (the first top-level list),
/// keeps the number of top-level nodes, and keeps the shortname read.
pub proof fn lemma_apply_metadata_twice(ns: Seq<Dta>, m: MetaSpec, raw: Seq<char>)
    ensures
        metadata_applied(metadata_applied(ns, m), m) == metadata_applied(ns, m),
        metadata_applied(ns, m).len() == ns.len(),
        forall|q: int|
            0 <= q < ns.len() && q != first_list_index(ns, 0) ==> #[trigger] metadata_applied(ns, m)[q] == ns[q],
        dta_meta(metadata_applied(ns, m), raw).shortname == dta_meta(ns, raw).shortname,
{
    lemma_dta_read_back(ns, raw, m);
    lemma_first_list_found(ns, 0);
    let i = first_list_index(ns, 0);
    let u = metadata_applied(ns, m);
    if i < ns.len() {
        let items = ns[i]->List_0;
        let v = items.map_values(|n: Dta| item_applied(n, m));
        assert(u == ns.update(i, Dta::List(v)));
        assert forall|q: int| 0 <= q < i implies !(#[trigger] u[q] is List) by {
            assert(u[q] == ns[q]);
        }
        lemma_first_list_found(u, 0);
        lemma_first_list_at(u, i);
        lemma_first_list_found(u, i);
        assert(first_list_index(u, i) == i);
        let vv = v.map_values(|n: Dta| item_applied(n, m));
        assert forall|q: int| 0 <= q < v.len() implies #[trigger] vv[q] == v[q] by {
            lemma_item_applied_twice(items[q], m);
        }
        assert(vv =~= v);
        assert(u.update(i, Dta::List(vv)) =~= u);
    }
}

} // verus!
