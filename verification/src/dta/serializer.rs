//! Writer for DTA: prints a parse tree back to text and applies edited metadata.
use vstd::prelude::*;
use crate::dta::parser::{is_list_node, get_key, str_is, key_of, lemma_nodes_view_index, lemma_nodes_view_len, lemma_nodes_view_push, node_view, nodes_view, Dta, DtaNode};
use crate::dta::types::{MetaSpec, SongMetadata};
use crate::text::{chars_of, extend_chars, i64_to_dec, int_to_dec, string_from_chars};

verus! {

/// The text of a node.
pub open spec fn print_node(n: Dta) -> Seq<char>
    decreases n,
{
    match n {
        Dta::Symbol(s) => s,
        Dta::Str(s) => seq!['"'] + s + seq!['"'],
        Dta::Int(i) => int_to_dec(i as int),
        Dta::Float(t) => t,
        Dta::List(items) => seq!['('] + print_nodes(items) + seq![')'],
        Dta::Comment(s) => s,
        Dta::Whitespace(s) => s,
    }
}

/// The text of a run of nodes.
pub open spec fn print_nodes(ns: Seq<Dta>) -> Seq<char>
    decreases ns,
{
    if ns.len() == 0 {
        Seq::empty()
    } else {
        print_nodes(ns.drop_last()) + print_node(ns.last())
    }
}

fn serialize_node(node: &DtaNode, out: &mut Vec<char>)
    ensures
        final(out)@ == old(out)@ + print_node(node_view(*node)),
    decreases node,
{
    match node {
        DtaNode::Symbol(s) => {
            let c = chars_of(s.as_str());
            extend_chars(out, c.as_slice());
        },
        DtaNode::String(s) => {
            let ghost start = out@;
            out.push('"');
            let c = chars_of(s.as_str());
            extend_chars(out, c.as_slice());
            out.push('"');
            assert(out@ =~= start + (seq!['"'] + s@ + seq!['"']));
        },
        DtaNode::Int(i) => {
            let c = i64_to_dec(*i as i64);
            extend_chars(out, c.as_slice());
        },
        DtaNode::Float(t) => {
            let c = chars_of(t.as_str());
            extend_chars(out, c.as_slice());
        },
        DtaNode::List(items) => {
            let ghost start = out@;
            out.push('(');
            let mut i: usize = 0;
            proof {
                lemma_nodes_view_len(items@);
                assert(nodes_view(items@).take(0) =~= Seq::<Dta>::empty());
            }
            while i < items.len()
                invariant
                    i <= items@.len(),
                    *node == DtaNode::List(*items),
                    out@ == start + seq!['('] + print_nodes(nodes_view(items@).take(i as int)),
                decreases items@.len() - i,
            {
                proof {
                    lemma_nodes_view_index(items@, i as int);
                    let nv = nodes_view(items@);
                    assert(nv.take(i + 1).drop_last() =~= nv.take(i as int));
                    assert(nv.take(i + 1).last() == node_view(items@[i as int]));
                }
                proof {
                    assert(decreases_to!(items@ => items@[i as int]));
                    assert(decreases_to!(*items => items@));
                    assert(*node == DtaNode::List(*items));
                    assert(decreases_to!(*node => (*node)->List_0));
                }
                serialize_node(&items[i], out);
                i = i + 1;
            }
            proof {
                lemma_nodes_view_len(items@);
                assert(nodes_view(items@).take(items@.len() as int) =~= nodes_view(items@));
            }
            out.push(')');
            assert(out@ =~= start + (seq!['('] + print_nodes(nodes_view(items@)) + seq![')']));
        },
        DtaNode::Comment(s) => {
            let c = chars_of(s.as_str());
            extend_chars(out, c.as_slice());
        },
        DtaNode::Whitespace(s) => {
            let c = chars_of(s.as_str());
            extend_chars(out, c.as_slice());
        },
    }
}

/// Prints a DTA parse tree back to text. White space and comments come out
/// as they were read; strings are re-quoted, integers printed in decimal.
/// Printing what `parse_dta` reads gives the text back where its strings
/// are closed, nothing is quoted with `'`, its integers are written as they
/// are printed and no `)` stands at the top level: see
/// `lemma_dta_prints_back`.
pub fn serialize_dta(nodes: &Vec<DtaNode>) -> (r: String)
    ensures
        r@ == print_nodes(nodes_view(nodes@)),
{
    let mut out: Vec<char> = Vec::new();
    let mut i: usize = 0;
    proof {
        lemma_nodes_view_len(nodes@);
        assert(nodes_view(nodes@).take(0) =~= Seq::<Dta>::empty());
    }
    while i < nodes.len()
        invariant
            i <= nodes@.len(),
            out@ == print_nodes(nodes_view(nodes@).take(i as int)),
        decreases nodes@.len() - i,
    {
        proof {
            lemma_nodes_view_index(nodes@, i as int);
            let nv = nodes_view(nodes@);
            assert(nv.take(i + 1).drop_last() =~= nv.take(i as int));
            assert(nv.take(i + 1).last() == node_view(nodes@[i as int]));
        }
        serialize_node(&nodes[i], &mut out);
        i = i + 1;
    }
    proof {
        lemma_nodes_view_len(nodes@);
        assert(nodes_view(nodes@).take(nodes@.len() as int) =~= nodes_view(nodes@));
    }
    string_from_chars(out.as_slice())
}

// ---------------------------------------------------------------- applying metadata

/// Index of the first node of the wanted kind after the key symbol (the
/// first symbol), searching from `i`; `ns.len()` if there is none.
/// Whether a node is of the kind wanted: 0 string, 1 symbol, 2 integer.
pub open spec fn wanted(d: Dta, want: int) -> bool {
    (want == 0 && d is Str) || (want == 1 && d is Symbol) || (want == 2 && d is Int)
}

pub open spec fn after_key_index(ns: Seq<Dta>, i: int, found: bool, want: int) -> int
    decreases ns.len() - i,
{
    if i < 0 || i >= ns.len() {
        ns.len() as int
    } else if !found && ns[i] is Symbol {
        after_key_index(ns, i + 1, true, want)
    } else if found && wanted(ns[i], want) {
        i
    } else {
        after_key_index(ns, i + 1, found, want)
    }
}

/// Index of the `n`-th integer node at or after `i`; `ns.len()` if there is none.
pub open spec fn nth_int_index(ns: Seq<Dta>, i: int, n: int) -> int
    decreases ns.len() - i,
{
    if i < 0 || i >= ns.len() {
        ns.len() as int
    } else if ns[i] is Int {
        if n == 0 {
            i
        } else {
            nth_int_index(ns, i + 1, n - 1)
        }
    } else {
        nth_int_index(ns, i + 1, n)
    }
}

pub open spec fn replace_at(ns: Seq<Dta>, j: int, n: Dta) -> Seq<Dta> {
    if 0 <= j < ns.len() {
        ns.update(j, n)
    } else {
        ns
    }
}

/// The first string after the key set to `v`, or else the first symbol
/// after the key turned into the string `v`.
pub open spec fn with_string(ns: Seq<Dta>, v: Seq<char>) -> Seq<Dta> {
    let j = after_key_index(ns, 0, false, 0);
    if j < ns.len() {
        ns.update(j, Dta::Str(v))
    } else {
        replace_at(ns, after_key_index(ns, 0, false, 1), Dta::Str(v))
    }
}

/// The first symbol after the key set to `v`.
pub open spec fn with_symbol(ns: Seq<Dta>, v: Seq<char>) -> Seq<Dta> {
    replace_at(ns, after_key_index(ns, 0, false, 1), Dta::Symbol(v))
}

/// The first integer after the key set to `v`.
pub open spec fn with_int(ns: Seq<Dta>, v: i32) -> Seq<Dta> {
    replace_at(ns, after_key_index(ns, 0, false, 2), Dta::Int(v))
}

pub open spec fn with_opt_int(ns: Seq<Dta>, v: Option<i32>) -> Seq<Dta> {
    match v {
        Some(x) => with_int(ns, x),
        None => ns,
    }
}

/// The `n`-th integer set to `v`.
pub open spec fn with_nth_int(ns: Seq<Dta>, n: int, v: i32) -> Seq<Dta> {
    replace_at(ns, nth_int_index(ns, 0, n), Dta::Int(v))
}

/// The rank that `m` gives the instrument `k`.
pub open spec fn rank_for(m: MetaSpec, k: Seq<char>) -> Option<i32> {
    if k == "drum"@ {
        m.rank_drum
    } else if k == "guitar"@ {
        m.rank_guitar
    } else if k == "bass"@ {
        m.rank_bass
    } else if k == "vocals"@ {
        m.rank_vocals
    } else if k == "keys"@ {
        m.rank_keys
    } else if k == "band"@ {
        m.rank_band
    } else if k == "real_guitar"@ {
        m.rank_real_guitar
    } else if k == "real_bass"@ {
        m.rank_real_bass
    } else if k == "real_keys"@ {
        m.rank_real_keys
    } else {
        None
    }
}

pub open spec fn rank_pair_applied(n: Dta, m: MetaSpec) -> Dta {
    if n is List {
        match key_of(n->List_0) {
            Some(k) => Dta::List(with_opt_int(n->List_0, rank_for(m, k))),
            None => n,
        }
    } else {
        n
    }
}

/// A `(key ...)` list of the song entry with the field it names set from `m`.
pub open spec fn field_applied(sub: Seq<Dta>, k: Seq<char>, m: MetaSpec) -> Seq<Dta> {
    if k == "name"@ {
        with_string(sub, m.name)
    } else if k == "artist"@ {
        with_string(sub, m.artist)
    } else if k == "album_name"@ {
        with_string(sub, m.album_name)
    } else if k == "album_track_number"@ {
        with_opt_int(sub, m.album_track_number)
    } else if k == "genre"@ {
        with_symbol(sub, m.genre)
    } else if k == "sub_genre"@ {
        with_symbol(sub, m.sub_genre)
    } else if k == "vocal_gender"@ {
        with_symbol(sub, m.vocal_gender)
    } else if k == "year_released"@ {
        with_opt_int(sub, m.year_released)
    } else if k == "song_length"@ {
        with_opt_int(sub, m.song_length)
    } else if k == "rating"@ {
        with_opt_int(sub, m.rating)
    } else if k == "song_id"@ {
        with_opt_int(sub, m.song_id)
    } else if k == "game_origin"@ {
        with_symbol(sub, m.game_origin)
    } else if k == "preview"@ {
        match (m.preview_start, m.preview_end) {
            (Some(a), Some(b)) => with_nth_int(with_nth_int(sub, 0, a), 1, b),
            _ => sub,
        }
    } else if k == "rank"@ {
        sub.map_values(|n: Dta| rank_pair_applied(n, m))
    } else {
        sub
    }
}

pub open spec fn item_applied(n: Dta, m: MetaSpec) -> Dta {
    if n is List {
        match key_of(n->List_0) {
            Some(k) => Dta::List(field_applied(n->List_0, k, m)),
            None => n,
        }
    } else {
        n
    }
}

/// Index of the first list among `ns`, or `ns.len()`.
pub open spec fn first_list_index(ns: Seq<Dta>, i: int) -> int
    decreases ns.len() - i,
{
    if i < 0 || i >= ns.len() {
        ns.len() as int
    } else if ns[i] is List {
        i
    } else {
        first_list_index(ns, i + 1)
    }
}

/// The tree with the song entry (the first top-level list) updated from `m`.
pub open spec fn metadata_applied(ns: Seq<Dta>, m: MetaSpec) -> Seq<Dta> {
    let i = first_list_index(ns, 0);
    if i < ns.len() {
        ns.update(i, Dta::List(ns[i]->List_0.map_values(|n: Dta| item_applied(n, m))))
    } else {
        ns
    }
}

pub proof fn lemma_nodes_view_update(items: Seq<DtaNode>, j: int, n: DtaNode)
    requires
        0 <= j < items.len(),
    ensures
        nodes_view(items.update(j, n)) == nodes_view(items).update(j, node_view(n)),
{
    let u = items.update(j, n);
    lemma_nodes_view_len(items);
    lemma_nodes_view_len(u);
    assert forall|i: int| 0 <= i < items.len() implies nodes_view(u)[i] == nodes_view(items).update(
        j,
        node_view(n),
    )[i] by {
        lemma_nodes_view_index(u, i);
        lemma_nodes_view_index(items, i);
    }
    assert(nodes_view(u) =~= nodes_view(items).update(j, node_view(n)));
}

fn node_kind_is(n: &DtaNode, want: u8) -> (b: bool)
    ensures
        b == wanted(node_view(*n), want as int),
{
    match n {
        DtaNode::String(_) => want == 0,
        DtaNode::Symbol(_) => want == 1,
        DtaNode::Int(_) => want == 2,
        _ => false,
    }
}

fn find_after_key(sub: &Vec<DtaNode>, want: u8) -> (r: usize)
    ensures
        r == after_key_index(nodes_view(sub@), 0, false, want as int),
        r <= sub@.len(),
{
    let ghost nv = nodes_view(sub@);
    proof {
        lemma_nodes_view_len(sub@);
    }
    let mut found = false;
    let mut i: usize = 0;
    while i < sub.len()
        invariant
            i <= sub@.len(),
            nv == nodes_view(sub@),
            nv.len() == sub@.len(),
            after_key_index(nv, i as int, found, want as int) == after_key_index(nv, 0, false, want as int),
        decreases sub@.len() - i,
    {
        proof {
            lemma_nodes_view_index(sub@, i as int);
        }
        let is_sym = match &sub[i] {
            DtaNode::Symbol(_) => true,
            _ => false,
        };
        if !found && is_sym {
            found = true;
        } else if found && node_kind_is(&sub[i], want) {
            return i;
        }
        i = i + 1;
    }
    i
}

fn find_nth_int(sub: &Vec<DtaNode>, n: usize) -> (r: usize)
    ensures
        r == nth_int_index(nodes_view(sub@), 0, n as int),
        r <= sub@.len(),
{
    let ghost nv = nodes_view(sub@);
    proof {
        lemma_nodes_view_len(sub@);
    }
    let mut count: usize = 0;
    let mut i: usize = 0;
    while i < sub.len()
        invariant
            i <= sub@.len(),
            count <= n,
            count <= i,
            nv == nodes_view(sub@),
            nv.len() == sub@.len(),
            nth_int_index(nv, i as int, (n - count) as int) == nth_int_index(nv, 0, n as int),
        decreases sub@.len() - i,
    {
        proof {
            lemma_nodes_view_index(sub@, i as int);
        }
        if let DtaNode::Int(_) = &sub[i] {
            if count == n {
                return i;
            }
            count = count + 1;
        }
        i = i + 1;
    }
    i
}

fn set_at(sub: &mut Vec<DtaNode>, j: usize, n: DtaNode)
    requires
        j <= old(sub)@.len(),
    ensures
        nodes_view(final(sub)@) == replace_at(nodes_view(old(sub)@), j as int, node_view(n)),
{
    proof {
        lemma_nodes_view_len(sub@);
    }
    if j < sub.len() {
        proof {
            lemma_nodes_view_update(sub@, j as int, n);
        }
        sub.set(j, n);
    }
}

/// Sets the first string after the key, or else turns the first symbol after
/// the key into a string.
fn set_string_value(sub: &mut Vec<DtaNode>, value: &String)
    ensures
        nodes_view(final(sub)@) == with_string(nodes_view(old(sub)@), value@),
{
    proof {
        lemma_nodes_view_len(sub@);
    }
    let j = find_after_key(sub, 0);
    if j < sub.len() {
        set_at(sub, j, DtaNode::String(value.clone()));
    } else {
        let j2 = find_after_key(sub, 1);
        set_at(sub, j2, DtaNode::String(value.clone()));
    }
}

/// Sets the first symbol after the key.
fn set_symbol_value_after_key(sub: &mut Vec<DtaNode>, value: &String)
    ensures
        nodes_view(final(sub)@) == with_symbol(nodes_view(old(sub)@), value@),
{
    let j = find_after_key(sub, 1);
    set_at(sub, j, DtaNode::Symbol(value.clone()));
}

/// Sets the first integer after the key.
fn set_int_value(sub: &mut Vec<DtaNode>, value: i32)
    ensures
        nodes_view(final(sub)@) == with_int(nodes_view(old(sub)@), value),
{
    let j = find_after_key(sub, 2);
    set_at(sub, j, DtaNode::Int(value));
}

fn set_opt_int(sub: &mut Vec<DtaNode>, value: Option<i32>)
    ensures
        nodes_view(final(sub)@) == with_opt_int(nodes_view(old(sub)@), value),
{
    if let Some(v) = value {
        set_int_value(sub, v);
    }
}

/// Sets the `n`-th integer of the list.
fn set_nth_int(sub: &mut Vec<DtaNode>, n: usize, value: i32)
    ensures
        nodes_view(final(sub)@) == with_nth_int(nodes_view(old(sub)@), n as int, value),
{
    let j = find_nth_int(sub, n);
    set_at(sub, j, DtaNode::Int(value));
}

fn rank_value(m: &SongMetadata, k: &String) -> (r: Option<i32>)
    ensures
        r == rank_for(m@, k@),
{
    if str_is(k, "drum") {
        m.rank_drum
    } else if str_is(k, "guitar") {
        m.rank_guitar
    } else if str_is(k, "bass") {
        m.rank_bass
    } else if str_is(k, "vocals") {
        m.rank_vocals
    } else if str_is(k, "keys") {
        m.rank_keys
    } else if str_is(k, "band") {
        m.rank_band
    } else if str_is(k, "real_guitar") {
        m.rank_real_guitar
    } else if str_is(k, "real_bass") {
        m.rank_real_bass
    } else if str_is(k, "real_keys") {
        m.rank_real_keys
    } else {
        None
    }
}

fn apply_rank_pair(n: &mut DtaNode, m: &SongMetadata)
    ensures
        node_view(*final(n)) == rank_pair_applied(node_view(*old(n)), m@),
{
    match n {
        DtaNode::List(pair) => {
            match get_key(pair) {
                Some(ki) => {
                    let k = match &pair[ki] {
                        DtaNode::Symbol(s) => s.clone(),
                        _ => String::new(),
                    };
                    let v = rank_value(m, &k);
                    set_opt_int(pair, v);
                },
                None => {},
            }
        },
        _ => {},
    }
}

fn apply_field(sub: &mut Vec<DtaNode>, k: &String, m: &SongMetadata)
    ensures
        nodes_view(final(sub)@) == field_applied(nodes_view(old(sub)@), k@, m@),
{
    if str_is(k, "name") {
        set_string_value(sub, &m.name);
    } else if str_is(k, "artist") {
        set_string_value(sub, &m.artist);
    } else if str_is(k, "album_name") {
        set_string_value(sub, &m.album_name);
    } else if str_is(k, "album_track_number") {
        set_opt_int(sub, m.album_track_number);
    } else if str_is(k, "genre") {
        set_symbol_value_after_key(sub, &m.genre);
    } else if str_is(k, "sub_genre") {
        set_symbol_value_after_key(sub, &m.sub_genre);
    } else if str_is(k, "vocal_gender") {
        set_symbol_value_after_key(sub, &m.vocal_gender);
    } else if str_is(k, "year_released") {
        set_opt_int(sub, m.year_released);
    } else if str_is(k, "song_length") {
        set_opt_int(sub, m.song_length);
    } else if str_is(k, "rating") {
        set_opt_int(sub, m.rating);
    } else if str_is(k, "song_id") {
        set_opt_int(sub, m.song_id);
    } else if str_is(k, "game_origin") {
        set_symbol_value_after_key(sub, &m.game_origin);
    } else if str_is(k, "preview") {
        match (m.preview_start, m.preview_end) {
            (Some(a), Some(b)) => {
                set_nth_int(sub, 0, a);
                set_nth_int(sub, 1, b);
            },
            _ => {},
        }
    } else if str_is(k, "rank") {
        let ghost nv0 = nodes_view(sub@);
        proof {
            lemma_nodes_view_len(sub@);
        }
        let mut i: usize = 0;
        while i < sub.len()
            invariant
                i <= sub@.len(),
                nv0.len() == sub@.len(),
                nodes_view(sub@).len() == sub@.len(),
                forall|j: int| 0 <= j < i ==> #[trigger] nodes_view(sub@)[j] == rank_pair_applied(nv0[j], m@),
                forall|j: int| i <= j < sub@.len() ==> #[trigger] nodes_view(sub@)[j] == nv0[j],
            decreases sub@.len() - i,
        {
            let ghost before = sub@;
            proof {
                lemma_nodes_view_index(sub@, i as int);
            }
            apply_rank_pair(&mut sub[i], m);
            proof {
                lemma_nodes_view_update(before, i as int, sub@[i as int]);
                assert(sub@ == before.update(i as int, sub@[i as int]));
                lemma_nodes_view_index(sub@, i as int);
            }
            i = i + 1;
        }
        assert(nodes_view(sub@) =~= nv0.map_values(|n: Dta| rank_pair_applied(n, m@)));
    }
}

fn apply_item(n: &mut DtaNode, m: &SongMetadata)
    ensures
        node_view(*final(n)) == item_applied(node_view(*old(n)), m@),
{
    match n {
        DtaNode::List(sub) => {
            match get_key(sub) {
                Some(ki) => {
                    let k = match &sub[ki] {
                        DtaNode::Symbol(s) => s.clone(),
                        _ => String::new(),
                    };
                    apply_field(sub, &k, m);
                },
                None => {},
            }
        },
        _ => {},
    }
}

/// Applies edited metadata to a parsed DTA tree: in the song entry (the first
/// top-level list), each `(key ...)` list for a known field gets the new
/// value in place. Fields whose new value is unset are left alone, and
/// everything else in the tree is kept as it is.
pub fn apply_metadata(nodes: &mut Vec<DtaNode>, meta: &SongMetadata)
    ensures
        nodes_view(final(nodes)@) == metadata_applied(nodes_view(old(nodes)@), meta@),
{
    let ghost nv = nodes_view(nodes@);
    proof {
        lemma_nodes_view_len(nodes@);
    }
    let mut li: usize = 0;
    while li < nodes.len() && !is_list_node(&nodes[li])
        invariant
            li <= nodes@.len(),
            nv == nodes_view(nodes@),
            nv.len() == nodes@.len(),
            first_list_index(nv, li as int) == first_list_index(nv, 0),
        decreases nodes@.len() - li,
    {
        proof {
            lemma_nodes_view_index(nodes@, li as int);
        }
        li = li + 1;
    }
    if li >= nodes.len() {
        return;
    }
    proof {
        lemma_nodes_view_index(nodes@, li as int);
    }
    let ghost n0 = nodes@;
    match &mut nodes[li] {
        DtaNode::List(items) => {
            let ghost iv0 = nodes_view(items@);
            proof {
                lemma_nodes_view_len(items@);
            }
            let mut k: usize = 0;
            while k < items.len()
                invariant
                    k <= items@.len(),
                    iv0.len() == items@.len(),
                    nodes_view(items@).len() == items@.len(),
                    forall|j: int| 0 <= j < k ==> #[trigger] nodes_view(items@)[j] == item_applied(iv0[j], meta@),
                    forall|j: int| k <= j < items@.len() ==> #[trigger] nodes_view(items@)[j] == iv0[j],
                decreases items@.len() - k,
            {
                let ghost before = items@;
                proof {
                    lemma_nodes_view_index(items@, k as int);
                }
                apply_item(&mut items[k], meta);
                proof {
                    lemma_nodes_view_update(before, k as int, items@[k as int]);
                    assert(items@ == before.update(k as int, items@[k as int]));
                    lemma_nodes_view_index(items@, k as int);
                }
                k = k + 1;
            }
            assert(nodes_view(items@) =~= iv0.map_values(|n: Dta| item_applied(n, meta@)));
        },
        _ => {},
    }
    proof {
        lemma_nodes_view_update(n0, li as int, nodes@[li as int]);
        assert(nodes@ == n0.update(li as int, nodes@[li as int]));
    }
}

} // verus!
