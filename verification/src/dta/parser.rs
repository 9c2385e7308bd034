//! Reader for DTA, the parenthesised text format of Rock Band song entries.
use vstd::prelude::*;
use crate::dta::types::{empty_meta, MetaSpec, SongMetadata};
use crate::dta::serializer::{print_node, print_nodes};
use crate::text::{is_digit, is_whitespace, is_ws, parse_i32, parse_i32_chars, string_from_chars, sub_chars};

verus! {

/// A node in the DTA parse tree. Comments and white space are kept as nodes,
/// so that printing the tree keeps them.
pub enum DtaNode {
    Symbol(String),
    String(String),
    Int(i32),
    /// A token in floating-point syntax, kept as it was written.
    Float(String),
    List(Vec<DtaNode>),
    Comment(String),
    Whitespace(String),
}

/// Plain-value picture of a `DtaNode`.
pub enum Dta {
    Symbol(Seq<char>),
    Str(Seq<char>),
    Int(i32),
    Float(Seq<char>),
    List(Seq<Dta>),
    Comment(Seq<char>),
    Whitespace(Seq<char>),
}

pub open spec fn node_view(n: DtaNode) -> Dta
    decreases n,
{
    match n {
        DtaNode::Symbol(s) => Dta::Symbol(s@),
        DtaNode::String(s) => Dta::Str(s@),
        DtaNode::Int(i) => Dta::Int(i),
        DtaNode::Float(s) => Dta::Float(s@),
        DtaNode::List(items) => Dta::List(nodes_view(items@)),
        DtaNode::Comment(s) => Dta::Comment(s@),
        DtaNode::Whitespace(s) => Dta::Whitespace(s@),
    }
}

pub open spec fn nodes_view(items: Seq<DtaNode>) -> Seq<Dta>
    decreases items,
{
    if items.len() == 0 {
        Seq::empty()
    } else {
        nodes_view(items.drop_last()).push(node_view(items.last()))
    }
}

impl View for DtaNode {
    type V = Dta;

    open spec fn view(&self) -> Dta {
        node_view(*self)
    }
}


pub proof fn lemma_nodes_view_push(items: Seq<DtaNode>, n: DtaNode)
    ensures
        nodes_view(items.push(n)) == nodes_view(items).push(node_view(n)),
{
    assert(items.push(n).drop_last() =~= items);
}

pub proof fn lemma_nodes_view_len(items: Seq<DtaNode>)
    ensures
        nodes_view(items).len() == items.len(),
    decreases items.len(),
{
    if items.len() > 0 {
        lemma_nodes_view_len(items.drop_last());
    }
}

pub proof fn lemma_nodes_view_index(items: Seq<DtaNode>, i: int)
    requires
        0 <= i < items.len(),
    ensures
        nodes_view(items).len() == items.len(),
        nodes_view(items)[i] == node_view(items[i]),
    decreases items.len(),
{
    lemma_nodes_view_len(items);
    if i < items.len() - 1 {
        lemma_nodes_view_index(items.drop_last(), i);
    }
}

// ---------------------------------------------------------------- the grammar

/// Characters that end a bare token.
pub open spec fn is_delim(c: char) -> bool {
    is_ws(c) || c == '(' || c == ')' || c == ';'
}

/// End of the run of white space starting at `p`.
pub open spec fn ws_end(s: Seq<char>, p: int) -> int
    decreases s.len() - p,
{
    if 0 <= p < s.len() && is_ws(s[p]) {
        ws_end(s, p + 1)
    } else {
        p
    }
}

/// End of the comment starting at `p`: just past the next line break, or the end.
pub open spec fn comment_end(s: Seq<char>, p: int) -> int
    decreases s.len() - p,
{
    if p < 0 || p >= s.len() {
        s.len() as int
    } else if s[p] == '\n' {
        p + 1
    } else {
        comment_end(s, p + 1)
    }
}

/// End of the bare token starting at `p`.
pub open spec fn token_end(s: Seq<char>, p: int) -> int
    decreases s.len() - p,
{
    if 0 <= p < s.len() && !is_delim(s[p]) {
        token_end(s, p + 1)
    } else {
        p
    }
}

/// End of a quoted symbol's text starting at `p`: its closing quote, white
/// space, a parenthesis or the end.
pub open spec fn quoted_symbol_end(s: Seq<char>, p: int) -> int
    decreases s.len() - p,
{
    if 0 <= p < s.len() && !(s[p] == '\'' || is_ws(s[p]) || s[p] == '(' || s[p] == ')') {
        quoted_symbol_end(s, p + 1)
    } else {
        p
    }
}

/// Position of the closing `"` of a string whose text starts at `p`
/// (a backslash escapes the next character), or the end.
pub open spec fn string_end(s: Seq<char>, p: int, escaped: bool) -> int
    decreases s.len() - p,
{
    if p < 0 || p >= s.len() {
        s.len() as int
    } else if s[p] == '\\' && !escaped {
        string_end(s, p + 1, true)
    } else if s[p] == '"' && !escaped {
        p
    } else {
        string_end(s, p + 1, false)
    }
}

pub open spec fn is_digits(s: Seq<char>, a: int, b: int) -> bool {
    forall|i: int| a <= i < b ==> is_digit(#[trigger] s[i])
}

/// Index of the first `e` or `E` in `u`, or its length.
pub open spec fn exp_index(u: Seq<char>) -> int
    decreases u.len(),
{
    if u.len() == 0 {
        0
    } else if u[0] == 'e' || u[0] == 'E' {
        0
    } else {
        1 + exp_index(u.drop_first())
    }
}

/// `Digit+`, `Digit+ '.' Digit*` or `Digit* '.' Digit+`.
pub open spec fn mantissa_ok(m: Seq<char>) -> bool {
    let d = crate::text::first_index(m, '.');
    if d < m.len() {
        m.len() >= 2 && is_digits(m, 0, d) && is_digits(m, d + 1, m.len() as int)
    } else {
        m.len() >= 1 && is_digits(m, 0, m.len() as int)
    }
}

/// `Sign? Digit+`.
pub open spec fn signed_digits_ok(e: Seq<char>) -> bool {
    let d = if e.len() > 0 && (e[0] == '+' || e[0] == '-') {
        e.drop_first()
    } else {
        e
    };
    d.len() >= 1 && is_digits(d, 0, d.len() as int)
}

/// Whether `t` is in the syntax that `f64::from_str` accepts: an optional
/// sign, then `inf`, `infinity` or `nan` in any case, or a decimal number
/// with an optional exponent.
pub open spec fn is_float_text(t: Seq<char>) -> bool {
    let u = if t.len() > 0 && (t[0] == '+' || t[0] == '-') {
        t.drop_first()
    } else {
        t
    };
    let l = crate::text::ascii_lower(u);
    if l == "inf"@ || l == "infinity"@ || l == "nan"@ {
        true
    } else {
        let k = exp_index(u);
        mantissa_ok(u.take(k)) && (k >= u.len() || signed_digits_ok(u.skip(k + 1)))
    }
}

/// What a bare token reads as: an `i32` if it is one, a float token if it is
/// in floating-point syntax, a symbol otherwise.
pub open spec fn classify(t: Seq<char>) -> Dta {
    match parse_i32(t) {
        Some(i) => Dta::Int(i),
        None => if is_float_text(t) {
            Dta::Float(t)
        } else {
            Dta::Symbol(t)
        },
    }
}

/// White space and comments starting at `p`, and where they end.
pub open spec fn trivia(s: Seq<char>, p: int) -> (Seq<Dta>, int)
    decreases s.len() - p,
{
    let w = ws_end(s, p);
    let a = if w > p {
        seq![Dta::Whitespace(s.subrange(p, w))]
    } else {
        Seq::empty()
    };
    if 0 <= p && 0 <= w < s.len() && s[w] == ';' {
        let c = comment_end(s, w);
        if p < c <= s.len() {
            let (r, q) = trivia(s, c);
            (a.push(Dta::Comment(s.subrange(w, c))) + r, q)
        } else {
            (a, w)
        }
    } else {
        (a, w)
    }
}

/// An atom starting at `p` (a string, a quoted symbol or list, or a bare
/// token), and where it ends; `Err` for an unclosed quoted list.
pub open spec fn atom(s: Seq<char>, p: int) -> Result<(Dta, int), ()>
    decreases s.len() - p, 0int,
{
    if p < 0 || p >= s.len() {
        Err(())
    } else if s[p] == '"' {
        let e = string_end(s, p + 1, false);
        if e < s.len() {
            Ok((Dta::Str(s.subrange(p + 1, e)), e + 1))
        } else {
            Ok((Dta::Str(s.subrange(p + 1, s.len() as int)), s.len() as int))
        }
    } else if s[p] == '\'' {
        if p + 1 < s.len() && s[p + 1] == '(' {
            list(s, p + 1)
        } else {
            let e = quoted_symbol_end(s, p + 1);
            if e < s.len() && s[e] == '\'' {
                Ok((Dta::Symbol(s.subrange(p + 1, e)), e + 1))
            } else {
                Ok((Dta::Symbol(s.subrange(p + 1, e)), e))
            }
        }
    } else {
        let e = token_end(s, p);
        Ok((classify(s.subrange(p, e)), e))
    }
}

/// The list whose `(` is at `p`, and where it ends.
pub open spec fn list(s: Seq<char>, p: int) -> Result<(Dta, int), ()>
    decreases s.len() - p, 0int,
{
    if p < 0 || p >= s.len() {
        Err(())
    } else {
        match list_items(s, p + 1) {
            Ok((children, q)) => Ok((Dta::List(children), q)),
            Err(()) => Err(()),
        }
    }
}

/// The contents of a list from `q` up to and past its `)`.
pub open spec fn list_items(s: Seq<char>, q: int) -> Result<(Seq<Dta>, int), ()>
    decreases s.len() - q, 1int,
{
    if q < 0 || q > s.len() {
        Err(())
    } else {
        let (tv, q1) = trivia(s, q);
        if q1 < q || q1 >= s.len() {
            Err(())
        } else if s[q1] == ')' {
            Ok((tv, q1 + 1))
        } else {
            let first = if s[q1] == '(' {
                list(s, q1)
            } else {
                atom(s, q1)
            };
            match first {
                Ok((n, q2)) => if q2 <= q1 || q2 > s.len() {
                    Err(())
                } else {
                    match list_items(s, q2) {
                        Ok((rest, q3)) => Ok((tv.push(n) + rest, q3)),
                        Err(()) => Err(()),
                    }
                },
                Err(()) => Err(()),
            }
        }
    }
}

/// The top-level nodes from `p` to the end; stray `)` are dropped.
pub open spec fn top_level(s: Seq<char>, p: int) -> Result<Seq<Dta>, ()>
    decreases s.len() - p,
{
    if p < 0 || p > s.len() {
        Err(())
    } else {
        let (tv, q) = trivia(s, p);
        if q < p || q >= s.len() {
            Ok(tv)
        } else if s[q] == ')' {
            match top_level(s, q + 1) {
                Ok(r) => Ok(tv + r),
                Err(()) => Err(()),
            }
        } else {
            let first = if s[q] == '(' {
                list(s, q)
            } else {
                atom(s, q)
            };
            match first {
                Ok((n, q2)) => if q2 <= q || q2 > s.len() {
                    Err(())
                } else {
                    match top_level(s, q2) {
                        Ok(r) => Ok(tv.push(n) + r),
                        Err(()) => Err(()),
                    }
                },
                Err(()) => Err(()),
            }
        }
    }
}

/// What `parse_dta` makes of a text.
pub open spec fn dta_parse(s: Seq<char>) -> Result<Seq<Dta>, ()> {
    top_level(s, 0)
}

// ---------------------------------------------------------------- scanning

fn ws_end_at(s: &[char], p: usize) -> (r: usize)
    requires
        p <= s@.len(),
    ensures
        r == ws_end(s@, p as int),
        p <= r <= s@.len(),
        r < s@.len() ==> !is_ws(s@[r as int]),
{
    let mut i = p;
    while i < s.len() && is_whitespace(s[i])
        invariant
            p <= i <= s@.len(),
            ws_end(s@, i as int) == ws_end(s@, p as int),
        decreases s@.len() - i,
    {
        i = i + 1;
    }
    i
}

fn comment_end_at(s: &[char], p: usize) -> (r: usize)
    requires
        p < s@.len(),
        s@[p as int] == ';',
    ensures
        r == comment_end(s@, p as int),
        p < r <= s@.len(),
{
    let mut i = p;
    while i < s.len() && s[i] != '\n'
        invariant
            p <= i <= s@.len(),
            comment_end(s@, i as int) == comment_end(s@, p as int),
            i == p || i > p,
            s@[p as int] == ';',
        decreases s@.len() - i,
    {
        i = i + 1;
    }
    if i < s.len() {
        i + 1
    } else {
        i
    }
}

fn token_end_at(s: &[char], p: usize) -> (r: usize)
    requires
        p <= s@.len(),
    ensures
        r == token_end(s@, p as int),
        p <= r <= s@.len(),
{
    let mut i = p;
    while i < s.len() && !(is_whitespace(s[i]) || s[i] == '(' || s[i] == ')' || s[i] == ';')
        invariant
            p <= i <= s@.len(),
            token_end(s@, i as int) == token_end(s@, p as int),
        decreases s@.len() - i,
    {
        i = i + 1;
    }
    i
}

fn quoted_symbol_end_at(s: &[char], p: usize) -> (r: usize)
    requires
        p <= s@.len(),
    ensures
        r == quoted_symbol_end(s@, p as int),
        p <= r <= s@.len(),
{
    let mut i = p;
    while i < s.len() && !(s[i] == '\'' || is_whitespace(s[i]) || s[i] == '(' || s[i] == ')')
        invariant
            p <= i <= s@.len(),
            quoted_symbol_end(s@, i as int) == quoted_symbol_end(s@, p as int),
        decreases s@.len() - i,
    {
        i = i + 1;
    }
    i
}

fn string_end_at(s: &[char], p: usize) -> (r: usize)
    requires
        p <= s@.len(),
    ensures
        r == string_end(s@, p as int, false),
        p <= r <= s@.len(),
{
    let mut i = p;
    let mut escaped = false;
    while i < s.len()
        invariant
            p <= i <= s@.len(),
            string_end(s@, i as int, escaped) == string_end(s@, p as int, false),
        decreases s@.len() - i,
    {
        let c = s[i];
        if c == '\\' && !escaped {
            escaped = true;
        } else if c == '"' && !escaped {
            return i;
        } else {
            escaped = false;
        }
        i = i + 1;
    }
    i
}

// ---------------------------------------------------------------- float syntax

fn digits_in(s: &[char], a: usize, b: usize) -> (r: bool)
    requires
        a <= b <= s@.len(),
    ensures
        r == is_digits(s@, a as int, b as int),
{
    let mut i = a;
    while i < b
        invariant
            a <= i <= b <= s@.len(),
            forall|j: int| a <= j < i ==> is_digit(#[trigger] s@[j]),
        decreases b - i,
    {
        if !('0' <= s[i] && s[i] <= '9') {
            return false;
        }
        i = i + 1;
    }
    true
}

proof fn lemma_is_digits_shift(s: Seq<char>, off: int, a: int, b: int)
    requires
        0 <= off,
        0 <= a <= b,
        off + b <= s.len(),
    ensures
        is_digits(s.subrange(off, off + b), a, b) == is_digits(s, off + a, off + b),
{
    let t = s.subrange(off, off + b);
    if is_digits(t, a, b) {
        assert forall|j: int| off + a <= j < off + b implies is_digit(#[trigger] s[j]) by {
            assert(s[j] == t[j - off]);
        }
    }
    if is_digits(s, off + a, off + b) {
        assert forall|j: int| a <= j < b implies is_digit(#[trigger] t[j]) by {
            assert(t[j] == s[j + off]);
        }
    }
}

fn lower_eq(s: &[char], a: usize, b: usize, lit: &str) -> (r: bool)
    requires
        a <= b <= s@.len(),
    ensures
        r == (crate::text::ascii_lower(s@.subrange(a as int, b as int)) == lit@),
{
    let t = sub_chars(s, a, b);
    let mut l: Vec<char> = Vec::new();
    let mut i: usize = 0;
    while i < t.len()
        invariant
            i <= t@.len(),
            l@ == crate::text::ascii_lower(t@.take(i as int)),
        decreases t@.len() - i,
    {
        l.push(crate::text::lower_ascii_char(t[i]));
        i = i + 1;
        assert(l@ =~= crate::text::ascii_lower(t@.take(i as int)));
    }
    assert(t@.take(t@.len() as int) =~= t@);
    crate::text::chars_eq_str(l.as_slice(), lit)
}

fn exp_index_at(s: &[char], a: usize, b: usize) -> (k: usize)
    requires
        a <= b <= s@.len(),
    ensures
        a <= k <= b,
        k - a == exp_index(s@.subrange(a as int, b as int)),
{
    let ghost u = s@.subrange(a as int, b as int);
    let mut k = a;
    assert(u.skip(0) =~= u);
    while k < b && !(s[k] == 'e' || s[k] == 'E')
        invariant
            a <= k <= b <= s@.len(),
            u == s@.subrange(a as int, b as int),
            exp_index(u.skip(k - a)) + (k - a) == exp_index(u),
        decreases b - k,
    {
        proof {
            let w = u.skip(k - a);
            assert(w[0] == s@[k as int]);
            assert(w.drop_first() =~= u.skip(k + 1 - a));
        }
        k = k + 1;
    }
    proof {
        let w = u.skip(k - a);
        if k < b {
            assert(w[0] == s@[k as int]);
        } else {
            assert(w.len() == 0);
        }
    }
    k
}

fn mantissa_at(s: &[char], a: usize, k: usize) -> (r: bool)
    requires
        a <= k <= s@.len(),
    ensures
        r == mantissa_ok(s@.subrange(a as int, k as int)),
{
    let ghost m = s@.subrange(a as int, k as int);
    let d = crate::text::find_char_from(s, '.', a);
    let dd = if d < k { d } else { k };
    proof {
        assert forall|j: int| 0 <= j < dd - a implies #[trigger] m[j] != '.' by {
            assert(m[j] == s@[a + j]);
        }
        if dd < k {
            assert(m[dd - a] == s@[dd as int]);
        }
        crate::text::lemma_first_index(m, '.', dd - a);
        lemma_is_digits_shift(s@, a as int, 0, dd - a);
        lemma_is_digits_shift(s@, a as int, 0, k - a);
        assert(s@.subrange(a as int, a + (k - a)) =~= m);
        assert(s@.subrange(a as int, a + (dd - a)) =~= s@.subrange(a as int, dd as int));
        if dd < k {
            lemma_is_digits_shift(s@, a as int, dd + 1 - a, (k - a) as int);
            assert forall|j: int| 0 <= j < dd - a implies (#[trigger] m[j]) == s@.subrange(a as int, dd as int)[j] by {}
        }
    }
    if dd < k {
        let x = k - a >= 2;
        let y = digits_in(s, a, dd);
        let z = digits_in(s, dd + 1, k);
        proof {
            if y {
                assert forall|j: int| 0 <= j < dd - a implies is_digit(#[trigger] m[j]) by {
                    assert(m[j] == s@[a + j]);
                }
            }
            if is_digits(m, 0, dd - a) {
                assert forall|j: int| a <= j < dd implies is_digit(#[trigger] s@[j]) by {
                    assert(m[j - a] == s@[j]);
                }
            }
            if z {
                assert forall|j: int| dd - a + 1 <= j < k - a implies is_digit(#[trigger] m[j]) by {
                    assert(m[j] == s@[a + j]);
                }
            }
            if is_digits(m, dd - a + 1, k - a) {
                assert forall|j: int| dd + 1 <= j < k implies is_digit(#[trigger] s@[j]) by {
                    assert(m[j - a] == s@[j]);
                }
            }
        }
        x && y && z
    } else {
        let x = k - a >= 1;
        let y = digits_in(s, a, k);
        proof {
            if y {
                assert forall|j: int| 0 <= j < k - a implies is_digit(#[trigger] m[j]) by {
                    assert(m[j] == s@[a + j]);
                }
            }
            if is_digits(m, 0, k - a) {
                assert forall|j: int| a <= j < k implies is_digit(#[trigger] s@[j]) by {
                    assert(m[j - a] == s@[j]);
                }
            }
        }
        x && y
    }
}

fn signed_digits_at(s: &[char], a: usize, b: usize) -> (r: bool)
    requires
        a <= b <= s@.len(),
    ensures
        r == signed_digits_ok(s@.subrange(a as int, b as int)),
{
    let ghost e = s@.subrange(a as int, b as int);
    let mut e0 = a;
    if e0 < b && (s[e0] == '+' || s[e0] == '-') {
        e0 = e0 + 1;
        assert(e.drop_first() =~= s@.subrange(e0 as int, b as int));
    }
    let ghost dg = s@.subrange(e0 as int, b as int);
    let ok = b - e0 >= 1 && digits_in(s, e0, b);
    proof {
        if is_digits(s@, e0 as int, b as int) {
            assert forall|j: int| 0 <= j < dg.len() implies is_digit(#[trigger] dg[j]) by {
                assert(dg[j] == s@[e0 + j]);
            }
        }
        if is_digits(dg, 0, dg.len() as int) {
            assert forall|j: int| e0 <= j < b implies is_digit(#[trigger] s@[j]) by {
                assert(dg[j - e0] == s@[j]);
            }
        }
    }
    ok
}

/// Whether `s[a..b]` is in `f64::from_str` syntax.
fn float_text(s: &[char], a0: usize, b: usize) -> (r: bool)
    requires
        a0 <= b <= s@.len(),
    ensures
        r == is_float_text(s@.subrange(a0 as int, b as int)),
{
    let ghost t = s@.subrange(a0 as int, b as int);
    let mut a = a0;
    if a < b && (s[a] == '+' || s[a] == '-') {
        a = a + 1;
    }
    let ghost u = s@.subrange(a as int, b as int);
    proof {
        if a > a0 {
            assert(t.drop_first() =~= u);
        } else {
            assert(t =~= u);
        }
    }
    if lower_eq(s, a, b, "inf") || lower_eq(s, a, b, "infinity") || lower_eq(s, a, b, "nan") {
        return true;
    }
    let k = exp_index_at(s, a, b);
    let m = mantissa_at(s, a, k);
    assert(u.take(k - a) =~= s@.subrange(a as int, k as int));
    if !m {
        return false;
    }
    if k >= b {
        return true;
    }
    assert(u.skip(k + 1 - a) =~= s@.subrange(k + 1, b as int));
    signed_digits_at(s, k + 1, b)
}

// ---------------------------------------------------------------- parsing

fn text_of(s: &[char], a: usize, b: usize) -> (r: String)
    requires
        a <= b <= s@.len(),
    ensures
        r@ == s@.subrange(a as int, b as int),
{
    let v = sub_chars(s, a, b);
    string_from_chars(v.as_slice())
}

/// How a parse result of the reader matches the grammar's result.
pub open spec fn node_result(r: Result<(DtaNode, usize), String>, g: Result<(Dta, int), ()>, p: int, n: int) -> bool {
    match r {
        Ok((node, q)) => g == Ok::<(Dta, int), ()>((node@, q as int)) && p < q <= n,
        Err(e) => g is Err && e@ == "Unexpected end of input in list"@,
    }
}

fn unexpected_end() -> (e: String)
    ensures
        e@ == "Unexpected end of input in list"@,
{
    String::from_str("Unexpected end of input in list")
}

proof fn lemma_ws_end(s: Seq<char>, p: int)
    requires
        0 <= p <= s.len(),
    ensures
        p <= ws_end(s, p) <= s.len(),
        ws_end(s, p) < s.len() ==> !is_ws(s[ws_end(s, p)]),
    decreases s.len() - p,
{
    if p < s.len() && is_ws(s[p]) {
        lemma_ws_end(s, p + 1);
    }
}

/// Where white space and comments end, the text ends or a token starts.
proof fn lemma_trivia_end(s: Seq<char>, p: int)
    requires
        0 <= p <= s.len(),
    ensures
        p <= trivia(s, p).1 <= s.len(),
        trivia(s, p).1 < s.len() ==> !is_ws(s[trivia(s, p).1]) && s[trivia(s, p).1] != ';',
    decreases s.len() - p,
{
    lemma_ws_end(s, p);
    let w = ws_end(s, p);
    if w < s.len() && s[w] == ';' {
        let c = comment_end(s, w);
        if p < c <= s.len() {
            lemma_trivia_end(s, c);
        } else {
            lemma_comment_end(s, w);
        }
    }
}

proof fn lemma_comment_end(s: Seq<char>, p: int)
    requires
        0 <= p < s.len(),
    ensures
        p < comment_end(s, p) <= s.len(),
    decreases s.len() - p,
{
    if s[p] != '\n' {
        if p + 1 < s.len() {
            lemma_comment_end(s, p + 1);
        } else {
            assert(comment_end(s, p + 1) == s.len());
        }
    }
}

/// Reads white space and comments from `p`, appending them to `nodes`.
fn skip_trivia(s: &[char], p: usize, nodes: &mut Vec<DtaNode>) -> (q: usize)
    requires
        p <= s@.len(),
    ensures
        q == trivia(s@, p as int).1,
        p <= q <= s@.len(),
        q < s@.len() ==> !is_ws(s@[q as int]) && s@[q as int] != ';',
        nodes_view(final(nodes)@) == nodes_view(old(nodes)@) + trivia(s@, p as int).0,
{
    proof {
        lemma_trivia_end(s@, p as int);
    }
    let ghost n0 = nodes_view(nodes@);
    let mut pos = p;
    assert(nodes_view(nodes@) + trivia(s@, p as int).0 =~= n0 + trivia(s@, p as int).0);
    loop
        invariant
            p <= pos <= s@.len(),
            n0 == nodes_view(old(nodes)@),
            nodes_view(nodes@) + trivia(s@, pos as int).0 == n0 + trivia(s@, p as int).0,
            trivia(s@, pos as int).1 == trivia(s@, p as int).1,
        decreases s@.len() - pos,
    {
        let start = pos;
        let ghost before = nodes_view(nodes@);
        let w = ws_end_at(s, pos);
        if w > start {
            let ws = text_of(s, start, w);
            proof {
                lemma_nodes_view_push(nodes@, DtaNode::Whitespace(ws));
            }
            nodes.push(DtaNode::Whitespace(ws));
        }
        let ghost a = if w > start {
            seq![Dta::Whitespace(s@.subrange(start as int, w as int))]
        } else {
            Seq::<Dta>::empty()
        };
        assert(nodes_view(nodes@) =~= before + a);
        if w < s.len() && s[w] == ';' {
            let c = comment_end_at(s, w);
            let com = text_of(s, w, c);
            proof {
                lemma_nodes_view_push(nodes@, DtaNode::Comment(com));
            }
            nodes.push(DtaNode::Comment(com));
            proof {
                let t = trivia(s@, c as int);
                assert(trivia(s@, start as int).0 == a.push(Dta::Comment(s@.subrange(w as int, c as int))) + t.0);
                assert(nodes_view(nodes@) + t.0 =~= before + trivia(s@, start as int).0);
            }
            pos = c;
        } else {
            proof {
                assert(trivia(s@, start as int) == (a, w as int));
                assert(trivia(s@, w as int).1 == w as int) by {
                    assert(ws_end(s@, w as int) == w);
                }
                assert(trivia(s@, w as int).0 =~= Seq::<Dta>::empty()) by {
                    assert(ws_end(s@, w as int) == w);
                }
                assert(nodes_view(nodes@) =~= before + trivia(s@, start as int).0);
                assert(before + trivia(s@, start as int).0 == n0 + trivia(s@, p as int).0);
                assert(nodes_view(nodes@) == n0 + trivia(s@, p as int).0);
            }
            return w;
        }
    }
}

/// A quoted string whose `"` is at `p`.
fn parse_quoted_string(s: &[char], p: usize) -> (r: (DtaNode, usize))
    requires
        p < s@.len(),
        s@[p as int] == '"',
    ensures
        atom(s@, p as int) == Ok::<(Dta, int), ()>((r.0@, r.1 as int)),
        p < r.1 <= s@.len(),
{
    let _n = s.len();
    let e = string_end_at(s, p + 1);
    if e < s.len() {
        (DtaNode::String(text_of(s, p + 1, e)), e + 1)
    } else {
        (DtaNode::String(text_of(s, p + 1, s.len())), s.len())
    }
}

proof fn lemma_token_end(s: Seq<char>, p: int)
    requires
        0 <= p <= s.len(),
    ensures
        p <= token_end(s, p) <= s.len(),
    decreases s.len() - p,
{
    if p < s.len() && !is_delim(s[p]) {
        lemma_token_end(s, p + 1);
    }
}

/// A bare token: an integer, a float token or a symbol.
fn parse_symbol_or_number(s: &[char], p: usize) -> (r: (DtaNode, usize))
    requires
        p <= s@.len(),
    ensures
        r.0@ == classify(s@.subrange(p as int, token_end(s@, p as int))),
        r.1 == token_end(s@, p as int),
        p <= r.1 <= s@.len(),
{
    let e = token_end_at(s, p);
    let tok = sub_chars(s, p, e);
    match parse_i32_chars(tok.as_slice()) {
        Some(i) => (DtaNode::Int(i), e),
        None => {
            if float_text(s, p, e) {
                (DtaNode::Float(string_from_chars(tok.as_slice())), e)
            } else {
                (DtaNode::Symbol(string_from_chars(tok.as_slice())), e)
            }
        },
    }
}

/// A bare token read as a symbol, whatever it spells.
fn parse_symbol(s: &[char], p: usize) -> (r: (DtaNode, usize))
    requires
        p <= s@.len(),
    ensures
        r.0@ == Dta::Symbol(s@.subrange(p as int, token_end(s@, p as int))),
        r.1 == token_end(s@, p as int),
{
    let e = token_end_at(s, p);
    (DtaNode::Symbol(text_of(s, p, e)), e)
}

/// The atom starting at `p`.
fn parse_atom(s: &[char], p: usize) -> (r: Result<(DtaNode, usize), String>)
    requires
        p < s@.len(),
        !is_delim(s@[p as int]),
    ensures
        node_result(r, atom(s@, p as int), p as int, s@.len() as int),
    decreases s@.len() - p, 0int,
{
    let _n = s.len();
    if s[p] == '"' {
        let (n, q) = parse_quoted_string(s, p);
        Ok((n, q))
    } else if s[p] == '\'' {
        if p + 1 < s.len() && s[p + 1] == '(' {
            parse_list(s, p + 1)
        } else {
            let e = quoted_symbol_end_at(s, p + 1);
            if e < s.len() && s[e] == '\'' {
                Ok((DtaNode::Symbol(text_of(s, p + 1, e)), e + 1))
            } else {
                Ok((DtaNode::Symbol(text_of(s, p + 1, e)), e))
            }
        }
    } else {
        let (n, q) = parse_symbol_or_number(s, p);
        assert(q > p) by {
            assert(token_end(s@, p as int) == token_end(s@, p + 1));
            lemma_token_end(s@, p + 1);
        }
        Ok((n, q))
    }
}

/// The list whose `(` is at `p`.
fn parse_list(s: &[char], p: usize) -> (r: Result<(DtaNode, usize), String>)
    requires
        p < s@.len(),
        s@[p as int] == '(',
    ensures
        node_result(r, list(s@, p as int), p as int, s@.len() as int),
    decreases s@.len() - p, 1int,
{
    let _n = s.len();
    let mut items: Vec<DtaNode> = Vec::new();
    let mut pos = p + 1;
    proof {
        assert(nodes_view(items@) + Seq::<Dta>::empty() =~= Seq::<Dta>::empty());
    }
    loop
        invariant
            p < pos <= s@.len(),
            match list_items(s@, p + 1) {
                Ok((all, q)) => list_items(s@, pos as int) matches Ok((rest, q2)) && q2 == q && all == nodes_view(items@) + rest,
                Err(()) => list_items(s@, pos as int) is Err,
            },
        decreases s@.len() - pos,
    {
        let ghost before = nodes_view(items@);
        let q1 = skip_trivia(s, pos, &mut items);
        let ghost tv = trivia(s@, pos as int).0;
        if q1 >= s.len() {
            return Err(unexpected_end());
        }
        if s[q1] == ')' {
            proof {
                assert(list_items(s@, pos as int) == Ok::<(Seq<Dta>, int), ()>((tv, q1 + 1)));
            }
            return Ok((DtaNode::List(items), q1 + 1));
        }
        let child = if s[q1] == '(' {
            parse_list(s, q1)
        } else {
            parse_atom(s, q1)
        };
        match child {
            Ok((n, q2)) => {
                proof {
                    lemma_nodes_view_push(items@, n);
                }
                items.push(n);
                proof {
                    assert(nodes_view(items@) =~= before + tv.push(n@));
                    match list_items(s@, q2 as int) {
                        Ok((rest, q3)) => {
                            assert(list_items(s@, pos as int) == Ok::<(Seq<Dta>, int), ()>((tv.push(n@) + rest, q3)));
                            assert(before + (tv.push(n@) + rest) =~= nodes_view(items@) + rest);
                        },
                        Err(()) => {},
                    }
                }
                pos = q2;
            },
            Err(e) => {
                return Err(e);
            },
        }
    }
}

/// The nodes of a whole text.
fn parse_top_level(s: &[char]) -> (r: Result<Vec<DtaNode>, String>)
    ensures
        match r {
            Ok(nodes) => dta_parse(s@) == Ok::<Seq<Dta>, ()>(nodes_view(nodes@)),
            Err(e) => dta_parse(s@) is Err && e@ == "Unexpected end of input in list"@,
        },
{
    let mut nodes: Vec<DtaNode> = Vec::new();
    let mut pos: usize = 0;
    proof {
        assert(nodes_view(nodes@) =~= Seq::<Dta>::empty());
    }
    loop
        invariant
            pos <= s@.len(),
            match top_level(s@, 0) {
                Ok(all) => top_level(s@, pos as int) matches Ok(rest) && all == nodes_view(nodes@) + rest,
                Err(()) => top_level(s@, pos as int) is Err,
            },
        decreases s@.len() - pos,
    {
        let ghost before = nodes_view(nodes@);
        let q = skip_trivia(s, pos, &mut nodes);
        let ghost tv = trivia(s@, pos as int).0;
        if q >= s.len() {
            proof {
                assert(top_level(s@, pos as int) == Ok::<Seq<Dta>, ()>(tv));
                assert(nodes_view(nodes@) =~= before + tv);
            }
            return Ok(nodes);
        }
        if s[q] == ')' {
            proof {
                match top_level(s@, q + 1) {
                    Ok(rest) => {
                        assert(top_level(s@, pos as int) == Ok::<Seq<Dta>, ()>(tv + rest));
                        assert(before + (tv + rest) =~= nodes_view(nodes@) + rest);
                    },
                    Err(()) => {},
                }
            }
            pos = q + 1;
        } else {
            let child = if s[q] == '(' {
                parse_list(s, q)
            } else {
                parse_atom(s, q)
            };
            match child {
                Ok((n, q2)) => {
                    proof {
                        lemma_nodes_view_push(nodes@, n);
                    }
                    nodes.push(n);
                    proof {
                        assert(nodes_view(nodes@) =~= before + tv.push(n@));
                        match top_level(s@, q2 as int) {
                            Ok(rest) => {
                                assert(top_level(s@, pos as int) == Ok::<Seq<Dta>, ()>(tv.push(n@) + rest));
                                assert(before + (tv.push(n@) + rest) =~= nodes_view(nodes@) + rest);
                            },
                            Err(()) => {},
                        }
                    }
                    pos = q2;
                },
                Err(e) => {
                    return Err(e);
                },
            }
        }
    }
}

/// Parses DTA text into its top-level nodes, comments and white space
/// included. Fails only on a list left open at the end of the text.
pub fn parse_dta(input: &str) -> (r: Result<Vec<DtaNode>, String>)
    ensures
        match r {
            Ok(nodes) => dta_parse(input@) == Ok::<Seq<Dta>, ()>(nodes_view(nodes@)),
            Err(e) => dta_parse(input@) is Err && e@ == "Unexpected end of input in list"@,
        },
{
    let c = crate::text::chars_of(input);
    parse_top_level(c.as_slice())
}

// ---------------------------------------------------------------- reading metadata

pub open spec fn is_trivia(n: Dta) -> bool {
    n is Whitespace || n is Comment
}

/// The key of a list: its first node other than white space or comments,
/// when that node is a symbol.
pub open spec fn key_of(ns: Seq<Dta>) -> Option<Seq<char>>
    decreases ns.len(),
{
    if ns.len() == 0 {
        None
    } else if ns[0] is Symbol {
        Some(ns[0]->Symbol_0)
    } else if is_trivia(ns[0]) {
        key_of(ns.drop_first())
    } else {
        None
    }
}

/// The text of the first string node, or empty text.
pub open spec fn first_string(ns: Seq<Dta>) -> Seq<char>
    decreases ns.len(),
{
    if ns.len() == 0 {
        Seq::empty()
    } else if ns[0] is Str {
        ns[0]->Str_0
    } else {
        first_string(ns.drop_first())
    }
}

/// The value of the first integer node.
pub open spec fn first_int(ns: Seq<Dta>) -> Option<i32>
    decreases ns.len(),
{
    if ns.len() == 0 {
        None
    } else if ns[0] is Int {
        Some(ns[0]->Int_0)
    } else {
        first_int(ns.drop_first())
    }
}

/// The values of all integer nodes, in order.
pub open spec fn all_ints(ns: Seq<Dta>) -> Seq<i32>
    decreases ns.len(),
{
    if ns.len() == 0 {
        Seq::empty()
    } else if ns[0] is Int {
        seq![ns[0]->Int_0] + all_ints(ns.drop_first())
    } else {
        all_ints(ns.drop_first())
    }
}

/// The first symbol or string after the first symbol (the key), or empty text.
pub open spec fn value_after_key(ns: Seq<Dta>, found: bool) -> Seq<char>
    decreases ns.len(),
{
    if ns.len() == 0 {
        Seq::empty()
    } else if !found && ns[0] is Symbol {
        value_after_key(ns.drop_first(), true)
    } else if found && ns[0] is Symbol {
        ns[0]->Symbol_0
    } else if found && ns[0] is Str {
        ns[0]->Str_0
    } else {
        value_after_key(ns.drop_first(), found)
    }
}

/// The first symbol among `ns`.
pub open spec fn first_symbol(ns: Seq<Dta>) -> Option<Seq<char>>
    decreases ns.len(),
{
    if ns.len() == 0 {
        None
    } else if ns[0] is Symbol {
        Some(ns[0]->Symbol_0)
    } else {
        first_symbol(ns.drop_first())
    }
}

/// The children of the first list among `ns`.
pub open spec fn first_list(ns: Seq<Dta>) -> Option<Seq<Dta>>
    decreases ns.len(),
{
    if ns.len() == 0 {
        None
    } else if ns[0] is List {
        Some(ns[0]->List_0)
    } else {
        first_list(ns.drop_first())
    }
}

/// The metadata after one `(instrument N)` pair of a `rank` list.
pub open spec fn rank_set(m: MetaSpec, k: Seq<char>, v: Option<i32>) -> MetaSpec {
    if k == "drum"@ {
        MetaSpec { rank_drum: v, ..m }
    } else if k == "guitar"@ {
        MetaSpec { rank_guitar: v, ..m }
    } else if k == "bass"@ {
        MetaSpec { rank_bass: v, ..m }
    } else if k == "vocals"@ {
        MetaSpec { rank_vocals: v, ..m }
    } else if k == "keys"@ {
        MetaSpec { rank_keys: v, ..m }
    } else if k == "band"@ {
        MetaSpec { rank_band: v, ..m }
    } else if k == "real_guitar"@ {
        MetaSpec { rank_real_guitar: v, ..m }
    } else if k == "real_bass"@ {
        MetaSpec { rank_real_bass: v, ..m }
    } else if k == "real_keys"@ {
        MetaSpec { rank_real_keys: v, ..m }
    } else {
        m
    }
}

/// The metadata after the `(instrument N)` pairs among `ns`.
pub open spec fn ranks_read(m: MetaSpec, ns: Seq<Dta>) -> MetaSpec
    decreases ns.len(),
{
    if ns.len() == 0 {
        m
    } else {
        ranks_read_step(ranks_read(m, ns.drop_last()), ns.last())
    }
}

pub open spec fn ranks_read_step(m: MetaSpec, n: Dta) -> MetaSpec {
    if n is List {
        match key_of(n->List_0) {
            Some(k) => rank_set(m, k, first_int(n->List_0)),
            None => m,
        }
    } else {
        m
    }
}

/// The metadata after one `(key value...)` list of the song entry.
pub open spec fn field_set(m: MetaSpec, k: Seq<char>, sub: Seq<Dta>) -> MetaSpec {
    if k == "name"@ {
        MetaSpec { name: first_string(sub), ..m }
    } else if k == "artist"@ {
        MetaSpec { artist: first_string(sub), ..m }
    } else if k == "album_name"@ {
        MetaSpec { album_name: first_string(sub), ..m }
    } else if k == "album_track_number"@ {
        MetaSpec { album_track_number: first_int(sub), ..m }
    } else if k == "genre"@ {
        MetaSpec { genre: value_after_key(sub, false), ..m }
    } else if k == "sub_genre"@ {
        MetaSpec { sub_genre: value_after_key(sub, false), ..m }
    } else if k == "vocal_gender"@ {
        MetaSpec { vocal_gender: value_after_key(sub, false), ..m }
    } else if k == "year_released"@ {
        MetaSpec { year_released: first_int(sub), ..m }
    } else if k == "song_length"@ {
        MetaSpec { song_length: first_int(sub), ..m }
    } else if k == "rating"@ {
        MetaSpec { rating: first_int(sub), ..m }
    } else if k == "song_id"@ {
        MetaSpec { song_id: first_int(sub), ..m }
    } else if k == "game_origin"@ {
        MetaSpec { game_origin: value_after_key(sub, false), ..m }
    } else if k == "preview"@ {
        let ints = all_ints(sub);
        if ints.len() >= 2 {
            MetaSpec { preview_start: Some(ints[0]), preview_end: Some(ints[1]), ..m }
        } else {
            m
        }
    } else if k == "rank"@ {
        ranks_read(m, sub)
    } else {
        m
    }
}

pub open spec fn entry_step(m: MetaSpec, n: Dta) -> MetaSpec {
    if n is List {
        match key_of(n->List_0) {
            Some(k) => field_set(m, k, n->List_0),
            None => m,
        }
    } else {
        m
    }
}

/// The metadata after the `(key value...)` lists among `ns`, in order.
pub open spec fn entry_read(m: MetaSpec, ns: Seq<Dta>) -> MetaSpec
    decreases ns.len(),
{
    if ns.len() == 0 {
        m
    } else {
        entry_step(entry_read(m, ns.drop_last()), ns.last())
    }
}

/// The author named by a comment line, if the line is one.
pub open spec fn author_comment(line: Seq<char>) -> Option<Seq<char>> {
    let t = crate::text::trim(line);
    if crate::text::starts_with(t, ";Song authored by "@) {
        Some(crate::text::trim(t.skip(";Song authored by "@.len() as int)))
    } else if crate::text::starts_with(t, ";Author: "@) {
        Some(crate::text::trim(t.skip(";Author: "@.len() as int)))
    } else {
        None
    }
}

/// The author named by the last author comment among `ls`, or `a` if none.
pub open spec fn author_of(a: Seq<char>, ls: Seq<Seq<char>>) -> Seq<char>
    decreases ls.len(),
{
    if ls.len() == 0 {
        a
    } else {
        match author_comment(ls.last()) {
            Some(x) => x,
            None => author_of(a, ls.drop_last()),
        }
    }
}

/// What `extract_metadata` reads from a parse tree and its source text.
pub open spec fn dta_meta(nodes: Seq<Dta>, raw: Seq<char>) -> MetaSpec {
    let m0 = MetaSpec { author: author_of(Seq::empty(), crate::text::lines(raw)), ..empty_meta() };
    match first_list(nodes) {
        None => m0,
        Some(items) => {
            let m1 = match first_symbol(items) {
                Some(s) => MetaSpec { shortname: s, ..m0 },
                None => m0,
            };
            entry_read(m1, items)
        },
    }
}

proof fn lemma_step(items: Seq<DtaNode>, i: int)
    requires
        0 <= i < items.len(),
    ensures
        nodes_view(items).len() == items.len(),
        nodes_view(items).skip(i)[0] == node_view(items[i]),
        nodes_view(items).skip(i).drop_first() == nodes_view(items).skip(i + 1),
        nodes_view(items).take(i + 1).drop_last() == nodes_view(items).take(i),
        nodes_view(items).take(i + 1).last() == node_view(items[i]),
{
    lemma_nodes_view_index(items, i);
    let nv = nodes_view(items);
    assert(nv.skip(i).drop_first() =~= nv.skip(i + 1));
    assert(nv.take(i + 1).drop_last() =~= nv.take(i));
}

proof fn lemma_skip_end(items: Seq<DtaNode>)
    ensures
        nodes_view(items).skip(items.len() as int) == Seq::<Dta>::empty(),
        nodes_view(items).take(items.len() as int) == nodes_view(items),
        nodes_view(items).skip(0) == nodes_view(items),
        nodes_view(items).take(0) == Seq::<Dta>::empty(),
{
    lemma_nodes_view_len(items);
    assert(nodes_view(items).skip(items.len() as int) =~= Seq::<Dta>::empty());
    assert(nodes_view(items).take(items.len() as int) =~= nodes_view(items));
    assert(nodes_view(items).skip(0) =~= nodes_view(items));
    assert(nodes_view(items).take(0) =~= Seq::<Dta>::empty());
}

pub fn is_list_node(n: &DtaNode) -> (b: bool)
    ensures
        b == (*n is List),
        b == (node_view(*n) is List),
{
    match n {
        DtaNode::List(_) => true,
        _ => false,
    }
}

fn is_symbol_node(n: &DtaNode) -> (b: bool)
    ensures
        b == (*n is Symbol),
        b == (node_view(*n) is Symbol),
{
    match n {
        DtaNode::Symbol(_) => true,
        _ => false,
    }
}

pub fn str_is(s: &String, lit: &str) -> (b: bool)
    ensures
        b == (s@ == lit@),
{
    *s == String::from_str(lit)
}

/// Index of the key symbol of a list's nodes, if the list has one.
pub fn get_key(nodes: &Vec<DtaNode>) -> (r: Option<usize>)
    ensures
        match r {
            Some(i) => i < nodes@.len() && nodes@[i as int] is Symbol && key_of(nodes_view(nodes@))
                == Some(nodes@[i as int]->Symbol_0@),
            None => key_of(nodes_view(nodes@)) is None,
        },
{
    let ghost nv = nodes_view(nodes@);
    proof {
        lemma_skip_end(nodes@);
    }
    let mut i: usize = 0;
    while i < nodes.len()
        invariant
            i <= nodes@.len(),
            nv == nodes_view(nodes@),
            key_of(nv.skip(i as int)) == key_of(nv),
        decreases nodes@.len() - i,
    {
        proof {
            lemma_step(nodes@, i as int);
        }
        match &nodes[i] {
            DtaNode::Symbol(_) => {
                return Some(i);
            },
            DtaNode::Whitespace(_) | DtaNode::Comment(_) => {},
            _ => {
                return None;
            },
        }
        i = i + 1;
    }
    proof {
        lemma_skip_end(nodes@);
    }
    None
}

/// The text of the first string node, or empty text.
fn get_string_value(nodes: &Vec<DtaNode>) -> (r: String)
    ensures
        r@ == first_string(nodes_view(nodes@)),
{
    let ghost nv = nodes_view(nodes@);
    proof {
        lemma_skip_end(nodes@);
    }
    let mut i: usize = 0;
    while i < nodes.len()
        invariant
            i <= nodes@.len(),
            nv == nodes_view(nodes@),
            first_string(nv.skip(i as int)) == first_string(nv),
        decreases nodes@.len() - i,
    {
        proof {
            lemma_step(nodes@, i as int);
        }
        if let DtaNode::String(s) = &nodes[i] {
            return s.clone();
        }
        i = i + 1;
    }
    proof {
        lemma_skip_end(nodes@);
    }
    String::new()
}

/// The value of the first integer node.
fn get_int_value(nodes: &Vec<DtaNode>) -> (r: Option<i32>)
    ensures
        r == first_int(nodes_view(nodes@)),
{
    let ghost nv = nodes_view(nodes@);
    proof {
        lemma_skip_end(nodes@);
    }
    let mut i: usize = 0;
    while i < nodes.len()
        invariant
            i <= nodes@.len(),
            nv == nodes_view(nodes@),
            first_int(nv.skip(i as int)) == first_int(nv),
        decreases nodes@.len() - i,
    {
        proof {
            lemma_step(nodes@, i as int);
        }
        if let DtaNode::Int(v) = &nodes[i] {
            return Some(*v);
        }
        i = i + 1;
    }
    proof {
        lemma_skip_end(nodes@);
    }
    None
}

/// The values of all integer nodes, in order.
fn get_all_ints(nodes: &Vec<DtaNode>) -> (r: Vec<i32>)
    ensures
        r@ == all_ints(nodes_view(nodes@)),
{
    let ghost nv = nodes_view(nodes@);
    proof {
        lemma_skip_end(nodes@);
    }
    let mut r: Vec<i32> = Vec::new();
    let mut i: usize = 0;
    while i < nodes.len()
        invariant
            i <= nodes@.len(),
            nv == nodes_view(nodes@),
            r@ + all_ints(nv.skip(i as int)) == all_ints(nv),
        decreases nodes@.len() - i,
    {
        proof {
            lemma_step(nodes@, i as int);
        }
        let ghost before = r@;
        if let DtaNode::Int(v) = &nodes[i] {
            r.push(*v);
            assert(r@ + all_ints(nv.skip(i + 1)) =~= before + all_ints(nv.skip(i as int)));
        }
        i = i + 1;
    }
    proof {
        lemma_skip_end(nodes@);
        assert(r@ + Seq::<i32>::empty() =~= r@);
    }
    r
}

/// The first symbol or string after the key symbol, or empty text.
fn get_symbol_value_after_key(nodes: &Vec<DtaNode>) -> (r: String)
    ensures
        r@ == value_after_key(nodes_view(nodes@), false),
{
    let ghost nv = nodes_view(nodes@);
    proof {
        lemma_skip_end(nodes@);
    }
    let mut found_key = false;
    let mut i: usize = 0;
    while i < nodes.len()
        invariant
            i <= nodes@.len(),
            nv == nodes_view(nodes@),
            value_after_key(nv.skip(i as int), found_key) == value_after_key(nv, false),
        decreases nodes@.len() - i,
    {
        proof {
            lemma_step(nodes@, i as int);
        }
        match &nodes[i] {
            DtaNode::Symbol(s) => {
                if found_key {
                    return s.clone();
                }
                found_key = true;
            },
            DtaNode::String(s) => {
                if found_key {
                    return s.clone();
                }
            },
            _ => {},
        }
        i = i + 1;
    }
    proof {
        lemma_skip_end(nodes@);
    }
    String::new()
}

fn set_rank(m: &mut SongMetadata, k: &String, v: Option<i32>)
    ensures
        final(m)@ == rank_set(old(m)@, k@, v),
{
    if str_is(k, "drum") {
        m.rank_drum = v;
    } else if str_is(k, "guitar") {
        m.rank_guitar = v;
    } else if str_is(k, "bass") {
        m.rank_bass = v;
    } else if str_is(k, "vocals") {
        m.rank_vocals = v;
    } else if str_is(k, "keys") {
        m.rank_keys = v;
    } else if str_is(k, "band") {
        m.rank_band = v;
    } else if str_is(k, "real_guitar") {
        m.rank_real_guitar = v;
    } else if str_is(k, "real_bass") {
        m.rank_real_bass = v;
    } else if str_is(k, "real_keys") {
        m.rank_real_keys = v;
    }
}

fn read_ranks(m: &mut SongMetadata, sub: &Vec<DtaNode>)
    ensures
        final(m)@ == ranks_read(old(m)@, nodes_view(sub@)),
{
    let ghost nv = nodes_view(sub@);
    let ghost m0 = m@;
    proof {
        lemma_skip_end(sub@);
    }
    let mut j: usize = 0;
    while j < sub.len()
        invariant
            j <= sub@.len(),
            nv == nodes_view(sub@),
            m0 == old(m)@,
            m@ == ranks_read(m0, nv.take(j as int)),
        decreases sub@.len() - j,
    {
        proof {
            lemma_step(sub@, j as int);
        }
        if let DtaNode::List(pair) = &sub[j] {
            match get_key(pair) {
                Some(ki) => {
                    if let DtaNode::Symbol(k) = &pair[ki] {
                        let value = get_int_value(pair);
                        set_rank(m, k, value);
                    }
                },
                None => {},
            }
        }
        j = j + 1;
    }
    proof {
        lemma_skip_end(sub@);
    }
}

fn set_field(m: &mut SongMetadata, k: &String, sub: &Vec<DtaNode>)
    ensures
        final(m)@ == field_set(old(m)@, k@, nodes_view(sub@)),
{
    if str_is(k, "name") {
        m.name = get_string_value(sub);
    } else if str_is(k, "artist") {
        m.artist = get_string_value(sub);
    } else if str_is(k, "album_name") {
        m.album_name = get_string_value(sub);
    } else if str_is(k, "album_track_number") {
        m.album_track_number = get_int_value(sub);
    } else if str_is(k, "genre") {
        m.genre = get_symbol_value_after_key(sub);
    } else if str_is(k, "sub_genre") {
        m.sub_genre = get_symbol_value_after_key(sub);
    } else if str_is(k, "vocal_gender") {
        m.vocal_gender = get_symbol_value_after_key(sub);
    } else if str_is(k, "year_released") {
        m.year_released = get_int_value(sub);
    } else if str_is(k, "song_length") {
        m.song_length = get_int_value(sub);
    } else if str_is(k, "rating") {
        m.rating = get_int_value(sub);
    } else if str_is(k, "song_id") {
        m.song_id = get_int_value(sub);
    } else if str_is(k, "game_origin") {
        m.game_origin = get_symbol_value_after_key(sub);
    } else if str_is(k, "preview") {
        let ints = get_all_ints(sub);
        if ints.len() >= 2 {
            m.preview_start = Some(ints[0]);
            m.preview_end = Some(ints[1]);
        }
    } else if str_is(k, "rank") {
        read_ranks(m, sub);
    }
}

fn author_line(line: &Vec<char>) -> (r: Option<Vec<char>>)
    ensures
        match r {
            Some(a) => author_comment(line@) == Some(a@),
            None => author_comment(line@) is None,
        },
{
    let t = crate::text::trimmed(line.as_slice());
    let p1 = crate::text::chars_of(";Song authored by ");
    let p2 = crate::text::chars_of(";Author: ");
    if crate::text::chars_starts_with(t.as_slice(), p1.as_slice()) {
        let rest = sub_chars(t.as_slice(), p1.len(), t.len());
        assert(rest@ =~= t@.skip(p1@.len() as int));
        Some(crate::text::trimmed(rest.as_slice()))
    } else if crate::text::chars_starts_with(t.as_slice(), p2.as_slice()) {
        let rest = sub_chars(t.as_slice(), p2.len(), t.len());
        assert(rest@ =~= t@.skip(p2@.len() as int));
        Some(crate::text::trimmed(rest.as_slice()))
    } else {
        None
    }
}

/// Reads song metadata from a parsed DTA tree: the first top-level list is
/// the song entry, its first symbol the shortname, and each `(key ...)` list
/// inside it sets the field it names. The author comes from the last
/// `;Song authored by` or `;Author:` comment line of the raw text.
pub fn extract_metadata(nodes: &Vec<DtaNode>, raw_text: &str) -> (meta: SongMetadata)
    ensures
        meta@ == dta_meta(nodes_view(nodes@), raw_text@),
{
    let mut meta = SongMetadata::new();
    let raw = crate::text::chars_of(raw_text);
    let ls = crate::text::split_lines(raw.as_slice());
    let ghost lv = crate::text::views(ls@);
    let mut i: usize = 0;
    assert(lv.take(0) =~= Seq::<Seq<char>>::empty());
    while i < ls.len()
        invariant
            i <= ls@.len(),
            lv == crate::text::views(ls@),
            meta@ == (MetaSpec { author: author_of(Seq::empty(), lv.take(i as int)), ..empty_meta() }),
        decreases ls@.len() - i,
    {
        proof {
            assert(lv.take(i + 1).drop_last() =~= lv.take(i as int));
            assert(lv.take(i + 1).last() == ls@[i as int]@);
        }
        match author_line(&ls[i]) {
            Some(a) => {
                meta.author = crate::text::string_from_chars(a.as_slice());
            },
            None => {},
        }
        i = i + 1;
    }
    assert(lv.take(ls@.len() as int) =~= lv);
    let ghost m0 = meta@;
    assert(m0 == (MetaSpec { author: author_of(Seq::empty(), crate::text::lines(raw_text@)), ..empty_meta() }));
    // the song entry: the first top-level list
    let ghost nv = nodes_view(nodes@);
    proof {
        lemma_skip_end(nodes@);
    }
    let mut li: usize = 0;
    while li < nodes.len() && !is_list_node(&nodes[li])
        invariant
            li <= nodes@.len(),
            nv == nodes_view(nodes@),
            first_list(nv.skip(li as int)) == first_list(nv),
            meta@ == m0,
        decreases nodes@.len() - li,
    {
        proof {
            lemma_step(nodes@, li as int);
        }
        li = li + 1;
    }
    if li >= nodes.len() {
        proof {
            lemma_skip_end(nodes@);
        }
        return meta;
    }
    proof {
        lemma_step(nodes@, li as int);
    }
    let items = match &nodes[li] {
        DtaNode::List(items) => items,
        _ => {
            return meta;
        },
    };
    let ghost iv = nodes_view(items@);
    assert(first_list(nv) == Some(iv));
    // the shortname: the first symbol of the entry
    proof {
        lemma_skip_end(items@);
    }
    let mut si: usize = 0;
    while si < items.len() && !is_symbol_node(&items[si])
        invariant
            si <= items@.len(),
            iv == nodes_view(items@),
            first_symbol(iv.skip(si as int)) == first_symbol(iv),
            meta@ == m0,
        decreases items@.len() - si,
    {
        proof {
            lemma_step(items@, si as int);
        }
        si = si + 1;
    }
    if si < items.len() {
        proof {
            lemma_step(items@, si as int);
        }
        if let DtaNode::Symbol(name) = &items[si] {
            meta.shortname = name.clone();
        }
    } else {
        proof {
            lemma_skip_end(items@);
        }
    }
    let ghost m1 = meta@;
    assert(m1 == match first_symbol(iv) {
        Some(x) => MetaSpec { shortname: x, ..m0 },
        None => m0,
    });
    proof {
        lemma_skip_end(items@);
    }
    let mut k: usize = 0;
    while k < items.len()
        invariant
            k <= items@.len(),
            iv == nodes_view(items@),
            meta@ == entry_read(m1, iv.take(k as int)),
        decreases items@.len() - k,
    {
        proof {
            lemma_step(items@, k as int);
        }
        if let DtaNode::List(sub) = &items[k] {
            match get_key(sub) {
                Some(ki) => {
                    if let DtaNode::Symbol(key) = &sub[ki] {
                        set_field(&mut meta, key, sub);
                    }
                },
                None => {},
            }
        }
        k = k + 1;
    }
    proof {
        lemma_skip_end(items@);
    }
    meta
}

// ---------------------------------------------------------------- printing what was read

/// Whether the atom at `p` prints back as its text: a closed string, or a
/// bare token that prints as written (so no quoted symbol or list, and an
/// integer in the form it is printed in).
pub open spec fn atom_prints_back(s: Seq<char>, p: int) -> bool {
    &&& 0 <= p < s.len()
    &&& s[p] != '\''
    &&& s[p] == '"' ==> string_end(s, p + 1, false) < s.len()
    &&& s[p] != '"' ==> print_node(classify(s.subrange(p, token_end(s, p)))) == s.subrange(p, token_end(s, p))
}

/// Whether the list whose `(` is at `p` prints back as its text.
pub open spec fn list_prints_back(s: Seq<char>, p: int) -> bool
    decreases s.len() - p, 0int,
{
    0 <= p < s.len() && s[p] == '(' && items_print_back(s, p + 1)
}

/// Whether the contents of a list from `q` up to its `)` print back as
/// their text.
pub open spec fn items_print_back(s: Seq<char>, q: int) -> bool
    decreases s.len() - q, 1int,
{
    if q < 0 || q > s.len() {
        false
    } else {
        let q1 = trivia(s, q).1;
        if q1 < q || q1 >= s.len() {
            false
        } else if s[q1] == ')' {
            true
        } else {
            let first_ok = if s[q1] == '(' {
                list_prints_back(s, q1)
            } else {
                atom_prints_back(s, q1)
            };
            let first = if s[q1] == '(' {
                list(s, q1)
            } else {
                atom(s, q1)
            };
            first_ok && match first {
                Ok((_, q2)) => q1 < q2 <= s.len() && items_print_back(s, q2),
                Err(()) => false,
            }
        }
    }
}

/// Whether the top-level nodes from `p` print back as the text from `p`:
/// every atom and list prints back, and no `)` stands at the top level.
pub open spec fn top_prints_back(s: Seq<char>, p: int) -> bool
    decreases s.len() - p,
{
    if p < 0 || p > s.len() {
        false
    } else {
        let q = trivia(s, p).1;
        if q < p || q >= s.len() {
            true
        } else if s[q] == ')' {
            false
        } else {
            let first_ok = if s[q] == '(' {
                list_prints_back(s, q)
            } else {
                atom_prints_back(s, q)
            };
            let first = if s[q] == '(' {
                list(s, q)
            } else {
                atom(s, q)
            };
            first_ok && match first {
                Ok((_, q2)) => q < q2 <= s.len() && top_prints_back(s, q2),
                Err(()) => false,
            }
        }
    }
}

proof fn lemma_print_concat(a: Seq<Dta>, b: Seq<Dta>)
    ensures
        print_nodes(a + b) == print_nodes(a) + print_nodes(b),
    decreases b.len(),
{
    if b.len() == 0 {
        assert(a + b =~= a);
        assert(print_nodes(a) + Seq::<char>::empty() =~= print_nodes(a));
    } else {
        lemma_print_concat(a, b.drop_last());
        assert((a + b).drop_last() =~= a + b.drop_last());
        assert((a + b).last() == b.last());
        assert(print_nodes(a) + print_nodes(b.drop_last()) + print_node(b.last()) =~= print_nodes(a) + (print_nodes(
            b.drop_last(),
        ) + print_node(b.last())));
    }
}

proof fn lemma_trivia_prints(s: Seq<char>, p: int)
    requires
        0 <= p <= s.len(),
    ensures
        p <= trivia(s, p).1 <= s.len(),
        print_nodes(trivia(s, p).0) == s.subrange(p, trivia(s, p).1),
    decreases s.len() - p,
{
    lemma_ws_end(s, p);
    let w = ws_end(s, p);
    let a = if w > p {
        seq![Dta::Whitespace(s.subrange(p, w))]
    } else {
        Seq::<Dta>::empty()
    };
    assert(print_nodes(Seq::<Dta>::empty()) == Seq::<char>::empty());
    assert(print_nodes(a) == s.subrange(p, w)) by {
        if w > p {
            assert(a.drop_last() =~= Seq::<Dta>::empty());
            assert(a.last() == Dta::Whitespace(s.subrange(p, w)));
            assert(print_nodes(a) == print_nodes(a.drop_last()) + print_node(a.last()));
            assert(Seq::<char>::empty() + s.subrange(p, w) =~= s.subrange(p, w));
        } else {
            assert(a =~= Seq::<Dta>::empty());
            assert(s.subrange(p, w) =~= Seq::<char>::empty());
        }
    }
    if 0 <= w < s.len() && s[w] == ';' {
        let c = comment_end(s, w);
        lemma_comment_end(s, w);
        if p < c <= s.len() {
            lemma_trivia_prints(s, c);
            let (r, q) = trivia(s, c);
            let b = a.push(Dta::Comment(s.subrange(w, c)));
            assert(b.drop_last() =~= a);
            assert(print_nodes(b) == print_nodes(b.drop_last()) + print_node(b.last()));
            lemma_print_concat(b, r);
            assert(s.subrange(p, w) + s.subrange(w, c) + s.subrange(c, q) =~= s.subrange(p, q));
        }
    }
}

proof fn lemma_string_end_quote(s: Seq<char>, p: int, escaped: bool)
    requires
        0 <= p,
    ensures
        string_end(s, p, escaped) < s.len() ==> p <= string_end(s, p, escaped) && s[string_end(s, p, escaped)] == '"',
    decreases s.len() - p,
{
    if p < s.len() {
        if s[p] == '\\' && !escaped {
            lemma_string_end_quote(s, p + 1, true);
        } else if s[p] == '"' && !escaped {
        } else {
            lemma_string_end_quote(s, p + 1, false);
        }
    }
}

proof fn lemma_atom_prints(s: Seq<char>, p: int)
    requires
        atom_prints_back(s, p),
        !is_delim(s[p]),
    ensures
        atom(s, p) matches Ok((n, q)) && p < q <= s.len() && print_node(n) == s.subrange(p, q),
{
    if s[p] == '"' {
        let e = string_end(s, p + 1, false);
        lemma_string_end_quote(s, p + 1, false);
        assert(seq!['"'] + s.subrange(p + 1, e) + seq!['"'] =~= s.subrange(p, e + 1));
    } else {
        lemma_token_end(s, p + 1);
        assert(token_end(s, p) > p);
    }
}

proof fn lemma_list_prints(s: Seq<char>, p: int)
    requires
        list_prints_back(s, p),
    ensures
        list(s, p) matches Ok((n, q)) && p < q <= s.len() && print_node(n) == s.subrange(p, q),
    decreases s.len() - p, 0int,
{
    lemma_items_prints(s, p + 1);
    let (ch, q) = list_items(s, p + 1)->Ok_0;
    assert(seq!['('] + (print_nodes(ch) + seq![')']) =~= s.subrange(p, q));
    assert(seq!['('] + print_nodes(ch) + seq![')'] =~= seq!['('] + (print_nodes(ch) + seq![')']));
}

proof fn lemma_items_prints(s: Seq<char>, q: int)
    requires
        items_print_back(s, q),
    ensures
        list_items(s, q) matches Ok((ch, q3)) && q < q3 <= s.len() && print_nodes(ch) + seq![')'] == s.subrange(q, q3),
    decreases s.len() - q, 1int,
{
    lemma_trivia_prints(s, q);
    lemma_trivia_end(s, q);
    let (tv, q1) = trivia(s, q);
    if s[q1] == ')' {
        assert(s.subrange(q, q1) + seq![')'] =~= s.subrange(q, q1 + 1));
    } else {
        if s[q1] == '(' {
            lemma_list_prints(s, q1);
        } else {
            lemma_atom_prints(s, q1);
        }
        let first = if s[q1] == '(' {
            list(s, q1)
        } else {
            atom(s, q1)
        };
        let (n, q2) = first->Ok_0;
        lemma_items_prints(s, q2);
        let (rest, q3) = list_items(s, q2)->Ok_0;
        let b = tv.push(n);
        assert(b.drop_last() =~= tv);
        assert(print_nodes(b) == print_nodes(b.drop_last()) + print_node(b.last()));
        lemma_print_concat(b, rest);
        assert(s.subrange(q, q1) + s.subrange(q1, q2) + (print_nodes(rest) + seq![')']) =~= s.subrange(q, q3));
        assert(print_nodes(b + rest) + seq![')'] =~= s.subrange(q, q1) + s.subrange(q1, q2) + (print_nodes(rest)
            + seq![')']));
    }
}

proof fn lemma_top_prints(s: Seq<char>, p: int)
    requires
        top_prints_back(s, p),
    ensures
        top_level(s, p) matches Ok(ns) && print_nodes(ns) == s.subrange(p, s.len() as int),
    decreases s.len() - p,
{
    lemma_trivia_prints(s, p);
    lemma_trivia_end(s, p);
    let (tv, q) = trivia(s, p);
    if q < s.len() {
        if s[q] == '(' {
            lemma_list_prints(s, q);
        } else {
            lemma_atom_prints(s, q);
        }
        let first = if s[q] == '(' {
            list(s, q)
        } else {
            atom(s, q)
        };
        let (n, q2) = first->Ok_0;
        lemma_top_prints(s, q2);
        let r = top_level(s, q2)->Ok_0;
        let b = tv.push(n);
        assert(b.drop_last() =~= tv);
        assert(print_nodes(b) == print_nodes(b.drop_last()) + print_node(b.last()));
        lemma_print_concat(b, r);
        assert(s.subrange(p, q) + s.subrange(q, q2) + s.subrange(q2, s.len() as int) =~= s.subrange(p, s.len() as int));
    }
}

/// Printing what `parse_dta` reads of a text gives the text back, where
/// every string is closed, no symbol or list is quoted with `'`, every bare
/// token that reads as an integer is written as it is printed, and no `)`
/// stands at the top level.
pub proof fn lemma_dta_prints_back(s: Seq<char>)
    requires
        top_prints_back(s, 0),
    ensures
        dta_parse(s) matches Ok(ns) && print_nodes(ns) == s,
{
    lemma_top_prints(s, 0);
    assert(s.subrange(0, s.len() as int) =~= s);
}

} // verus!
