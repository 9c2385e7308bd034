//! Character-level text helpers shared by the metadata parsers.
use vstd::prelude::*;

verus! {

/// Unicode `White_Space` property, the set that `char::is_whitespace` tests.
pub open spec fn is_ws(c: char) -> bool {
    let u = c as u32;
    ||| 0x09 <= u <= 0x0D
    ||| u == 0x20
    ||| u == 0x85
    ||| u == 0xA0
    ||| u == 0x1680
    ||| 0x2000 <= u <= 0x200A
    ||| u == 0x2028
    ||| u == 0x2029
    ||| u == 0x202F
    ||| u == 0x205F
    ||| u == 0x3000
}

pub fn is_whitespace(c: char) -> (b: bool)
    ensures
        b == is_ws(c),
{
    let u = c as u32;
    (0x09 <= u && u <= 0x0D) || u == 0x20 || u == 0x85 || u == 0xA0 || u == 0x1680 || (0x2000 <= u
        && u <= 0x200A) || u == 0x2028 || u == 0x2029 || u == 0x202F || u == 0x205F || u == 0x3000
}

/// The characters of a string slice, in order.
pub fn chars_of(s: &str) -> (v: Vec<char>)
    ensures
        v@ == s@,
{
    broadcast use vstd::string::group_string_axioms;
    let mut v: Vec<char> = Vec::new();
    for c in it: s.chars()
        invariant
            v@ == it.seq().take(it.index() as int),
    {
        v.push(c);
    }
    v
}

} // verus!
verus! {

// ---------------------------------------------------------------- trimming

pub open spec fn trim_start(s: Seq<char>) -> Seq<char>
    decreases s.len(),
{
    if s.len() > 0 && is_ws(s[0]) {
        trim_start(s.drop_first())
    } else {
        s
    }
}

pub open spec fn trim_end(s: Seq<char>) -> Seq<char>
    decreases s.len(),
{
    if s.len() > 0 && is_ws(s.last()) {
        trim_end(s.drop_last())
    } else {
        s
    }
}

/// What `str::trim` keeps: the text without leading and trailing white space.
pub open spec fn trim(s: Seq<char>) -> Seq<char> {
    trim_end(trim_start(s))
}

proof fn lemma_trim_start_skip(s: Seq<char>, k: int)
    requires
        0 <= k <= s.len(),
        forall|i: int| 0 <= i < k ==> is_ws(#[trigger] s[i]),
        k == s.len() || !is_ws(s[k]),
    ensures
        trim_start(s) == s.skip(k),
    decreases k,
{
    if k == 0 {
        assert(s.skip(0) =~= s);
    } else {
        let t = s.drop_first();
        assert forall|i: int| 0 <= i < k - 1 implies is_ws(#[trigger] t[i]) by {
            assert(t[i] == s[i + 1]);
        }
        if k - 1 < t.len() {
            assert(t[k - 1] == s[k]);
        }
        lemma_trim_start_skip(t, k - 1);
        assert(t.skip(k - 1) =~= s.skip(k));
    }
}

proof fn lemma_trim_end_take(s: Seq<char>, k: int)
    requires
        0 <= k <= s.len(),
        forall|i: int| k <= i < s.len() ==> is_ws(#[trigger] s[i]),
        k == 0 || !is_ws(s[k - 1]),
    ensures
        trim_end(s) == s.take(k),
    decreases s.len() - k,
{
    if k == s.len() {
        assert(s.take(k) =~= s);
    } else {
        let t = s.drop_last();
        assert forall|i: int| k <= i < t.len() implies is_ws(#[trigger] t[i]) by {
            assert(t[i] == s[i]);
        }
        if k > 0 {
            assert(t[k - 1] == s[k - 1]);
        }
        lemma_trim_end_take(t, k);
        assert(t.take(k) =~= s.take(k));
    }
}

/// Bounds `(a, b)` such that `s[a..b]` is `s` trimmed.
pub fn trim_bounds(s: &[char]) -> (r: (usize, usize))
    ensures
        r.0 <= r.1 <= s@.len(),
        s@.subrange(r.0 as int, r.1 as int) == trim(s@),
{
    let n = s.len();
    let mut a: usize = 0;
    while a < n && is_whitespace(s[a])
        invariant
            a <= n,
            n == s@.len(),
            forall|i: int| 0 <= i < a ==> is_ws(#[trigger] s@[i]),
        decreases n - a,
    {
        a = a + 1;
    }
    proof {
        lemma_trim_start_skip(s@, a as int);
    }
    let ghost t = s@.skip(a as int);
    let mut b: usize = n;
    while b > a && is_whitespace(s[b - 1])
        invariant
            a <= b <= n,
            n == s@.len(),
            forall|i: int| b <= i < n ==> is_ws(#[trigger] s@[i]),
        decreases b,
    {
        b = b - 1;
    }
    proof {
        assert forall|i: int| b - a <= i < t.len() implies is_ws(#[trigger] t[i]) by {
            assert(t[i] == s@[i + a]);
        }
        if b > a {
            assert(t[b - a - 1] == s@[b - 1]);
        }
        lemma_trim_end_take(t, b - a);
        assert(t.take(b - a) =~= s@.subrange(a as int, b as int));
    }
    (a, b)
}

/// A copy of `s[a..b]`.
pub fn sub_chars(s: &[char], a: usize, b: usize) -> (r: Vec<char>)
    requires
        a <= b <= s@.len(),
    ensures
        r@ == s@.subrange(a as int, b as int),
{
    let mut r: Vec<char> = Vec::new();
    let mut i = a;
    while i < b
        invariant
            a <= i <= b <= s@.len(),
            r@ == s@.subrange(a as int, i as int),
        decreases b - i,
    {
        r.push(s[i]);
        i = i + 1;
        assert(r@ =~= s@.subrange(a as int, i as int));
    }
    r
}

/// `s` trimmed of white space at both ends.
pub fn trimmed(s: &[char]) -> (r: Vec<char>)
    ensures
        r@ == trim(s@),
{
    let (a, b) = trim_bounds(s);
    sub_chars(s, a, b)
}

// ---------------------------------------------------------------- searching

/// Index of the first `c` in `s`, or the length of `s` when there is none.
pub open spec fn first_index(s: Seq<char>, c: char) -> int
    decreases s.len(),
{
    if s.len() == 0 {
        0
    } else if s[0] == c {
        0
    } else {
        1 + first_index(s.drop_first(), c)
    }
}

pub proof fn lemma_first_index(s: Seq<char>, c: char, k: int)
    requires
        0 <= k <= s.len(),
        forall|i: int| 0 <= i < k ==> #[trigger] s[i] != c,
        k == s.len() || s[k] == c,
    ensures
        first_index(s, c) == k,
    decreases k,
{
    if k > 0 {
        let t = s.drop_first();
        assert forall|i: int| 0 <= i < k - 1 implies #[trigger] t[i] != c by {
            assert(t[i] == s[i + 1]);
        }
        if k - 1 < t.len() {
            assert(t[k - 1] == s[k]);
        }
        lemma_first_index(t, c, k - 1);
    }
}

pub proof fn lemma_first_index_bounds(s: Seq<char>, c: char)
    ensures
        0 <= first_index(s, c) <= s.len(),
        first_index(s, c) < s.len() ==> s[first_index(s, c)] == c,
        forall|i: int| 0 <= i < first_index(s, c) ==> #[trigger] s[i] != c,
    decreases s.len(),
{
    if s.len() > 0 && s[0] != c {
        let t = s.drop_first();
        lemma_first_index_bounds(t, c);
        assert forall|i: int| 0 <= i < first_index(s, c) implies #[trigger] s[i] != c by {
            if i > 0 {
                assert(s[i] == t[i - 1]);
            }
        }
    }
}

/// Index of the first `c` in `s[from..]`, counted from the start of `s`, or `s.len()`.
pub fn find_char_from(s: &[char], c: char, from: usize) -> (r: usize)
    requires
        from <= s@.len(),
    ensures
        from <= r <= s@.len(),
        r == from + first_index(s@.skip(from as int), c),
        r < s@.len() ==> s@[r as int] == c,
        forall|i: int| from <= i < r ==> #[trigger] s@[i] != c,
{
    let mut i = from;
    while i < s.len() && s[i] != c
        invariant
            from <= i <= s@.len(),
            forall|j: int| from <= j < i ==> #[trigger] s@[j] != c,
        decreases s@.len() - i,
    {
        i = i + 1;
    }
    proof {
        let t = s@.skip(from as int);
        assert forall|j: int| 0 <= j < i - from implies #[trigger] t[j] != c by {
            assert(t[j] == s@[j + from]);
        }
        if i < s@.len() {
            assert(t[i - from] == s@[i as int]);
        }
        lemma_first_index(t, c, i - from);
    }
    i
}

pub open spec fn starts_with(s: Seq<char>, p: Seq<char>) -> bool {
    p.len() <= s.len() && s.take(p.len() as int) == p
}

pub open spec fn ends_with(s: Seq<char>, p: Seq<char>) -> bool {
    p.len() <= s.len() && s.skip(s.len() - p.len()) == p
}

pub fn chars_starts_with(s: &[char], p: &[char]) -> (b: bool)
    ensures
        b == starts_with(s@, p@),
{
    if p.len() > s.len() {
        return false;
    }
    let mut i: usize = 0;
    while i < p.len()
        invariant
            p@.len() <= s@.len(),
            i <= p@.len(),
            forall|j: int| 0 <= j < i ==> s@[j] == p@[j],
        decreases p@.len() - i,
    {
        if s[i] != p[i] {
            assert(s@.take(p@.len() as int)[i as int] != p@[i as int]);
            return false;
        }
        i = i + 1;
    }
    assert(s@.take(p@.len() as int) =~= p@);
    true
}

pub fn chars_ends_with(s: &[char], p: &[char]) -> (b: bool)
    ensures
        b == ends_with(s@, p@),
{
    if p.len() > s.len() {
        return false;
    }
    let off = s.len() - p.len();
    let mut i: usize = 0;
    while i < p.len()
        invariant
            p@.len() <= s@.len(),
            off == s@.len() - p@.len(),
            off + p@.len() == s@.len(),
            s@.len() <= usize::MAX,
            i <= p@.len(),
            forall|j: int| 0 <= j < i ==> s@[off + j] == p@[j],
        decreases p@.len() - i,
    {
        if s[off + i] != p[i] {
            assert(s@.skip(off as int)[i as int] != p@[i as int]);
            return false;
        }
        i = i + 1;
    }
    assert(s@.skip(off as int) =~= p@);
    true
}

pub fn chars_eq(s: &[char], t: &[char]) -> (b: bool)
    ensures
        b == (s@ == t@),
{
    if s.len() != t.len() {
        return false;
    }
    let mut i: usize = 0;
    while i < s.len()
        invariant
            s@.len() == t@.len(),
            i <= s@.len(),
            forall|j: int| 0 <= j < i ==> s@[j] == t@[j],
        decreases s@.len() - i,
    {
        if s[i] != t[i] {
            return false;
        }
        i = i + 1;
    }
    assert(s@ =~= t@);
    true
}

/// Whether the characters of `s` are exactly those of the literal `lit`.
pub fn chars_eq_str(s: &[char], lit: &str) -> (b: bool)
    ensures
        b == (s@ == lit@),
{
    let t = chars_of(lit);
    chars_eq(s, t.as_slice())
}

} // verus!
verus! {

// ---------------------------------------------------------------- lines

/// The texts that a list of character vectors holds.
pub open spec fn views(v: Seq<Vec<char>>) -> Seq<Seq<char>> {
    v.map_values(|l: Vec<char>| l@)
}

pub open spec fn strip_cr(s: Seq<char>) -> Seq<char> {
    if s.len() > 0 && s.last() == '\r' {
        s.drop_last()
    } else {
        s
    }
}

/// What `str::lines` yields: the pieces between `\n`s, each without a trailing
/// `\r` before its `\n`; a final `\n` opens no further line.
pub open spec fn lines(s: Seq<char>) -> Seq<Seq<char>>
    decreases s.len(),
{
    if s.len() == 0 {
        Seq::empty()
    } else {
        let i = first_index(s, '\n');
        if i >= s.len() || i < 0 {
            seq![s]
        } else {
            seq![strip_cr(s.take(i))] + lines(s.skip(i + 1))
        }
    }
}

/// The lines of `s`, as `str::lines` splits them.
pub fn split_lines(s: &[char]) -> (r: Vec<Vec<char>>)
    ensures
        views(r@) == lines(s@),
{
    let mut r: Vec<Vec<char>> = Vec::new();
    let mut pos: usize = 0;
    let n = s.len();
    proof {
        assert(s@.skip(0) =~= s@);
        assert(views(r@) + lines(s@) =~= lines(s@));
    }
    while pos < n
        invariant
            pos <= n,
            n == s@.len(),
            views(r@) + lines(s@.skip(pos as int)) == lines(s@),
        decreases n - pos,
    {
        let nl = find_char_from(s, '\n', pos);
        let ghost rest = s@.skip(pos as int);
        proof {
            lemma_first_index_bounds(rest, '\n');
        }
        let ghost old_r = views(r@);
        if nl == n {
            let line = sub_chars(s, pos, n);
            r.push(line);
            proof {
                assert(line@ =~= rest);
                assert(views(r@) =~= old_r.push(rest));
                assert(s@.skip(n as int) =~= Seq::<char>::empty());
                assert(lines(rest) == seq![rest]);
            }
            pos = n;
        } else {
            let mut end = nl;
            if end > pos && s[end - 1] == '\r' {
                end = end - 1;
            }
            let line = sub_chars(s, pos, end);
            proof {
                let i = nl - pos;
                assert(rest.take(i) =~= s@.subrange(pos as int, nl as int));
                assert(line@ =~= strip_cr(rest.take(i)));
                assert(rest.skip(i + 1) =~= s@.skip(nl + 1));
            }
            r.push(line);
            proof {
                assert(views(r@) =~= old_r.push(line@));
                assert(lines(rest) == seq![line@] + lines(s@.skip(nl + 1)));
                assert(views(r@) + lines(s@.skip(nl + 1)) =~= old_r + lines(rest));
            }
            pos = nl + 1;
        }
    }
    proof {
        assert(s@.skip(n as int) =~= Seq::<char>::empty());
        assert(views(r@) + Seq::<Seq<char>>::empty() =~= views(r@));
    }
    r
}

/// `(key, value)` halves around the first `=`, as `str::split_once('=')` returns them.
pub open spec fn split_once_eq(s: Seq<char>) -> Option<(Seq<char>, Seq<char>)> {
    let i = first_index(s, '=');
    if 0 <= i < s.len() {
        Some((s.take(i), s.skip(i + 1)))
    } else {
        None
    }
}

pub fn split_once_char(s: &[char], c: char) -> (r: Option<(Vec<char>, Vec<char>)>)
    requires
        c == '=',
    ensures
        match r {
            Some((a, b)) => split_once_eq(s@) == Some((a@, b@)),
            None => split_once_eq(s@) is None,
        },
{
    let i = find_char_from(s, c, 0);
    proof {
        assert(s@.skip(0) =~= s@);
    }
    if i < s.len() {
        let a = sub_chars(s, 0, i);
        let b = sub_chars(s, i + 1, s.len());
        proof {
            assert(a@ =~= s@.take(i as int));
            assert(b@ =~= s@.skip(i + 1));
        }
        Some((a, b))
    } else {
        None
    }
}

// ---------------------------------------------------------------- numbers

pub open spec fn is_digit(c: char) -> bool {
    '0' <= c <= '9'
}

pub open spec fn all_digits(s: Seq<char>) -> bool {
    forall|i: int| 0 <= i < s.len() ==> is_digit(#[trigger] s[i])
}

pub open spec fn digit_value(c: char) -> int {
    c as int - '0' as int
}

/// The number that a run of decimal digits spells.
pub open spec fn digits_value(s: Seq<char>) -> int
    decreases s.len(),
{
    if s.len() == 0 {
        0
    } else {
        digits_value(s.drop_last()) * 10 + digit_value(s.last())
    }
}

/// The integer that `s` spells in Rust's `FromStr` syntax for integers:
/// an optional `+` or `-`, then one or more decimal digits.
pub open spec fn parse_int(s: Seq<char>) -> Option<int> {
    if s.len() > 0 && (s[0] == '+' || s[0] == '-') {
        let d = s.drop_first();
        if d.len() > 0 && all_digits(d) {
            Some(if s[0] == '-' { -digits_value(d) } else { digits_value(d) })
        } else {
            None
        }
    } else if s.len() > 0 && all_digits(s) {
        Some(digits_value(s))
    } else {
        None
    }
}

/// What `s.parse::<i32>()` gives, as an `Option`.
pub open spec fn parse_i32(s: Seq<char>) -> Option<i32> {
    match parse_int(s) {
        Some(v) => if i32::MIN <= v <= i32::MAX { Some(v as i32) } else { None },
        None => None,
    }
}

/// What `s.parse::<i64>()` gives, as an `Option`.
pub open spec fn parse_i64(s: Seq<char>) -> Option<i64> {
    match parse_int(s) {
        Some(v) => if i64::MIN <= v <= i64::MAX { Some(v as i64) } else { None },
        None => None,
    }
}

/// What `s.parse::<u64>()` gives, as an `Option` (a `-` sign is refused).
pub open spec fn parse_u64(s: Seq<char>) -> Option<u64> {
    match parse_int(s) {
        Some(v) => if 0 <= v <= u64::MAX && !(s.len() > 0 && s[0] == '-') {
            Some(v as u64)
        } else {
            None
        },
        None => None,
    }
}

proof fn lemma_digits_value_nonneg(s: Seq<char>)
    requires
        all_digits(s),
    ensures
        digits_value(s) >= 0,
    decreases s.len(),
{
    if s.len() > 0 {
        lemma_digits_value_nonneg(s.drop_last());
    }
}

proof fn lemma_digits_value_grows(s: Seq<char>, k: int)
    requires
        all_digits(s),
        0 <= k <= s.len(),
    ensures
        digits_value(s.take(k)) <= digits_value(s),
    decreases s.len() - k,
{
    if k < s.len() {
        let t = s.drop_last();
        assert(t.take(k) =~= s.take(k));
        lemma_digits_value_nonneg(t);
        lemma_digits_value_grows(t, k);
    } else {
        assert(s.take(k) =~= s);
    }
}

/// The value of the digits `s[a..b]` when all are digits and the value is at
/// most `limit`; `None` otherwise.
pub fn digits_bounded(s: &[char], a: usize, b: usize, limit: u64) -> (r: Option<u64>)
    requires
        a <= b <= s@.len(),
    ensures
        match r {
            Some(v) => all_digits(s@.subrange(a as int, b as int)) && v == digits_value(
                s@.subrange(a as int, b as int),
            ) && v <= limit,
            None => !all_digits(s@.subrange(a as int, b as int)) || digits_value(
                s@.subrange(a as int, b as int),
            ) > limit,
        },
{
    let ghost full = s@.subrange(a as int, b as int);
    let mut acc: u64 = 0;
    let mut i = a;
    let mut over = false;
    while i < b
        invariant
            a <= i <= b <= s@.len(),
            full == s@.subrange(a as int, b as int),
            forall|j: int| a <= j < i ==> is_digit(#[trigger] s@[j]),
            !over ==> acc == digits_value(s@.subrange(a as int, i as int)) && acc <= limit,
            over ==> digits_value(s@.subrange(a as int, i as int)) > limit,
        decreases b - i,
    {
        let c = s[i];
        if !('0' <= c && c <= '9') {
            assert(!is_digit(full[i - a]));
            return None;
        }
        let ghost pre = s@.subrange(a as int, i as int);
        let ghost nxt = s@.subrange(a as int, i + 1);
        proof {
            assert(nxt.drop_last() =~= pre);
            assert(nxt.last() == c);
            assert forall|j: int| 0 <= j < pre.len() implies is_digit(#[trigger] pre[j]) by {
                assert(pre[j] == s@[a + j]);
            }
            lemma_digits_value_nonneg(pre);
        }
        let d = (c as u32 - '0' as u32) as u64;
        if !over {
            if d > limit {
                over = true;
                assert(acc * 10 + d > limit) by (nonlinear_arith)
                    requires
                        d > limit,
                        acc >= 0,
                ;
            } else if acc > (limit - d) / 10 {
                over = true;
                assert(acc * 10 + d > limit) by (nonlinear_arith)
                    requires
                        acc > (limit - d) / 10,
                        d <= limit,
                ;
            } else {
                assert(acc * 10 + d <= limit) by (nonlinear_arith)
                    requires
                        acc <= (limit - d) / 10,
                        d <= 9,
                ;
                acc = acc * 10 + d;
            }
        }
        i = i + 1;
    }
    proof {
        assert forall|j: int| 0 <= j < full.len() implies is_digit(#[trigger] full[j]) by {
            assert(full[j] == s@[a + j]);
        }
    }
    if over {
        None
    } else {
        Some(acc)
    }
}

} // verus!
verus! {

proof fn lemma_drop_first_subrange(s: Seq<char>)
    requires
        s.len() > 0,
    ensures
        s.drop_first() == s.subrange(1, s.len() as int),
{
    assert(s.drop_first() =~= s.subrange(1, s.len() as int));
}

/// `s.parse::<i32>().ok()` over the characters of `s`.
pub fn parse_i32_chars(s: &[char]) -> (r: Option<i32>)
    ensures
        r == parse_i32(s@),
{
    let n = s.len();
    if n == 0 {
        return None;
    }
    proof {
        assert(s@.subrange(0, n as int) =~= s@);
        lemma_drop_first_subrange(s@);
    }
    if s[0] == '-' {
        if n == 1 {
            return None;
        }
        match digits_bounded(s, 1, n, 2147483648) {
            Some(v) => {
                if v == 2147483648 {
                    Some(i32::MIN)
                } else {
                    Some(-(v as i32))
                }
            },
            None => None,
        }
    } else if s[0] == '+' {
        if n == 1 {
            return None;
        }
        match digits_bounded(s, 1, n, 2147483647) {
            Some(v) => Some(v as i32),
            None => None,
        }
    } else {
        match digits_bounded(s, 0, n, 2147483647) {
            Some(v) => Some(v as i32),
            None => None,
        }
    }
}

/// `s.parse::<i64>().ok()` over the characters of `s`.
pub fn parse_i64_chars(s: &[char]) -> (r: Option<i64>)
    ensures
        r == parse_i64(s@),
{
    let n = s.len();
    if n == 0 {
        return None;
    }
    proof {
        assert(s@.subrange(0, n as int) =~= s@);
        lemma_drop_first_subrange(s@);
    }
    if s[0] == '-' {
        if n == 1 {
            return None;
        }
        match digits_bounded(s, 1, n, 9223372036854775808) {
            Some(v) => {
                if v == 9223372036854775808 {
                    Some(i64::MIN)
                } else {
                    Some(-(v as i64))
                }
            },
            None => None,
        }
    } else if s[0] == '+' {
        if n == 1 {
            return None;
        }
        match digits_bounded(s, 1, n, 9223372036854775807) {
            Some(v) => Some(v as i64),
            None => None,
        }
    } else {
        match digits_bounded(s, 0, n, 9223372036854775807) {
            Some(v) => Some(v as i64),
            None => None,
        }
    }
}

/// `s.parse::<u64>().ok()` over the characters of `s`.
pub fn parse_u64_chars(s: &[char]) -> (r: Option<u64>)
    ensures
        r == parse_u64(s@),
{
    let n = s.len();
    if n == 0 {
        return None;
    }
    proof {
        assert(s@.subrange(0, n as int) =~= s@);
        lemma_drop_first_subrange(s@);
    }
    if s[0] == '-' {
        if n == 1 {
            return None;
        }
        match digits_bounded(s, 1, n, 0) {
            Some(v) => None,
            None => None,
        }
    } else if s[0] == '+' {
        if n == 1 {
            return None;
        }
        digits_bounded(s, 1, n, u64::MAX)
    } else {
        digits_bounded(s, 0, n, u64::MAX)
    }
}

// ---------------------------------------------------------------- printing numbers

pub open spec fn digit_char(d: int) -> char {
    (48 + d) as char
}

/// Decimal digits of `n`, most significant first, as `to_string` prints them.
pub open spec fn dec_digits(n: nat) -> Seq<char>
    decreases n,
{
    if n < 10 {
        seq![digit_char(n as int)]
    } else {
        dec_digits(n / 10).push(digit_char((n % 10) as int))
    }
}

/// How `to_string` prints an integer.
pub open spec fn int_to_dec(i: int) -> Seq<char> {
    if i < 0 {
        seq!['-'] + dec_digits((-i) as nat)
    } else {
        dec_digits(i as nat)
    }
}

proof fn lemma_dec_digits(n: nat)
    ensures
        dec_digits(n).len() > 0,
        all_digits(dec_digits(n)),
        digits_value(dec_digits(n)) == n,
    decreases n,
{
    let c = digit_char((n % 10) as int);
    assert(c as int == 48 + n % 10);
    assert(digit_value(c) == n % 10);
    if n >= 10 {
        lemma_dec_digits(n / 10);
        let p = dec_digits(n / 10);
        assert(dec_digits(n).drop_last() =~= p);
        assert(dec_digits(n).last() == c);
        assert(n == (n / 10) * 10 + n % 10) by (nonlinear_arith);
        assert(digits_value(dec_digits(n)) == digits_value(p) * 10 + digit_value(c));
        assert forall|i: int| 0 <= i < dec_digits(n).len() implies is_digit(#[trigger] dec_digits(n)[i]) by {
            if i < p.len() {
                assert(dec_digits(n)[i] == p[i]);
            }
        }
    } else {
        assert(dec_digits(n).drop_last() =~= Seq::<char>::empty());
        assert(dec_digits(n).last() == c);
        assert(n % 10 == n);
        assert(digits_value(dec_digits(n)) == digits_value(Seq::<char>::empty()) * 10 + digit_value(c));
    }
}

/// Parsing what `to_string` prints for an `i32` gives the number back.
pub proof fn lemma_parse_i32_dec(x: i32)
    ensures
        parse_i32(int_to_dec(x as int)) == Some(x),
        int_to_dec(x as int).len() > 0,
        is_digit(int_to_dec(x as int).last()),
        int_to_dec(x as int)[0] == '-' || is_digit(int_to_dec(x as int)[0]),
{
    let s = int_to_dec(x as int);
    if x < 0 {
        let d = dec_digits((-x) as nat);
        lemma_dec_digits((-x) as nat);
        assert(s.drop_first() =~= d);
        assert(s.last() == d.last());
        assert(d.last() == d[d.len() - 1]);
    } else {
        lemma_dec_digits(x as nat);
        assert(s[0] == s[0]);
        assert(s.last() == s[s.len() - 1]);
    }
}

pub open spec fn hex_char(d: int) -> char {
    if d < 10 {
        (48 + d) as char
    } else {
        (55 + d) as char
    }
}

/// Upper-case hexadecimal digits of `n`, as `{:X}` prints them.
pub open spec fn hex_digits(n: nat) -> Seq<char>
    decreases n,
{
    if n < 16 {
        seq![hex_char(n as int)]
    } else {
        hex_digits(n / 16).push(hex_char((n % 16) as int))
    }
}

pub fn u64_to_dec(n: u64) -> (r: Vec<char>)
    ensures
        r@ == dec_digits(n as nat),
    decreases n,
{
    if n < 10 {
        let c = (48u8 + n as u8) as char;
        let mut r: Vec<char> = Vec::new();
        r.push(c);
        assert(r@ =~= seq![digit_char(n as int)]);
        r
    } else {
        let mut r = u64_to_dec(n / 10);
        let c = (48u8 + (n % 10) as u8) as char;
        r.push(c);
        r
    }
}

pub fn u64_to_hex(n: u64) -> (r: Vec<char>)
    ensures
        r@ == hex_digits(n as nat),
    decreases n,
{
    let d = (n % 16) as u8;
    let c = if d < 10 {
        (48u8 + d) as char
    } else {
        (55u8 + d) as char
    };
    if n < 16 {
        let mut r: Vec<char> = Vec::new();
        r.push(c);
        assert(r@ =~= seq![hex_char(n as int)]);
        r
    } else {
        let mut r = u64_to_hex(n / 16);
        r.push(c);
        r
    }
}

pub fn i64_to_dec(i: i64) -> (r: Vec<char>)
    ensures
        r@ == int_to_dec(i as int),
{
    if i < 0 {
        let m: u64 = if i == i64::MIN {
            9223372036854775808u64
        } else {
            (-i) as u64
        };
        let d = u64_to_dec(m);
        let mut r: Vec<char> = Vec::new();
        r.push('-');
        let mut k: usize = 0;
        while k < d.len()
            invariant
                k <= d@.len(),
                r@ == seq!['-'] + d@.take(k as int),
            decreases d@.len() - k,
        {
            r.push(d[k]);
            k = k + 1;
            assert(r@ =~= seq!['-'] + d@.take(k as int));
        }
        assert(d@.take(d@.len() as int) =~= d@);
        r
    } else {
        u64_to_dec(i as u64)
    }
}

// ---------------------------------------------------------------- case

pub open spec fn ascii_lower_char(c: char) -> char {
    if 'A' <= c <= 'Z' {
        ((c as u32) + 32) as char
    } else {
        c
    }
}

pub open spec fn ascii_lower(s: Seq<char>) -> Seq<char> {
    s.map_values(|c: char| ascii_lower_char(c))
}

pub open spec fn is_ascii_text(s: Seq<char>) -> bool {
    forall|i: int| 0 <= i < s.len() ==> (#[trigger] s[i] as u32) < 128
}

/// Whether `s` and `t` are equal ignoring ASCII case, as `eq_ignore_ascii_case` tests.
pub open spec fn eq_ignore_ascii_case(s: Seq<char>, t: Seq<char>) -> bool {
    ascii_lower(s) == ascii_lower(t)
}

pub fn lower_ascii_char(c: char) -> (r: char)
    ensures
        r == ascii_lower_char(c),
{
    if 'A' <= c && c <= 'Z' {
        ((c as u8) + 32) as char
    } else {
        c
    }
}

pub fn chars_eq_ignore_ascii_case(s: &[char], t: &[char]) -> (b: bool)
    ensures
        b == eq_ignore_ascii_case(s@, t@),
{
    if s.len() != t.len() {
        assert(ascii_lower(s@).len() != ascii_lower(t@).len());
        return false;
    }
    let mut i: usize = 0;
    while i < s.len()
        invariant
            s@.len() == t@.len(),
            i <= s@.len(),
            forall|j: int| 0 <= j < i ==> ascii_lower_char(s@[j]) == ascii_lower_char(t@[j]),
        decreases s@.len() - i,
    {
        if lower_ascii_char(s[i]) != lower_ascii_char(t[i]) {
            assert(ascii_lower(s@)[i as int] != ascii_lower(t@)[i as int]);
            return false;
        }
        i = i + 1;
    }
    assert(ascii_lower(s@) =~= ascii_lower(t@));
    true
}

/// What `str::to_lowercase` returns for a text that is not all ASCII: full
/// Unicode lower-casing.
pub uninterp spec fn unicode_lowercase(s: Seq<char>) -> Seq<char>;

/// What `str::to_lowercase` returns: on ASCII text the ASCII lower-casing,
/// as the standard library documents, else full Unicode lower-casing.
pub open spec fn lowercase(s: Seq<char>) -> Seq<char> {
    if is_ascii_text(s) {
        ascii_lower(s)
    } else {
        unicode_lowercase(s)
    }
}

/// What `str::to_uppercase` returns for a text: full Unicode upper-casing.
pub uninterp spec fn uppercase(s: Seq<char>) -> Seq<char>;

/// `str::to_lowercase`. On ASCII text it is the ASCII lower-casing, as the
/// standard library documents; on other text its result is named
/// `unicode_lowercase`.
#[verifier::external_body]
pub(crate) fn str_to_lowercase(s: &str) -> (r: String)
    ensures
        r@ == lowercase(s@),
        is_ascii_text(s@) ==> r@ == ascii_lower(s@),
        !is_ascii_text(s@) ==> r@ == unicode_lowercase(s@),
{
    s.to_lowercase()
}

pub open spec fn ascii_upper_char(c: char) -> char {
    if 'a' <= c <= 'z' {
        ((c as u32) - 32) as char
    } else {
        c
    }
}

/// `str::to_uppercase`. Its result is named `uppercase`; on ASCII text it is
/// the ASCII upper-casing, as the standard library documents.
#[verifier::external_body]
pub(crate) fn str_to_uppercase(s: &str) -> (r: String)
    ensures
        r@ == uppercase(s@),
        is_ascii_text(s@) ==> r@ == s@.map_values(|c: char| ascii_upper_char(c)),
{
    s.to_uppercase()
}

/// A `String` holding exactly the characters of `v` (`Iterator::collect`).
#[verifier::external_body]
pub(crate) fn string_from_chars(v: &[char]) -> (s: String)
    ensures
        s@ == v@,
{
    v.iter().collect()
}

/// Lower-cases text held as characters, as `str::to_lowercase` does.
pub fn lowercase_chars(v: &[char]) -> (r: Vec<char>)
    ensures
        r@ == lowercase(v@),
        is_ascii_text(v@) ==> r@ == ascii_lower(v@),
{
    let s = string_from_chars(v);
    let l = str_to_lowercase(s.as_str());
    chars_of(l.as_str())
}

/// Upper-cases text held as characters, as `str::to_uppercase` does.
pub fn uppercase_chars(v: &[char]) -> (r: Vec<char>)
    ensures
        r@ == uppercase(v@),
        is_ascii_text(v@) ==> r@ == v@.map_values(|c: char| ascii_upper_char(c)),
{
    let s = string_from_chars(v);
    let u = str_to_uppercase(s.as_str());
    chars_of(u.as_str())
}

} // verus!
verus! {

/// Appends the characters of `s` to `v`.
pub fn extend_chars(v: &mut Vec<char>, s: &[char])
    ensures
        final(v)@ == old(v)@ + s@,
{
    let ghost start = v@;
    let mut i: usize = 0;
    while i < s.len()
        invariant
            i <= s@.len(),
            v@ == start + s@.take(i as int),
        decreases s@.len() - i,
    {
        v.push(s[i]);
        i = i + 1;
        assert(v@ =~= start + s@.take(i as int));
    }
    assert(s@.take(s@.len() as int) =~= s@);
}

/// A copy of `s`.
pub fn copy_chars(s: &[char]) -> (r: Vec<char>)
    ensures
        r@ == s@,
{
    let r = sub_chars(s, 0, s.len());
    assert(s@.subrange(0, s@.len() as int) =~= s@);
    r
}

} // verus!

verus! {

// ---------------------------------------------------------------- splitting

/// What `str::split(c)` yields: the pieces between the `c`s, empty pieces
/// included.
pub open spec fn split_on(s: Seq<char>, c: char) -> Seq<Seq<char>>
    decreases s.len(),
{
    let i = first_index(s, c);
    if i >= s.len() || i < 0 {
        seq![s]
    } else {
        seq![s.take(i)] + split_on(s.skip(i + 1), c)
    }
}

/// The pieces of `s` between the `c`s, as `str::split` gives them.
pub fn split_chars(s: &[char], c: char) -> (r: Vec<Vec<char>>)
    ensures
        views(r@) == split_on(s@, c),
{
    let mut r: Vec<Vec<char>> = Vec::new();
    let mut pos: usize = 0;
    assert(s@.skip(0) =~= s@);
    loop
        invariant
            pos <= s@.len(),
            views(r@) + split_on(s@.skip(pos as int), c) == split_on(s@, c),
        decreases s@.len() - pos,
    {
        let i = find_char_from(s, c, pos);
        let piece = sub_chars(s, pos, i);
        let ghost t = s@.skip(pos as int);
        let ghost before = views(r@);
        proof {
            lemma_first_index_bounds(t, c);
            assert(t.take(i - pos) =~= piece@);
        }
        r.push(piece);
        assert(views(r@) =~= before.push(piece@));
        if i == s.len() {
            assert(split_on(t, c) == seq![t]);
            assert(t =~= piece@);
            assert(before + seq![t] =~= views(r@));
            return r;
        }
        assert(t.skip(i - pos + 1) =~= s@.skip(i + 1));
        assert(before + (seq![piece@] + split_on(s@.skip(i + 1), c)) =~= views(r@) + split_on(
            s@.skip(i + 1),
            c,
        ));
        pos = i + 1;
    }
}

} // verus!

verus! {

// ---------------------------------------------------------------- substrings

/// Whether `p` occurs in `s` at `i`.
pub open spec fn occurs_at(s: Seq<char>, p: Seq<char>, i: int) -> bool {
    0 <= i && i + p.len() <= s.len() && s.subrange(i, i + p.len()) == p
}

/// The first index at or after `i` where `p` occurs in `s`, as `str::find`
/// gives it (counted in characters).
pub open spec fn find_from(s: Seq<char>, p: Seq<char>, i: int) -> Option<int>
    decreases s.len() + 1 - i,
{
    if i < 0 || i + p.len() > s.len() {
        None
    } else if occurs_at(s, p, i) {
        Some(i)
    } else {
        find_from(s, p, i + 1)
    }
}

pub open spec fn contains_text(s: Seq<char>, p: Seq<char>) -> bool {
    find_from(s, p, 0) is Some
}

pub proof fn lemma_find_from_bounds(s: Seq<char>, p: Seq<char>, i: int)
    ensures
        find_from(s, p, i) matches Some(k) ==> i <= k && k + p.len() <= s.len() && occurs_at(s, p, k),
    decreases s.len() + 1 - i,
{
    if !(i < 0 || i + p.len() > s.len()) && !occurs_at(s, p, i) {
        lemma_find_from_bounds(s, p, i + 1);
    }
}

pub fn occurs_at_index(s: &[char], p: &[char], i: usize) -> (b: bool)
    ensures
        b == occurs_at(s@, p@, i as int),
{
    if i > s.len() || p.len() > s.len() - i {
        return false;
    }
    let mut k: usize = 0;
    while k < p.len()
        invariant
            i + p.len() <= s.len(),
            k <= p@.len(),
            forall|j: int| 0 <= j < k ==> s@[i + j] == #[trigger] p@[j],
        decreases p@.len() - k,
    {
        if s[i + k] != p[k] {
            assert(s@.subrange(i as int, i + p@.len())[k as int] != p@[k as int]);
            return false;
        }
        k = k + 1;
    }
    assert(s@.subrange(i as int, i + p@.len()) =~= p@);
    true
}

/// The first index at or after `from` where `p` occurs in `s`.
pub fn find_text(s: &[char], p: &[char], from: usize) -> (r: Option<usize>)
    ensures
        match r {
            Some(k) => find_from(s@, p@, from as int) == Some(k as int),
            None => find_from(s@, p@, from as int) is None,
        },
{
    if p.len() == 0 {
        if from <= s.len() {
            assert(s@.subrange(from as int, from as int) =~= p@);
            return Some(from);
        }
        return None;
    }
    let mut i = from;
    while i <= s.len() && p.len() <= s.len() - i
        invariant
            from <= i,
            p@.len() > 0,
            find_from(s@, p@, i as int) == find_from(s@, p@, from as int),
        decreases s@.len() + 1 - i,
    {
        if occurs_at_index(s, p, i) {
            return Some(i);
        }
        i = i + 1;
    }
    None
}

/// `s` with every occurrence of `p` (found left to right, not overlapping)
/// replaced by `r`, as `str::replace` does for a non-empty `p`.
pub open spec fn replace_all(s: Seq<char>, p: Seq<char>, r: Seq<char>) -> Seq<char>
    decreases s.len(),
{
    if p.len() == 0 {
        s
    } else {
        match find_from(s, p, 0) {
            None => s,
            Some(i) => {
                proof {
                    lemma_find_from_bounds(s, p, 0);
                }
                s.take(i) + r + replace_all(s.skip(i + p.len()), p, r)
            },
        }
    }
}

pub fn replace_text(s: &[char], p: &[char], r: &[char]) -> (out: Vec<char>)
    requires
        p@.len() > 0,
    ensures
        out@ == replace_all(s@, p@, r@),
{
    let mut out: Vec<char> = Vec::new();
    let mut pos: usize = 0;
    assert(s@.skip(0) =~= s@);
    loop
        invariant
            p@.len() > 0,
            pos <= s@.len(),
            out@ + replace_all(s@.skip(pos as int), p@, r@) == replace_all(s@, p@, r@),
        decreases s@.len() - pos,
    {
        let ghost t = s@.skip(pos as int);
        let ghost before = out@;
        let found = find_text(s, p, pos);
        proof {
            lemma_find_from_bounds(s@, p@, pos as int);
            lemma_find_from_shift(s@, p@, pos as int, pos as int);
        }
        match found {
            None => {
                let rest = sub_chars(s, pos, s.len());
                assert(rest@ =~= t);
                extend_chars(&mut out, rest.as_slice());
                return out;
            },
            Some(k) => {
                assert(k + p@.len() <= s@.len());
                assert(k + p.len() <= s.len());
                let piece = sub_chars(s, pos, k);
                extend_chars(&mut out, piece.as_slice());
                extend_chars(&mut out, r);
                assert(t.take(k - pos) =~= piece@);
                assert(t.skip(k - pos + p@.len()) =~= s@.skip(k + p@.len()));
                assert(before + (piece@ + r@ + replace_all(s@.skip(k + p@.len()), p@, r@)) =~= out@
                    + replace_all(s@.skip(k + p@.len()), p@, r@));
                pos = k + p.len();
            },
        }
    }
}

/// Searching `s` from `i + d` equals searching `s.skip(d)` from `i`, shifted.
pub proof fn lemma_find_from_shift(s: Seq<char>, p: Seq<char>, d: int, i: int)
    requires
        0 <= d <= s.len(),
        d <= i,
    ensures
        find_from(s, p, i) == match find_from(s.skip(d), p, i - d) {
            Some(k) => Some(k + d),
            None => None::<int>,
        },
    decreases s.len() + 1 - i,
{
    let t = s.skip(d);
    if !(i < 0 || i + p.len() > s.len()) {
        assert(occurs_at(s, p, i) == occurs_at(t, p, i - d)) by {
            if i + p.len() <= s.len() {
                assert(s.subrange(i, i + p.len()) =~= t.subrange(i - d, i - d + p.len()));
            }
        }
        if !occurs_at(s, p, i) {
            lemma_find_from_shift(s, p, d, i + 1);
        }
    }
}

/// `s` without the characters `c` at either end.
pub open spec fn trim_char(s: Seq<char>, c: char) -> Seq<char> {
    strip_end_char(strip_start_char(s, c), c)
}

pub open spec fn strip_start_char(s: Seq<char>, c: char) -> Seq<char>
    decreases s.len(),
{
    if s.len() > 0 && s[0] == c {
        strip_start_char(s.drop_first(), c)
    } else {
        s
    }
}

pub open spec fn strip_end_char(s: Seq<char>, c: char) -> Seq<char>
    decreases s.len(),
{
    if s.len() > 0 && s.last() == c {
        strip_end_char(s.drop_last(), c)
    } else {
        s
    }
}

/// `s` without the characters `c` at either end, as `trim_matches(c)` gives it.
pub fn trim_char_chars(s: &[char], c: char) -> (r: Vec<char>)
    ensures
        r@ == trim_char(s@, c),
{
    let mut a: usize = 0;
    assert(s@.skip(0) =~= s@);
    while a < s.len() && s[a] == c
        invariant
            a <= s@.len(),
            strip_start_char(s@.skip(a as int), c) == strip_start_char(s@, c),
        decreases s@.len() - a,
    {
        assert(s@.skip(a as int).drop_first() =~= s@.skip(a + 1));
        a = a + 1;
    }
    let ghost m = s@.skip(a as int);
    let mut b: usize = s.len();
    assert(s@.subrange(a as int, b as int) =~= m);
    while b > a && s[b - 1] == c
        invariant
            a <= b <= s@.len(),
            m == s@.skip(a as int),
            strip_end_char(s@.subrange(a as int, b as int), c) == strip_end_char(m, c),
        decreases b,
    {
        assert(s@.subrange(a as int, b as int).drop_last() =~= s@.subrange(a as int, b - 1));
        b = b - 1;
    }
    sub_chars(s, a, b)
}

} // verus!
