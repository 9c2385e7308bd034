//! UTF-16, the encoding of the text fields of a package header.
use vstd::prelude::*;

verus! {

pub open spec fn is_high_surrogate(u: u16) -> bool {
    0xD800 <= u < 0xDC00
}

pub open spec fn is_low_surrogate(u: u16) -> bool {
    0xDC00 <= u < 0xE000
}

/// The code point of a surrogate pair.
pub open spec fn pair_value(hi: u16, lo: u16) -> int {
    0x10000 + (hi - 0xD800) * 0x400 + (lo - 0xDC00)
}

/// UTF-16 decoding: `None` where a surrogate is unpaired.
pub open spec fn utf16_decode(u: Seq<u16>) -> Option<Seq<char>>
    decreases u.len(),
{
    if u.len() == 0 {
        Some(Seq::empty())
    } else if is_high_surrogate(u[0]) {
        if u.len() >= 2 && is_low_surrogate(u[1]) {
            match utf16_decode(u.subrange(2, u.len() as int)) {
                Some(rest) => Some(seq![pair_value(u[0], u[1]) as char] + rest),
                None => None,
            }
        } else {
            None
        }
    } else if is_low_surrogate(u[0]) {
        None
    } else {
        match utf16_decode(u.drop_first()) {
            Some(rest) => Some(seq![u[0] as char] + rest),
            None => None,
        }
    }
}

/// The UTF-16 code units of one character.
pub open spec fn char_units(c: char) -> Seq<u16> {
    let v = c as u32;
    if v < 0x10000 {
        seq![v as u16]
    } else {
        seq![(0xD800 + (v - 0x10000) / 0x400) as u16, (0xDC00 + (v - 0x10000) % 0x400) as u16]
    }
}

/// UTF-16 encoding, as `str::encode_utf16` yields it.
pub open spec fn utf16_encode(s: Seq<char>) -> Seq<u16>
    decreases s.len(),
{
    if s.len() == 0 {
        Seq::empty()
    } else {
        utf16_encode(s.drop_last()) + char_units(s.last())
    }
}

/// `String::from_utf16`: the decoded text, or an error where the units hold an
/// unpaired surrogate. The error's text is the standard library's and is not
/// stated here.
#[verifier::external_body]
pub(crate) fn string_from_utf16(units: &[u16]) -> (r: Result<String, String>)
    ensures
        match r {
            Ok(s) => utf16_decode(units@) == Some(s@),
            Err(_) => utf16_decode(units@) is None,
        },
{
    String::from_utf16(units).map_err(|e| e.to_string())
}

/// The UTF-16 code units of `s`.
pub fn encode_utf16(s: &str) -> (r: Vec<u16>)
    ensures
        r@ == utf16_encode(s@),
{
    let chars = crate::text::chars_of(s);
    let mut r: Vec<u16> = Vec::new();
    let mut i: usize = 0;
    while i < chars.len()
        invariant
            i <= chars@.len(),
            chars@ == s@,
            r@ == utf16_encode(chars@.take(i as int)),
        decreases chars@.len() - i,
    {
        let c = chars[i];
        let v = c as u32;
        let ghost before = r@;
        if v < 0x10000 {
            r.push(v as u16);
            assert(char_units(c) == seq![v as u16]);
        } else {
            let w = v - 0x10000;
            let hi = (0xD800 + w / 0x400) as u16;
            let lo = (0xDC00 + w % 0x400) as u16;
            r.push(hi);
            r.push(lo);
            assert(char_units(c) == seq![hi, lo]);
        }
        assert(r@ =~= before + char_units(c));
        assert(chars@.take(i + 1).drop_last() =~= chars@.take(i as int));
        i = i + 1;
    }
    assert(chars@.take(chars@.len() as int) =~= chars@);
    r
}

proof fn lemma_encode_prepend(c: char, t: Seq<char>)
    ensures
        utf16_encode(seq![c] + t) == char_units(c) + utf16_encode(t),
    decreases t.len(),
{
    if t.len() == 0 {
        assert((seq![c] + t).drop_last() =~= Seq::<char>::empty());
        assert((seq![c] + t).last() == c);
        assert(utf16_encode(Seq::<char>::empty()) =~= Seq::<u16>::empty());
        assert(utf16_encode(seq![c] + t) =~= char_units(c));
        assert(char_units(c) + utf16_encode(t) =~= char_units(c));
    } else {
        lemma_encode_prepend(c, t.drop_last());
        assert((seq![c] + t).drop_last() =~= seq![c] + t.drop_last());
        assert((seq![c] + t).last() == t.last());
        assert(char_units(c) + (utf16_encode(t.drop_last()) + char_units(t.last())) =~= (char_units(c)
            + utf16_encode(t.drop_last())) + char_units(t.last()));
    }
}

proof fn lemma_decode_char(c: char, x: Seq<u16>)
    ensures
        utf16_decode(char_units(c) + x) == match utf16_decode(x) {
            Some(rest) => Some(seq![c] + rest),
            None => None::<Seq<char>>,
        },
{
    let v = c as u32;
    let u = char_units(c) + x;
    if v < 0x10000 {
        assert(!(0xD800 <= v < 0xE000));
        assert(u[0] == v as u16);
        assert(u.drop_first() =~= x);
        assert((u[0] as char) == c);
    } else {
        let w = v - 0x10000;
        assert(w < 0x100000);
        assert(0 <= w / 0x400 < 0x400);
        assert(u[0] == (0xD800 + w / 0x400) as u16);
        assert(u[1] == (0xDC00 + w % 0x400) as u16);
        assert(u.subrange(2, u.len() as int) =~= x);
        assert(pair_value(u[0], u[1]) == v);
        assert((pair_value(u[0], u[1]) as char) == c);
    }
}

/// Decoding the UTF-16 encoding of a text gives the text back.
pub proof fn lemma_utf16_round_trip(s: Seq<char>)
    ensures
        utf16_decode(utf16_encode(s)) == Some(s),
    decreases s.len(),
{
    if s.len() > 0 {
        let t = s.drop_first();
        assert(s =~= seq![s[0]] + t);
        lemma_encode_prepend(s[0], t);
        lemma_utf16_round_trip(t);
        lemma_decode_char(s[0], utf16_encode(t));
    }
}

} // verus!
