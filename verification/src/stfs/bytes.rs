//! Reading fixed-width fields out of package bytes.
use vstd::prelude::*;
use vstd::utf8::{decode_utf8, valid_utf8};
use byteorder::{BigEndian, ReadBytesExt};

verus! {

pub open spec fn be16(b0: u8, b1: u8) -> int {
    b0 as int * 256 + b1 as int
}

pub open spec fn be32(b0: u8, b1: u8, b2: u8, b3: u8) -> int {
    ((b0 as int * 256 + b1 as int) * 256 + b2 as int) * 256 + b3 as int
}

/// `ReadBytesExt::read_u16::<BigEndian>` (byteorder) on a cursor over `data`
/// placed at `pos`: the two bytes there, most significant first. With fewer
/// than two bytes left the read fails; the text of that I/O error is the
/// standard library's and is not stated here.
#[verifier::external_body]
pub(crate) fn cursor_read_u16_be(data: &[u8], pos: u64) -> (r: Result<u16, String>)
    ensures
        pos + 2 <= data@.len() ==> r is Ok && r->Ok_0 == be16(data@[pos as int], data@[pos + 1]),
        pos + 2 > data@.len() ==> r is Err,
{
    let mut cursor = std::io::Cursor::new(data);
    cursor.set_position(pos);
    cursor.read_u16::<BigEndian>().map_err(|e| e.to_string())
}

/// `ReadBytesExt::read_u32::<BigEndian>` (byteorder) on a cursor over `data`
/// placed at `pos`: the four bytes there, most significant first. With fewer
/// than four bytes left the read fails; the text of that I/O error is the
/// standard library's and is not stated here.
#[verifier::external_body]
pub(crate) fn cursor_read_u32_be(data: &[u8], pos: u64) -> (r: Result<u32, String>)
    ensures
        pos + 4 <= data@.len() ==> r is Ok && r->Ok_0 == be32(data@[pos as int], data@[pos + 1], data@[pos + 2], data@[pos + 3]),
        pos + 4 > data@.len() ==> r is Err,
{
    let mut cursor = std::io::Cursor::new(data);
    cursor.set_position(pos);
    cursor.read_u32::<BigEndian>().map_err(|e| e.to_string())
}

/// What `String::from_utf8_lossy` makes of some bytes: the UTF-8 text, with
/// each invalid sequence replaced by U+FFFD.
pub uninterp spec fn utf8_lossy(b: Seq<u8>) -> Seq<char>;

pub open spec fn is_ascii_bytes(b: Seq<u8>) -> bool {
    forall|i: int| 0 <= i < b.len() ==> #[trigger] b[i] < 128
}

/// `String::from_utf8_lossy(..).to_string()`. Its result is named
/// `utf8_lossy`; ASCII bytes come out as the same characters, as UTF-8
/// defines, and valid UTF-8 comes out as the text it encodes, with nothing
/// replaced, as the function's documentation says.
#[verifier::external_body]
pub(crate) fn from_utf8_lossy(b: &[u8]) -> (s: String)
    ensures
        s@ == utf8_lossy(b@),
        is_ascii_bytes(b@) ==> s@ == b@.map_values(|x: u8| x as char),
        valid_utf8(b@) ==> s@ == decode_utf8(b@),
{
    String::from_utf8_lossy(b).to_string()
}

/// A copy of `data[a..b]`.
pub fn copy_bytes(data: &[u8], a: usize, b: usize) -> (r: Vec<u8>)
    requires
        a <= b <= data@.len(),
    ensures
        r@ == data@.subrange(a as int, b as int),
{
    let mut r: Vec<u8> = Vec::new();
    let mut i = a;
    while i < b
        invariant
            a <= i <= b <= data@.len(),
            r@ == data@.subrange(a as int, i as int),
        decreases b - i,
    {
        r.push(data[i]);
        i = i + 1;
        assert(r@ =~= data@.subrange(a as int, i as int));
    }
    r
}

} // verus!
