//! The package header: package type, display texts and thumbnails.
use vstd::prelude::*;
use crate::stfs::bytes::{be16, be32, copy_bytes, cursor_read_u32_be};
use crate::stfs::utf16::{string_from_utf16, utf16_decode};
use crate::text::{chars_of, dec_digits, extend_chars, string_from_chars, u64_to_dec};

verus! {

pub const DISPLAY_NAME_OFFSET: u64 = 0x0411;

/// Room for 128 UTF-16 code units.
pub const DISPLAY_NAME_SIZE: u64 = 0x0100;

pub const DESCRIPTION_OFFSET: u64 = 0x0D11;

pub const DESCRIPTION_SIZE: u64 = 0x0100;

pub const TITLE_NAME_OFFSET: u64 = 0x1691;

/// Room for 64 UTF-16 code units.
pub const TITLE_NAME_SIZE: u64 = 0x0080;

pub const CONTENT_TYPE_OFFSET: u64 = 0x0344;

pub const TITLE_ID_OFFSET: u64 = 0x0360;

pub const THUMBNAIL_SIZE_OFFSET: u64 = 0x1712;

pub const THUMBNAIL_DATA_OFFSET: u64 = 0x171A;

pub const THUMBNAIL_MAX_SIZE: u64 = 0x4000;

pub const TITLE_THUMBNAIL_SIZE_OFFSET: u64 = 0x1716;

pub const TITLE_THUMBNAIL_DATA_OFFSET: u64 = 0x571A;

#[derive(Debug, Clone, Copy, PartialEq, Eq, Structural)]
pub enum PackageType {
    CON,
    LIVE,
    PIRS,
}

#[derive(Debug, Clone)]
pub struct StfsHeader {
    pub package_type: PackageType,
    pub display_name: String,
    pub description: String,
    pub title_name: String,
    pub content_type: u32,
    pub title_id: u32,
    pub thumbnail_size: u32,
    pub thumbnail_data: Vec<u8>,
    pub title_thumbnail_size: u32,
    pub title_thumbnail_data: Vec<u8>,
}

pub struct HeaderSpec {
    pub package_type: PackageType,
    pub display_name: Seq<char>,
    pub description: Seq<char>,
    pub title_name: Seq<char>,
    pub content_type: u32,
    pub title_id: u32,
    pub thumbnail_size: u32,
    pub thumbnail_data: Seq<u8>,
    pub title_thumbnail_size: u32,
    pub title_thumbnail_data: Seq<u8>,
}

impl View for StfsHeader {
    type V = HeaderSpec;

    open spec fn view(&self) -> HeaderSpec {
        HeaderSpec {
            package_type: self.package_type,
            display_name: self.display_name@,
            description: self.description@,
            title_name: self.title_name@,
            content_type: self.content_type,
            title_id: self.title_id,
            thumbnail_size: self.thumbnail_size,
            thumbnail_data: self.thumbnail_data@,
            title_thumbnail_size: self.title_thumbnail_size,
            title_thumbnail_data: self.title_thumbnail_data@,
        }
    }
}

// ---------------------------------------------------------------- text fields

/// The code units of a text field from unit `i` on: big-endian pairs of
/// bytes, up to `n` units or to the first zero unit.
pub open spec fn field_units(data: Seq<u8>, offset: int, i: int, n: int) -> Seq<u16>
    decreases n - i,
{
    if i >= n {
        Seq::empty()
    } else {
        let u = be16(data[offset + 2 * i], data[offset + 2 * i + 1]);
        if u == 0 {
            Seq::empty()
        } else {
            seq![u as u16] + field_units(data, offset, i + 1, n)
        }
    }
}

/// The text of the UTF-16 field of `max_bytes` bytes at `offset`; `None`
/// where it is not valid UTF-16.
pub open spec fn text_field(data: Seq<u8>, offset: int, max_bytes: int) -> Option<Seq<char>> {
    utf16_decode(field_units(data, offset, 0, max_bytes / 2))
}

fn read_utf16be_string(data: &[u8], offset: u64, max_bytes: u64) -> (r: Result<String, String>)
    requires
        offset + max_bytes <= data.len(),
    ensures
        match r {
            Ok(s) => text_field(data@, offset as int, max_bytes as int) == Some(s@),
            Err(_) => text_field(data@, offset as int, max_bytes as int) is None,
        },
{
    let ghost total = field_units(data@, offset as int, 0, (max_bytes / 2) as int);
    let n = max_bytes / 2;
    let mut units: Vec<u16> = Vec::new();
    let mut i: u64 = 0;
    let mut done = false;
    while i < n && !done
        invariant
            n == max_bytes / 2,
            offset + max_bytes <= data.len(),
            i <= n,
            total == field_units(data@, offset as int, 0, n as int),
            done ==> units@ == total,
            !done ==> units@ + field_units(data@, offset as int, i as int, n as int) == total,
        decreases n - i,
    {
        let p = (offset + 2 * i) as usize;
        let u = data[p] as u16 * 256 + data[p + 1] as u16;
        let ghost before = units@;
        let ghost rest = field_units(data@, offset as int, i + 1, n as int);
        if u == 0 {
            assert(before + Seq::<u16>::empty() =~= before);
            done = true;
        } else {
            units.push(u);
            assert(before + (seq![u] + rest) =~= units@ + rest);
        }
        i = i + 1;
    }
    if !done {
        assert(units@ + Seq::<u16>::empty() =~= units@);
    }
    string_from_utf16(units.as_slice())
}

// ---------------------------------------------------------------- header

/// The package type named by the four magic bytes `CON `, `LIVE` or `PIRS`.
pub open spec fn package_type_of(data: Seq<u8>) -> Option<PackageType> {
    if data[0] == 0x43 && data[1] == 0x4F && data[2] == 0x4E && data[3] == 0x20 {
        Some(PackageType::CON)
    } else if data[0] == 0x4C && data[1] == 0x49 && data[2] == 0x56 && data[3] == 0x45 {
        Some(PackageType::LIVE)
    } else if data[0] == 0x50 && data[1] == 0x49 && data[2] == 0x52 && data[3] == 0x53 {
        Some(PackageType::PIRS)
    } else {
        None
    }
}

/// Whether bytes open with the magic of a package: `CON `, `LIVE` or
/// `PIRS`.
pub fn has_package_magic(head: &[u8]) -> (b: bool)
    ensures
        b == (head@.len() >= 4 && package_type_of(head@) is Some),
{
    if head.len() < 4 {
        return false;
    }
    (head[0] == 0x43 && head[1] == 0x4F && head[2] == 0x4E && head[3] == 0x20) || (head[0] == 0x4C
        && head[1] == 0x49 && head[2] == 0x56 && head[3] == 0x45) || (head[0] == 0x50 && head[1]
        == 0x49 && head[2] == 0x52 && head[3] == 0x53)
}

/// The error for unknown magic: its first three bytes, printed as a list.
pub open spec fn unknown_type_error(data: Seq<u8>) -> Seq<char> {
    "Unknown package type: ["@ + dec_digits(data[0] as nat) + ", "@ + dec_digits(data[1] as nat)
        + ", "@ + dec_digits(data[2] as nat) + "]"@
}

/// The error of a header read that fails before its text fields, if any:
/// a package shorter than `min_len`, or unknown magic.
pub open spec fn header_error(data: Seq<u8>, min_len: int) -> Option<Seq<char>> {
    if data.len() < min_len {
        Some("File too small to be a valid STFS package"@)
    } else if package_type_of(data) is None {
        Some(unknown_type_error(data))
    } else {
        None
    }
}

pub open spec fn texts_decode(data: Seq<u8>) -> bool {
    &&& text_field(data, DISPLAY_NAME_OFFSET as int, DISPLAY_NAME_SIZE as int) is Some
    &&& text_field(data, DESCRIPTION_OFFSET as int, DESCRIPTION_SIZE as int) is Some
    &&& text_field(data, TITLE_NAME_OFFSET as int, TITLE_NAME_SIZE as int) is Some
}

pub open spec fn be32_at(data: Seq<u8>, p: int) -> u32 {
    be32(data[p], data[p + 1], data[p + 2], data[p + 3]) as u32
}

pub open spec fn min_thumb(size: u32) -> int {
    if size < THUMBNAIL_MAX_SIZE {
        size as int
    } else {
        THUMBNAIL_MAX_SIZE as int
    }
}

/// The header summary: type, texts and the thumbnail size.
pub open spec fn summary_of(data: Seq<u8>) -> HeaderSpec {
    HeaderSpec {
        package_type: package_type_of(data)->Some_0,
        display_name: text_field(data, DISPLAY_NAME_OFFSET as int, DISPLAY_NAME_SIZE as int)->Some_0,
        description: text_field(data, DESCRIPTION_OFFSET as int, DESCRIPTION_SIZE as int)->Some_0,
        title_name: text_field(data, TITLE_NAME_OFFSET as int, TITLE_NAME_SIZE as int)->Some_0,
        content_type: 0,
        title_id: 0,
        thumbnail_size: be32_at(data, THUMBNAIL_SIZE_OFFSET as int),
        thumbnail_data: Seq::empty(),
        title_thumbnail_size: 0,
        title_thumbnail_data: Seq::empty(),
    }
}

/// The whole header, thumbnails included (each at most 16384 bytes).
pub open spec fn header_of(data: Seq<u8>) -> HeaderSpec {
    let thumb = be32_at(data, THUMBNAIL_SIZE_OFFSET as int);
    let title_thumb = be32_at(data, TITLE_THUMBNAIL_SIZE_OFFSET as int);
    HeaderSpec {
        content_type: be32_at(data, CONTENT_TYPE_OFFSET as int),
        title_id: be32_at(data, TITLE_ID_OFFSET as int),
        thumbnail_size: thumb,
        thumbnail_data: data.subrange(
            THUMBNAIL_DATA_OFFSET as int,
            THUMBNAIL_DATA_OFFSET + min_thumb(thumb),
        ),
        title_thumbnail_size: title_thumb,
        title_thumbnail_data: data.subrange(
            TITLE_THUMBNAIL_DATA_OFFSET as int,
            TITLE_THUMBNAIL_DATA_OFFSET + min_thumb(title_thumb),
        ),
        ..summary_of(data)
    }
}

fn too_small() -> (e: String)
    ensures
        e@ == "File too small to be a valid STFS package"@,
{
    String::from_str("File too small to be a valid STFS package")
}

fn push_str(v: &mut Vec<char>, lit: &str)
    ensures
        final(v)@ == old(v)@ + lit@,
{
    let c = chars_of(lit);
    extend_chars(v, c.as_slice());
}

fn push_dec(v: &mut Vec<char>, b: u8)
    ensures
        final(v)@ == old(v)@ + dec_digits(b as nat),
{
    let d = u64_to_dec(b as u64);
    extend_chars(v, d.as_slice());
}

fn read_package_type(data: &[u8]) -> (r: Result<PackageType, String>)
    requires
        data@.len() >= 4,
    ensures
        match r {
            Ok(t) => package_type_of(data@) == Some(t),
            Err(e) => package_type_of(data@) is None && e@ == unknown_type_error(data@),
        },
{
    if data[0] == 0x43 && data[1] == 0x4F && data[2] == 0x4E && data[3] == 0x20 {
        Ok(PackageType::CON)
    } else if data[0] == 0x4C && data[1] == 0x49 && data[2] == 0x56 && data[3] == 0x45 {
        Ok(PackageType::LIVE)
    } else if data[0] == 0x50 && data[1] == 0x49 && data[2] == 0x52 && data[3] == 0x53 {
        Ok(PackageType::PIRS)
    } else {
        let mut v = chars_of("Unknown package type: [");
        push_dec(&mut v, data[0]);
        push_str(&mut v, ", ");
        push_dec(&mut v, data[1]);
        push_str(&mut v, ", ");
        push_dec(&mut v, data[2]);
        push_str(&mut v, "]");
        Err(string_from_chars(v.as_slice()))
    }
}

fn read_u32_at(data: &[u8], pos: u64) -> (r: u32)
    requires
        pos + 4 <= data@.len(),
    ensures
        r == be32_at(data@, pos as int),
{
    match cursor_read_u32_be(data, pos) {
        Ok(v) => v,
        Err(_) => 0,
    }
}

/// The three text fields, or the decoding error of the first that fails.
fn read_texts(data: &[u8]) -> (r: Result<(String, String, String), String>)
    requires
        data.len() >= 0x1711,
    ensures
        r is Ok <==> texts_decode(data@),
        r is Ok ==> Some(r->Ok_0.0@) == text_field(data@, DISPLAY_NAME_OFFSET as int, DISPLAY_NAME_SIZE as int)
            && Some(r->Ok_0.1@) == text_field(data@, DESCRIPTION_OFFSET as int, DESCRIPTION_SIZE as int)
            && Some(r->Ok_0.2@) == text_field(data@, TITLE_NAME_OFFSET as int, TITLE_NAME_SIZE as int),
{
    let display_name = match read_utf16be_string(data, DISPLAY_NAME_OFFSET, DISPLAY_NAME_SIZE) {
        Ok(s) => s,
        Err(e) => {
            return Err(e);
        },
    };
    let description = match read_utf16be_string(data, DESCRIPTION_OFFSET, DESCRIPTION_SIZE) {
        Ok(s) => s,
        Err(e) => {
            return Err(e);
        },
    };
    let title_name = match read_utf16be_string(data, TITLE_NAME_OFFSET, TITLE_NAME_SIZE) {
        Ok(s) => s,
        Err(e) => {
            return Err(e);
        },
    };
    Ok((display_name, description, title_name))
}

/// Lightweight header read for file lists: type, texts and thumbnail size,
/// from the first 0x171A bytes; no thumbnail data.
pub fn parse_header_summary(data: &[u8]) -> (r: Result<StfsHeader, String>)
    ensures
        header_error(data@, 0x171A) is Some ==> r is Err && r->Err_0@ == header_error(
            data@,
            0x171A,
        )->Some_0,
        header_error(data@, 0x171A) is None ==> (r is Ok <==> texts_decode(data@)),
        r is Ok ==> r->Ok_0@ == summary_of(data@),
{
    if data.len() < 0x171A {
        return Err(too_small());
    }
    let package_type = match read_package_type(data) {
        Ok(t) => t,
        Err(e) => {
            return Err(e);
        },
    };
    let (display_name, description, title_name) = match read_texts(data) {
        Ok(t) => t,
        Err(e) => {
            return Err(e);
        },
    };
    let thumbnail_size = read_u32_at(data, THUMBNAIL_SIZE_OFFSET);
    Ok(
        StfsHeader {
            package_type,
            display_name,
            description,
            title_name,
            content_type: 0,
            title_id: 0,
            thumbnail_size,
            thumbnail_data: Vec::new(),
            title_thumbnail_size: 0,
            title_thumbnail_data: Vec::new(),
        },
    )
}

/// The whole header, thumbnails included; the package must hold at least
/// 0x971A bytes.
pub fn parse_header(data: &[u8]) -> (r: Result<StfsHeader, String>)
    ensures
        header_error(data@, 0x971A) is Some ==> r is Err && r->Err_0@ == header_error(
            data@,
            0x971A,
        )->Some_0,
        header_error(data@, 0x971A) is None ==> (r is Ok <==> texts_decode(data@)),
        r is Ok ==> r->Ok_0@ == header_of(data@),
{
    if data.len() < 0x971A {
        return Err(too_small());
    }
    let package_type = match read_package_type(data) {
        Ok(t) => t,
        Err(e) => {
            return Err(e);
        },
    };
    let (display_name, description, title_name) = match read_texts(data) {
        Ok(t) => t,
        Err(e) => {
            return Err(e);
        },
    };
    let content_type = read_u32_at(data, CONTENT_TYPE_OFFSET);
    let title_id = read_u32_at(data, TITLE_ID_OFFSET);
    let thumbnail_size = read_u32_at(data, THUMBNAIL_SIZE_OFFSET);
    let thumb_len: u64 = if (thumbnail_size as u64) < THUMBNAIL_MAX_SIZE {
        thumbnail_size as u64
    } else {
        THUMBNAIL_MAX_SIZE
    };
    let thumbnail_data = copy_bytes(
        data,
        THUMBNAIL_DATA_OFFSET as usize,
        (THUMBNAIL_DATA_OFFSET + thumb_len) as usize,
    );
    let title_thumbnail_size = read_u32_at(data, TITLE_THUMBNAIL_SIZE_OFFSET);
    let title_len: u64 = if (title_thumbnail_size as u64) < THUMBNAIL_MAX_SIZE {
        title_thumbnail_size as u64
    } else {
        THUMBNAIL_MAX_SIZE
    };
    let title_thumbnail_data = copy_bytes(
        data,
        TITLE_THUMBNAIL_DATA_OFFSET as usize,
        (TITLE_THUMBNAIL_DATA_OFFSET + title_len) as usize,
    );
    Ok(
        StfsHeader {
            package_type,
            display_name,
            description,
            title_name,
            content_type,
            title_id,
            thumbnail_size,
            thumbnail_data,
            title_thumbnail_size,
            title_thumbnail_data,
        },
    )
}

} // verus!
