//! A song library's entries read and written as plain data: a package's
//! metadata, the editor's details of a song, saving edits back into a
//! package, and batch validation. Files are read and written by the caller.
use vstd::prelude::*;
use base64::Engine;
use vstd::utf8::{decode_utf8, encode_utf8, valid_utf8};
use crate::dta::parser::{dta_meta, dta_parse, extract_metadata, nodes_view, parse_dta, Dta};
use crate::dta::serializer::{apply_metadata, metadata_applied, print_nodes, serialize_dta};
use crate::dta::types::{IssueSpec, MetaSpec, SongDetails, SongMetadata, SongSummary, ValidationIssue, ValidationLevel};
use crate::dta::validator::{validate_metadata, validation_issues};
use crate::song_ini::{extract_loading_phrase, loading_phrase_of, parse_song_ini, song_ini_meta};
use crate::stfs::filesystem::{
    chain_offsets, descriptor_of, file_table, songs_dta, EntrySpec, FileEntry, StfsFilesystem,
};
use crate::stfs::header::{
    header_error, header_of, parse_header, parse_header_summary, summary_of, texts_decode, HeaderSpec,
    StfsHeader,
};
use crate::stfs::utf16::utf16_encode;
use crate::stfs::writer::{
    resize_thumbnail, resized_from, dta_written, text_written, thumbnail_error, thumbnail_written, write_description,
    write_display_name, write_dta_content, write_thumbnail,
};
use crate::text::{chars_of, extend_chars, lines, lowercase, starts_with, str_to_lowercase, string_from_chars};
use crate::commands::{int_indices, iota, lemma_sort_in_order, lex_lt, sort_by_key, sorted_order, CacheRow};

verus! {

// ---------------------------------------------------------------- text of songs.dta

/// What `encoding_rs::WINDOWS_1252.decode` makes of some bytes (with its
/// BOM sniffing).
pub uninterp spec fn windows_1252_decoded(b: Seq<u8>) -> Seq<char>;

/// What `encoding_rs::UTF_16LE.decode` makes of some bytes (with its BOM
/// sniffing).
pub uninterp spec fn utf16le_decoded(b: Seq<u8>) -> Seq<char>;

/// `encoding_rs::WINDOWS_1252.decode`, keeping the text. Its result is named
/// `windows_1252_decoded`. The crate panics where its buffer-size
/// computation overflows `usize`, which an input of at most an eighth of the
/// address space never reaches.
#[verifier::external_body]
fn decode_windows_1252(bytes: &[u8]) -> (s: String)
    requires
        bytes@.len() <= usize::MAX / 8,
    ensures
        s@ == windows_1252_decoded(bytes@),
{
    encoding_rs::WINDOWS_1252.decode(bytes).0.to_string()
}

/// `encoding_rs::UTF_16LE.decode`, keeping the text. Its result is named
/// `utf16le_decoded`. The crate panics where its buffer-size computation
/// overflows `usize`, which an input of at most an eighth of the address
/// space never reaches.
#[verifier::external_body]
fn decode_utf16le(bytes: &[u8]) -> (s: String)
    requires
        bytes@.len() <= usize::MAX / 8,
    ensures
        s@ == utf16le_decoded(bytes@),
{
    encoding_rs::UTF_16LE.decode(bytes).0.to_string()
}

/// `String::from_utf8`: the text the bytes encode, where they are valid UTF-8.
#[verifier::external_body]
fn utf8_text(bytes: Vec<u8>) -> (r: Option<String>)
    ensures
        match r {
            Some(s) => valid_utf8(bytes@) && s@ == decode_utf8(bytes@),
            None => !valid_utf8(bytes@),
        },
{
    String::from_utf8(bytes).ok()
}

/// The text of a `songs.dta`: UTF-8 where the bytes are valid UTF-8, else
/// Windows-1252.
pub open spec fn dta_text(b: Seq<u8>) -> Seq<char> {
    if valid_utf8(b) {
        decode_utf8(b)
    } else {
        windows_1252_decoded(b)
    }
}

/// Like `dta_text`, but UTF-16 where the bytes open with a UTF-16 byte-order
/// mark.
pub open spec fn dta_text_with_bom(b: Seq<u8>) -> Seq<char> {
    if b.len() >= 2 && ((b[0] == 0xFF && b[1] == 0xFE) || (b[0] == 0xFE && b[1] == 0xFF)) {
        utf16le_decoded(b)
    } else {
        dta_text(b)
    }
}

/// Decodes the bytes of a `songs.dta`: UTF-8, or Windows-1252 where they are
/// not valid UTF-8.
pub fn decode_dta(bytes: &Vec<u8>) -> (s: String)
    requires
        bytes@.len() <= usize::MAX / 8,
    ensures
        s@ == dta_text(bytes@),
{
    match utf8_text(bytes.clone()) {
        Some(s) => s,
        None => decode_windows_1252(bytes.as_slice()),
    }
}

/// Decodes the bytes of a `songs.dta`, honouring a UTF-16 byte-order mark.
pub fn decode_dta_with_bom(bytes: &Vec<u8>) -> (s: String)
    requires
        bytes@.len() <= usize::MAX / 8,
    ensures
        s@ == dta_text_with_bom(bytes@),
{
    if bytes.len() >= 2 && ((bytes[0] == 0xFF && bytes[1] == 0xFE) || (bytes[0] == 0xFE && bytes[1]
        == 0xFF)) {
        decode_utf16le(bytes.as_slice())
    } else {
        decode_dta(bytes)
    }
}

// ---------------------------------------------------------------- package metadata

/// The error a read gives where the failing step states no text of its own.
pub open spec fn unstated() -> Option<Seq<char>> {
    None
}

/// Reading a package's metadata: the file table, `songs.dta`, its text
/// (decoded by `decode`), the DTA tree and the metadata; the error of the
/// first step that fails (`None` where that step's text is not stated).
pub open spec fn package_meta(data: Seq<u8>, with_bom: bool) -> Result<
    (MetaSpec, Seq<char>, EntrySpec),
    Option<Seq<char>>,
> {
    if data.len() < 0x39D {
        Err(Some("File too small for volume descriptor"@))
    } else if data.len() < 0x39E {
        Err(unstated())
    } else {
        match songs_dta(file_table(data, descriptor_of(data)), data) {
            Err(e) => Err(Some(e)),
            Ok((content, entry)) => {
                if content.len() > usize::MAX / 8 {
                    Err(Some(too_large_error()))
                } else {
                    let text = if with_bom {
                        dta_text_with_bom(content)
                    } else {
                        dta_text(content)
                    };
                    match dta_parse(text) {
                        Err(_) => Err(Some("Unexpected end of input in list"@)),
                        Ok(nodes) => Ok((dta_meta(nodes, text), text, entry)),
                    }
                }
            },
        }
    }
}

pub open spec fn too_large_error() -> Seq<char> {
    "songs.dta is too large to decode"@
}

pub open spec fn error_matches(e: Seq<char>, m: Option<Seq<char>>) -> bool {
    match m {
        Some(t) => e == t,
        None => true,
    }
}

/// Reads the metadata of a package: its `songs.dta`, decoded, parsed and
/// read; also the decoded text and the file entry of `songs.dta`.
pub fn package_metadata(data: Vec<u8>, with_bom: bool) -> (r: Result<(SongMetadata, String, FileEntry), String>)
    ensures
        match r {
            Ok((m, text, entry)) => package_meta(data@, with_bom) == Ok::<
                (MetaSpec, Seq<char>, EntrySpec),
                Option<Seq<char>>,
            >((m@, text@, entry@)),
            Err(e) => package_meta(data@, with_bom) matches Err(m) && error_matches(e@, m),
        },
{
    let ghost d = data@;
    let fs = match StfsFilesystem::parse(data) {
        Ok(fs) => fs,
        Err(e) => {
            return Err(e);
        },
    };
    let (content, entry) = match fs.extract_songs_dta() {
        Ok(t) => t,
        Err(e) => {
            return Err(e);
        },
    };
    if content.len() > usize::MAX / 8 {
        return Err(String::from_str("songs.dta is too large to decode"));
    }
    let text = if with_bom {
        decode_dta_with_bom(&content)
    } else {
        decode_dta(&content)
    };
    let nodes = match parse_dta(text.as_str()) {
        Ok(n) => n,
        Err(e) => {
            return Err(e);
        },
    };
    let meta = extract_metadata(&nodes, text.as_str());
    Ok((meta, text, entry))
}

// ---------------------------------------------------------------- thumbnails

/// The base64 digit of `v` (0-63) in the standard alphabet.
pub open spec fn b64_digit(v: int) -> char {
    if v < 26 {
        (65 + v) as char
    } else if v < 52 {
        (97 + v - 26) as char
    } else if v < 62 {
        (48 + v - 52) as char
    } else if v == 62 {
        '+'
    } else {
        '/'
    }
}

/// Standard base64 (RFC 4648 alphabet, `=` padding) of `b`.
pub open spec fn base64_std(b: Seq<u8>) -> Seq<char>
    decreases b.len(),
{
    if b.len() == 0 {
        Seq::empty()
    } else if b.len() == 1 {
        let n = b[0] as int;
        seq![b64_digit(n / 4), b64_digit((n % 4) * 16), '=', '=']
    } else if b.len() == 2 {
        let n = b[0] as int * 256 + b[1] as int;
        seq![b64_digit(n / 1024), b64_digit(n / 16 % 64), b64_digit((n % 16) * 4), '=']
    } else {
        let n = (b[0] as int * 256 + b[1] as int) * 256 + b[2] as int;
        seq![b64_digit(n / 262144), b64_digit(n / 4096 % 64), b64_digit(n / 64 % 64), b64_digit(n % 64)]
            + base64_std(b.skip(3))
    }
}

/// `base64::engine::general_purpose::STANDARD.encode`: standard base64 with
/// padding, as the crate's documentation describes it.
#[verifier::external_body]
fn base64_encode(bytes: &[u8]) -> (s: String)
    ensures
        s@ == base64_std(bytes@),
{
    base64::engine::general_purpose::STANDARD.encode(bytes)
}

/// `base64::engine::general_purpose::STANDARD.decode`. The engine accepts
/// exactly the canonical padded encodings, with no trailing bits, so what it
/// returns encodes back to the input, and every encoding of some bytes
/// decodes. Its error is the crate's text for the first fault found.
#[verifier::external_body]
fn base64_decode(text: &str) -> (r: Result<Vec<u8>, String>)
    ensures
        r matches Ok(b) ==> base64_std(b@) == text@,
        (exists|b: Seq<u8>| #[trigger] base64_std(b) == text@) ==> r is Ok,
{
    base64::engine::general_purpose::STANDARD.decode(text).map_err(|e| e.to_string())
}

/// The base64 part of an uploaded image: what follows the first comma of a
/// `data:` URL, or the whole text where it has none.
pub open spec fn upload_payload(s: Seq<char>) -> Seq<char> {
    let i = crate::text::first_index(s, ',');
    if 0 <= i < s.len() {
        s.skip(i + 1)
    } else {
        s
    }
}

/// The bytes of an image uploaded as base64, with or without a `data:`
/// prefix.
pub fn thumbnail_upload(thumb: &str) -> (r: Result<Vec<u8>, String>)
    ensures
        r matches Ok(b) ==> base64_std(b@) == upload_payload(thumb@),
        r matches Err(e) ==> !(exists|b: Seq<u8>| #[trigger] base64_std(b) == upload_payload(thumb@))
            && starts_with(e@, "Invalid base64: "@),
        (exists|b: Seq<u8>| #[trigger] base64_std(b) == upload_payload(thumb@)) ==> r is Ok,
{
    let c = chars_of(thumb);
    let i = crate::text::find_char_from(c.as_slice(), ',', 0);
    proof {
        crate::text::lemma_first_index_bounds(c@, ',');
        assert(c@.skip(0) =~= c@);
    }
    let payload = if i < c.len() {
        crate::text::sub_chars(c.as_slice(), i + 1, c.len())
    } else {
        crate::text::copy_chars(c.as_slice())
    };
    assert(payload@ =~= upload_payload(thumb@));
    let p = string_from_chars(payload.as_slice());
    match base64_decode(p.as_str()) {
        Ok(b) => Ok(b),
        Err(e) => {
            let mut v = chars_of("Invalid base64: ");
            proof {
                reveal_strlit("Invalid base64: ");
            }
            let ec = chars_of(e.as_str());
            extend_chars(&mut v, ec.as_slice());
            assert(v@.take(16) =~= "Invalid base64: "@);
            Err(string_from_chars(v.as_slice()))
        },
    }
}

/// What `image::load_from_memory` makes of some bytes: the image's width and
/// height, or `None` where the bytes do not load as an image.
pub uninterp spec fn image_dimensions(b: Seq<u8>) -> Option<(u32, u32)>;

/// `image::load_from_memory`, keeping the loaded image's width and height;
/// the result is named `image_dimensions`.
#[verifier::external_body]
fn loaded_dimensions(bytes: &[u8]) -> (r: Option<(u32, u32)>)
    ensures
        r == image_dimensions(bytes@),
{
    image::load_from_memory(bytes).ok().map(|img| (img.width(), img.height()))
}

/// The thumbnail written into a package header for an uploaded image: the
/// image itself when it fits in 16384 bytes and is at most 256 pixels wide
/// and high (or does not load as an image), else a resized JPEG.
pub open spec fn header_thumbnail_of(b: Seq<u8>) -> Result<Seq<u8>, Seq<char>> {
    if b.len() > 0x4000 {
        resized_from(b, 0)
    } else {
        match image_dimensions(b) {
            Some((w, h)) => if w > 256 || h > 256 {
                resized_from(b, 0)
            } else {
                Ok(b)
            },
            None => Ok(b),
        }
    }
}

/// Prepares an uploaded image for a package header's thumbnail field.
pub fn header_thumbnail(image_data: Vec<u8>) -> (r: Result<Vec<u8>, String>)
    ensures
        crate::stfs::filesystem::bytes_result_view(r) == header_thumbnail_of(image_data@),
{
    if image_data.len() > 0x4000 {
        return resize_thumbnail(image_data.as_slice());
    }
    match loaded_dimensions(image_data.as_slice()) {
        Some((w, h)) => if w > 256 || h > 256 {
            resize_thumbnail(image_data.as_slice())
        } else {
            Ok(image_data)
        },
        None => Ok(image_data),
    }
}

/// Standard base64 of some bytes.
pub fn base64_of(bytes: &[u8]) -> (s: String)
    ensures
        s@ == base64_std(bytes@),
{
    base64_encode(bytes)
}

/// Whether the bytes open with the PNG signature's first four bytes.
pub open spec fn is_png(b: Seq<u8>) -> bool {
    b.len() >= 4 && b[0] == 0x89 && b[1] == 0x50 && b[2] == 0x4E && b[3] == 0x47
}

/// A `data:` URL of an image: PNG where it opens like one, else JPEG.
pub open spec fn image_data_url(b: Seq<u8>) -> Seq<char> {
    "data:"@ + (if is_png(b) {
        "image/png"@
    } else {
        "image/jpeg"@
    }) + ";base64,"@ + base64_std(b)
}

fn push_str(v: &mut Vec<char>, lit: &str)
    ensures
        final(v)@ == old(v)@ + lit@,
{
    let c = chars_of(lit);
    extend_chars(v, c.as_slice());
}

/// The image as a `data:` URL, typed PNG or JPEG by its first bytes.
pub fn thumbnail_data_url(data: &[u8]) -> (s: String)
    ensures
        s@ == image_data_url(data@),
{
    let mut v = chars_of("data:");
    if data.len() >= 4 && data[0] == 0x89 && data[1] == 0x50 && data[2] == 0x4E && data[3] == 0x47 {
        push_str(&mut v, "image/png");
    } else {
        push_str(&mut v, "image/jpeg");
    }
    push_str(&mut v, ";base64,");
    let b = base64_encode(data);
    let c = chars_of(b.as_str());
    extend_chars(&mut v, c.as_slice());
    string_from_chars(v.as_slice())
}

/// The album art a song folder shows: the first of `album.png`,
/// `album.jpg` and `album.jpeg` among the names of its files.
pub open spec fn folder_art_of(names: Seq<Seq<char>>) -> Option<Seq<char>> {
    if names.contains("album.png"@) {
        Some("album.png"@)
    } else if names.contains("album.jpg"@) {
        Some("album.jpg"@)
    } else if names.contains("album.jpeg"@) {
        Some("album.jpeg"@)
    } else {
        None
    }
}

fn has_name(names: &Vec<String>, lit: &str) -> (b: bool)
    ensures
        b == names@.map_values(|n: String| n@).contains(lit@),
{
    let ghost ns = names@.map_values(|n: String| n@);
    let c = chars_of(lit);
    let mut i: usize = 0;
    while i < names.len()
        invariant
            ns == names@.map_values(|n: String| n@),
            c@ == lit@,
            i <= names@.len(),
            forall|j: int| 0 <= j < i ==> ns[j] != lit@,
        decreases names@.len() - i,
    {
        let n = chars_of(names[i].as_str());
        if crate::text::chars_eq(n.as_slice(), c.as_slice()) {
            assert(ns[i as int] == lit@);
            return true;
        }
        i = i + 1;
    }
    false
}

/// Picks a song folder's album art from the names of the files in it.
pub fn find_folder_album_art(names: &Vec<String>) -> (r: Option<String>)
    ensures
        match r {
            Some(s) => folder_art_of(names@.map_values(|n: String| n@)) == Some(s@),
            None => folder_art_of(names@.map_values(|n: String| n@)) is None,
        },
{
    proof {
        reveal_strlit("album.png");
        reveal_strlit("album.jpg");
        reveal_strlit("album.jpeg");
    }
    if has_name(names, "album.png") {
        Some(String::from_str("album.png"))
    } else if has_name(names, "album.jpg") {
        Some(String::from_str("album.jpg"))
    } else if has_name(names, "album.jpeg") {
        Some(String::from_str("album.jpeg"))
    } else {
        None
    }
}

/// Whether a file name has the extension `png`.
pub open spec fn png_named(name: Seq<char>) -> bool {
    name.len() > 4 && name.skip(name.len() - 4) == ".png"@
}

/// A `data:` URL of a folder's album art, typed by its file name.
pub open spec fn folder_art_url(name: Seq<char>, b: Seq<u8>) -> Seq<char> {
    "data:"@ + (if png_named(name) {
        "image/png"@
    } else {
        "image/jpeg"@
    }) + ";base64,"@ + base64_std(b)
}

/// The album art of a song folder as a `data:` URL: PNG where the file is
/// named so, else JPEG.
pub fn folder_thumbnail_url(art_name: &str, data: &[u8]) -> (s: String)
    ensures
        s@ == folder_art_url(art_name@, data@),
{
    let n = chars_of(art_name);
    let png = chars_of(".png");
    proof {
        reveal_strlit(".png");
    }
    let mut v = chars_of("data:");
    if n.len() > 4 && crate::text::chars_ends_with(n.as_slice(), png.as_slice()) {
        push_str(&mut v, "image/png");
    } else {
        push_str(&mut v, "image/jpeg");
    }
    push_str(&mut v, ";base64,");
    let b = base64_encode(data);
    let c = chars_of(b.as_str());
    extend_chars(&mut v, c.as_slice());
    string_from_chars(v.as_slice())
}

// ---------------------------------------------------------------- details for the editor

pub struct DetailsSpec {
    pub path: Seq<char>,
    pub display_name: Seq<char>,
    pub description: Seq<char>,
    pub title_name: Seq<char>,
    pub thumbnail_base64: Seq<char>,
    pub metadata: MetaSpec,
    pub raw_dta: Seq<char>,
    pub dta_file_size: u32,
    pub validation_issues: Seq<IssueSpec>,
    pub is_folder: bool,
}

pub open spec fn details_view(d: SongDetails) -> DetailsSpec {
    DetailsSpec {
        path: d.path@,
        display_name: d.display_name@,
        description: d.description@,
        title_name: d.title_name@,
        thumbnail_base64: d.thumbnail_base64@,
        metadata: d.metadata@,
        raw_dta: d.raw_dta@,
        dta_file_size: d.dta_file_size,
        validation_issues: d.validation_issues@.map_values(|i: ValidationIssue| i@),
        is_folder: d.is_folder,
    }
}

/// The editor's details of a package: its header texts and thumbnail, the
/// metadata of its `songs.dta` (UTF-16 honoured) and what validation finds;
/// or the error of the first step that fails.
pub open spec fn package_details_of(path: Seq<char>, data: Seq<u8>) -> Result<
    DetailsSpec,
    Option<Seq<char>>,
> {
    if header_error(data, 0x971A) is Some {
        Err(header_error(data, 0x971A))
    } else if !texts_decode(data) {
        Err(unstated())
    } else {
        let h = header_of(data);
        match package_meta(data, true) {
            Err(e) => Err(e),
            Ok((meta, text, entry)) => Ok(
                DetailsSpec {
                    path,
                    display_name: h.display_name,
                    description: h.description,
                    title_name: h.title_name,
                    thumbnail_base64: if h.thumbnail_size > 0 {
                        image_data_url(h.thumbnail_data)
                    } else {
                        Seq::empty()
                    },
                    metadata: meta,
                    raw_dta: text,
                    dta_file_size: entry.file_size,
                    validation_issues: validation_issues(meta, h.thumbnail_size > 0),
                    is_folder: false,
                },
            ),
        }
    }
}

/// The editor's details of a package whose bytes are `data`.
pub fn package_details(path: String, data: Vec<u8>) -> (r: Result<SongDetails, String>)
    ensures
        match r {
            Ok(d) => package_details_of(path@, data@) == Ok::<DetailsSpec, Option<Seq<char>>>(
                details_view(d),
            ),
            Err(e) => package_details_of(path@, data@) matches Err(m) && error_matches(e@, m),
        },
{
    let header = match parse_header(data.as_slice()) {
        Ok(h) => h,
        Err(e) => {
            return Err(e);
        },
    };
    let thumbnail_base64 = if header.thumbnail_size > 0 {
        thumbnail_data_url(header.thumbnail_data.as_slice())
    } else {
        String::new()
    };
    let (metadata, raw_dta, entry) = match package_metadata(data, true) {
        Ok(t) => t,
        Err(e) => {
            return Err(e);
        },
    };
    let validation_issues = validate_metadata(&metadata, header.thumbnail_size > 0);
    let d = SongDetails {
        path,
        display_name: header.display_name,
        description: header.description,
        title_name: header.title_name,
        thumbnail_base64,
        metadata,
        raw_dta,
        dta_file_size: entry.file_size,
        validation_issues,
        is_folder: false,
    };
    assert(details_view(d).validation_issues =~= crate::dta::validator::issue_views(
        d.validation_issues@,
    ));
    Ok(d)
}

// ---------------------------------------------------------------- saving edits into a package

/// Whether the block offsets and their count fit the address space, as
/// writing the blocks needs.
pub open spec fn offsets_fit(offs: Seq<u64>) -> bool {
    &&& offs.len() * 0x1000 <= usize::MAX
    &&& forall|k: int| 0 <= k < offs.len() ==> #[trigger] offs[k] + 0x1000 <= usize::MAX
}

pub open spec fn offsets_error() -> Seq<char> {
    "Block offsets exceed the address space"@
}

/// Writing edited metadata into the `songs.dta` of a package: the package
/// read as for `package_meta` (without UTF-16 detection), the metadata
/// applied to the DTA tree, and the tree's text (UTF-8) written over the
/// file's blocks. The resulting bytes and the error, if any (`Some(None)`
/// for an error whose text is not stated).
pub open spec fn dta_saved(d: Seq<u8>, m: MetaSpec) -> (Seq<u8>, Option<Option<Seq<char>>>) {
    if d.len() < 0x39D {
        (d, Some(Some("File too small for volume descriptor"@)))
    } else if d.len() < 0x39E {
        (d, Some(unstated()))
    } else {
        match songs_dta(file_table(d, descriptor_of(d)), d) {
            Err(e) => (d, Some(Some(e))),
            Ok((content, entry)) => {
                let offs = chain_offsets(d, entry.starting_block, entry.num_blocks as nat);
                if !offsets_fit(offs) {
                    (d, Some(Some(offsets_error())))
                } else if content.len() > usize::MAX / 8 {
                    (d, Some(Some(too_large_error())))
                } else {
                    match dta_parse(dta_text(content)) {
                        Err(_) => (d, Some(Some("Unexpected end of input in list"@))),
                        Ok(nodes) => {
                            let w = dta_written(
                                d,
                                encode_utf8(print_nodes(metadata_applied(nodes, m))),
                                offs,
                                entry.file_size,
                                None,
                            );
                            (
                                w.0,
                                match w.1 {
                                    Some(e) => Some(Some(e)),
                                    None => None,
                                },
                            )
                        },
                    }
                }
            },
        }
    }
}

/// The package after writing the display name and the description given.
pub open spec fn texts_saved(d: Seq<u8>, name: Option<Seq<char>>, desc: Option<Seq<char>>) -> Seq<u8> {
    let d1 = match name {
        Some(n) => text_written(d, 0x411, 0x100, utf16_encode(n)),
        None => d,
    };
    match desc {
        Some(t) => text_written(d1, 0xD11, 0x100, utf16_encode(t)),
        None => d1,
    }
}

/// Saving an edit into a package: the display name and the description,
/// then the thumbnail, then the metadata, each where given; the resulting
/// bytes and the error of the step that fails, if any.
pub open spec fn package_saved(
    d: Seq<u8>,
    name: Option<Seq<char>>,
    desc: Option<Seq<char>>,
    thumbnail: Option<Seq<u8>>,
    meta: Option<MetaSpec>,
) -> (Seq<u8>, Option<Option<Seq<char>>>) {
    let d2 = texts_saved(d, name, desc);
    match thumbnail {
        Some(t) if t.len() > 0x4000 => (d2, Some(Some(thumbnail_error(t.len() as int)))),
        _ => {
            let d3 = match thumbnail {
                Some(t) => thumbnail_written(d2, t),
                None => d2,
            };
            match meta {
                Some(m) => dta_saved(d3, m),
                None => (d3, None),
            }
        },
    }
}

pub open spec fn opt_text(s: Option<&str>) -> Option<Seq<char>> {
    match s {
        Some(t) => Some(t@),
        None => None,
    }
}

fn offsets_fit_check(offs: &Vec<u64>) -> (b: bool)
    ensures
        b == offsets_fit(offs@),
{
    if offs.len() > usize::MAX / 0x1000 {
        return false;
    }
    let mut k: usize = 0;
    while k < offs.len()
        invariant
            k <= offs@.len(),
            forall|j: int| 0 <= j < k ==> #[trigger] offs@[j] + 0x1000 <= usize::MAX,
        decreases offs@.len() - k,
    {
        if offs[k] > (usize::MAX - 0x1000) as u64 {
            return false;
        }
        k = k + 1;
    }
    true
}

/// Writes edited metadata into the `songs.dta` of a package.
fn save_dta(data: &mut Vec<u8>, meta: &SongMetadata) -> (r: Result<(), String>)
    ensures
        final(data)@ == dta_saved(old(data)@, meta@).0,
        match r {
            Ok(_) => dta_saved(old(data)@, meta@).1 is None,
            Err(e) => dta_saved(old(data)@, meta@).1 matches Some(m) && error_matches(e@, m),
        },
{
    let copy = data.clone();
    assert(copy@ =~= data@);
    let fs = match StfsFilesystem::parse(copy) {
        Ok(fs) => fs,
        Err(e) => {
            return Err(e);
        },
    };
    let (content, entry) = match fs.extract_songs_dta() {
        Ok(t) => t,
        Err(e) => {
            return Err(e);
        },
    };
    let offsets = match fs.get_songs_dta_location() {
        Ok((_, o)) => o,
        Err(e) => {
            return Err(e);
        },
    };
    if !offsets_fit_check(&offsets) {
        return Err(String::from_str("Block offsets exceed the address space"));
    }
    if content.len() > usize::MAX / 8 {
        return Err(String::from_str("songs.dta is too large to decode"));
    }
    let text = decode_dta(&content);
    let mut nodes = match parse_dta(text.as_str()) {
        Ok(n) => n,
        Err(e) => {
            return Err(e);
        },
    };
    apply_metadata(&mut nodes, meta);
    let new_dta = serialize_dta(&nodes);
    write_dta_content(data, new_dta.as_str().as_bytes(), offsets.as_slice(), entry.file_size, None)
}

/// Saves edits into the bytes of a package: the display name and the
/// description, the thumbnail (PNG or JPEG of at most 16384 bytes) and the
/// metadata, each where given. The package must reach past the thumbnail.
pub fn update_package(
    data: &mut Vec<u8>,
    display_name: Option<&str>,
    description: Option<&str>,
    thumbnail: Option<&[u8]>,
    metadata: Option<&SongMetadata>,
) -> (r: Result<(), String>)
    requires
        thumbnail matches Some(t) ==> (t@.len() <= 0x4000 ==> 0x171A + t@.len() <= old(data)@.len()),
    ensures
        final(data)@ == package_saved(
            old(data)@,
            opt_text(display_name),
            opt_text(description),
            match thumbnail {
                Some(t) => Some(t@),
                None => None,
            },
            match metadata {
                Some(m) => Some(m@),
                None => None,
            },
        ).0,
        match r {
            Ok(_) => package_saved(
                old(data)@,
                opt_text(display_name),
                opt_text(description),
                match thumbnail {
                    Some(t) => Some(t@),
                    None => None,
                },
                match metadata {
                    Some(m) => Some(m@),
                    None => None,
                },
            ).1 is None,
            Err(e) => package_saved(
                old(data)@,
                opt_text(display_name),
                opt_text(description),
                match thumbnail {
                    Some(t) => Some(t@),
                    None => None,
                },
                match metadata {
                    Some(m) => Some(m@),
                    None => None,
                },
            ).1 matches Some(m) && error_matches(e@, m),
        },
{
    match display_name {
        Some(n) => write_display_name(data, n),
        None => {},
    }
    match description {
        Some(t) => write_description(data, t),
        None => {},
    }
    match thumbnail {
        Some(t) => {
            match write_thumbnail(data, t) {
                Ok(_) => {},
                Err(e) => {
                    return Err(e);
                },
            }
        },
        None => {},
    }
    match metadata {
        Some(m) => save_dta(data, m),
        None => Ok(()),
    }
}

// ---------------------------------------------------------------- song folders

/// The name a song goes by: "artist - name", or the name alone, or the
/// folder's name where the song has none.
pub open spec fn display_of(m: MetaSpec, folder_name: Seq<char>) -> Seq<char> {
    if m.name.len() > 0 && m.artist.len() > 0 {
        m.artist + " - "@ + m.name
    } else if m.name.len() > 0 {
        m.name
    } else {
        folder_name
    }
}

/// The name a song goes by, from its metadata and its folder's name.
pub fn folder_display_name(meta: &SongMetadata, folder_name: &str) -> (r: String)
    ensures
        r@ == display_of(meta@, folder_name@),
{
    let name = chars_of(meta.name.as_str());
    let artist = chars_of(meta.artist.as_str());
    if name.len() > 0 && artist.len() > 0 {
        let mut v = crate::text::copy_chars(artist.as_slice());
        push_str(&mut v, " - ");
        extend_chars(&mut v, name.as_slice());
        string_from_chars(v.as_slice())
    } else if name.len() > 0 {
        string_from_chars(name.as_slice())
    } else {
        String::from_str(folder_name)
    }
}

/// The editor's details of a song folder, from its `song.ini` text, the
/// folder's name, its album art as a data URL (empty where it has none) and
/// the size of `song.ini`.
pub fn folder_details(
    path: String,
    content: &str,
    folder_name: &str,
    thumbnail_base64: String,
    ini_size: u32,
) -> (d: SongDetails)
    ensures
        details_view(d) == (DetailsSpec {
            path: path@,
            display_name: display_of(song_ini_meta(content@), folder_name@),
            description: loading_phrase_of(lines(content@)),
            title_name: song_ini_meta(content@).name,
            thumbnail_base64: thumbnail_base64@,
            metadata: song_ini_meta(content@),
            raw_dta: content@,
            dta_file_size: ini_size,
            validation_issues: validation_issues(song_ini_meta(content@), thumbnail_base64@.len() > 0),
            is_folder: true,
        }),
{
    let metadata = parse_song_ini(content);
    let description = extract_loading_phrase(content);
    let display_name = folder_display_name(&metadata, folder_name);
    let has_thumb = thumbnail_base64.as_str().unicode_len() > 0;
    let validation_issues = validate_metadata(&metadata, has_thumb);
    let title_name = metadata.name.clone();
    let d = SongDetails {
        path,
        display_name,
        description,
        title_name,
        thumbnail_base64,
        metadata,
        raw_dta: String::from_str(content),
        dta_file_size: ini_size,
        validation_issues,
        is_folder: true,
    };
    assert(details_view(d).validation_issues =~= crate::dta::validator::issue_views(
        d.validation_issues@,
    ));
    d
}

pub struct SummarySpec {
    pub path: Seq<char>,
    pub display_name: Seq<char>,
    pub description: Seq<char>,
    pub title_name: Seq<char>,
    pub has_thumbnail: bool,
    pub is_folder: bool,
    pub album_name: Seq<char>,
    pub author: Seq<char>,
    pub game_origin: Seq<char>,
}

pub open spec fn summary_view(s: SongSummary) -> SummarySpec {
    SummarySpec {
        path: s.path@,
        display_name: s.display_name@,
        description: s.description@,
        title_name: s.title_name@,
        has_thumbnail: s.has_thumbnail,
        is_folder: s.is_folder,
        album_name: s.album_name@,
        author: s.author@,
        game_origin: s.game_origin@,
    }
}

/// The list entry of a song folder: its name, its loading phrase (or the
/// folder's name where there is none) and a few metadata fields.
pub open spec fn folder_summary_of(path: Seq<char>, content: Seq<char>, folder_name: Seq<char>, has_art: bool) -> SummarySpec {
    let m = song_ini_meta(content);
    let phrase = loading_phrase_of(lines(content));
    SummarySpec {
        path,
        display_name: display_of(m, folder_name),
        description: if phrase.len() > 0 {
            phrase
        } else {
            folder_name
        },
        title_name: m.name,
        has_thumbnail: has_art,
        is_folder: true,
        album_name: m.album_name,
        author: m.author,
        game_origin: m.game_origin,
    }
}

/// The list entry of a song folder, from its `song.ini` text.
pub fn folder_summary(path: String, content: &str, folder_name: &str, has_art: bool) -> (s: SongSummary)
    ensures
        summary_view(s) == folder_summary_of(path@, content@, folder_name@, has_art),
{
    let meta = parse_song_ini(content);
    let phrase = extract_loading_phrase(content);
    let display_name = folder_display_name(&meta, folder_name);
    let description = if phrase.as_str().unicode_len() > 0 {
        phrase
    } else {
        String::from_str(folder_name)
    };
    SongSummary {
        path,
        display_name,
        description,
        title_name: meta.name,
        has_thumbnail: has_art,
        is_folder: true,
        album_name: meta.album_name,
        author: meta.author,
        game_origin: meta.game_origin,
    }
}

// ---------------------------------------------------------------- batch validation

/// What validating one song found: its name and the issues, or `None` where
/// it could not be read.
pub open spec fn outcome_view(o: Option<(String, Vec<ValidationIssue>)>) -> Option<(Seq<char>, Seq<IssueSpec>)> {
    match o {
        Some((n, issues)) => Some((n@, issues@.map_values(|i: ValidationIssue| i@))),
        None => None,
    }
}

/// Validates a song folder: its name and the issues its `song.ini` has.
pub fn validate_folder(content: &str, folder_name: &str, has_art: bool) -> (r: (String, Vec<ValidationIssue>))
    ensures
        r.0@ == display_of(song_ini_meta(content@), folder_name@),
        r.1@.map_values(|i: ValidationIssue| i@) == validation_issues(song_ini_meta(content@), has_art),
{
    let meta = parse_song_ini(content);
    let display = folder_display_name(&meta, folder_name);
    let issues = validate_metadata(&meta, has_art);
    assert(issues@.map_values(|i: ValidationIssue| i@) =~= crate::dta::validator::issue_views(issues@));
    (display, issues)
}

/// Validating a package: its display name and the issues of its metadata;
/// `None` where the header or `songs.dta` cannot be read.
pub open spec fn package_validation(data: Seq<u8>) -> Option<(Seq<char>, Seq<IssueSpec>)> {
    if header_error(data, 0x971A) is Some || !texts_decode(data) {
        None
    } else {
        let h = header_of(data);
        match package_meta(data, false) {
            Ok((m, _, _)) => Some((h.display_name, validation_issues(m, h.thumbnail_size > 0))),
            Err(_) => None,
        }
    }
}

/// Validates a package.
pub fn validate_package(data: Vec<u8>) -> (r: Option<(String, Vec<ValidationIssue>)>)
    ensures
        outcome_view(r) == package_validation(data@),
{
    let header = match parse_header(data.as_slice()) {
        Ok(h) => h,
        Err(_) => {
            return None;
        },
    };
    let has_thumb = header.thumbnail_size > 0;
    match package_metadata(data, false) {
        Ok((meta, _, _)) => {
            let issues = validate_metadata(&meta, has_thumb);
            assert(issues@.map_values(|i: ValidationIssue| i@) =~= crate::dta::validator::issue_views(
                issues@,
            ));
            Some((header.display_name, issues))
        },
        Err(_) => None,
    }
}

pub open spec fn has_level(issues: Seq<IssueSpec>, l: ValidationLevel) -> bool {
    exists|i: int| 0 <= i < issues.len() && (#[trigger] issues[i]).level == l
}

/// The songs with issues, in order, each with its path.
pub open spec fn flagged(paths: Seq<Seq<char>>, outcomes: Seq<Option<(Seq<char>, Seq<IssueSpec>)>>) -> Seq<
    (Seq<char>, Seq<char>, Seq<IssueSpec>),
>
    decreases outcomes.len(),
{
    if outcomes.len() == 0 || paths.len() != outcomes.len() {
        Seq::empty()
    } else {
        let prev = flagged(paths.drop_last(), outcomes.drop_last());
        match outcomes.last() {
            Some((n, issues)) => if issues.len() > 0 {
                prev.push((paths.last(), n, issues))
            } else {
                prev
            },
            None => prev,
        }
    }
}

pub open spec fn count_failures(outcomes: Seq<Option<(Seq<char>, Seq<IssueSpec>)>>) -> int
    decreases outcomes.len(),
{
    if outcomes.len() == 0 {
        0
    } else {
        count_failures(outcomes.drop_last()) + if outcomes.last() is None {
            1int
        } else {
            0
        }
    }
}

pub open spec fn count_errors(rs: Seq<(Seq<char>, Seq<char>, Seq<IssueSpec>)>) -> int
    decreases rs.len(),
{
    if rs.len() == 0 {
        0
    } else {
        count_errors(rs.drop_last()) + if has_level(rs.last().2, ValidationLevel::Error) {
            1int
        } else {
            0
        }
    }
}

pub open spec fn count_warnings_only(rs: Seq<(Seq<char>, Seq<char>, Seq<IssueSpec>)>) -> int
    decreases rs.len(),
{
    if rs.len() == 0 {
        0
    } else {
        count_warnings_only(rs.drop_last()) + if !has_level(rs.last().2, ValidationLevel::Error)
            && has_level(rs.last().2, ValidationLevel::Warning) {
            1int
        } else {
            0
        }
    }
}

pub open spec fn result_view(r: crate::commands::SongValidationResult) -> (Seq<char>, Seq<char>, Seq<IssueSpec>) {
    (r.path@, r.display_name@, r.issues@.map_values(|i: ValidationIssue| i@))
}

fn has_issue_level(issues: &Vec<ValidationIssue>, l: ValidationLevel) -> (b: bool)
    ensures
        b == has_level(issues@.map_values(|i: ValidationIssue| i@), l),
{
    let ghost v = issues@.map_values(|i: ValidationIssue| i@);
    let mut k: usize = 0;
    while k < issues.len()
        invariant
            v == issues@.map_values(|i: ValidationIssue| i@),
            k <= issues@.len(),
            forall|j: int| 0 <= j < k ==> (#[trigger] v[j]).level != l,
        decreases issues@.len() - k,
    {
        if issues[k].level == l {
            assert(v[k as int].level == l);
            return true;
        }
        k = k + 1;
    }
    false
}

/// Tallies the validation of a batch: the songs with issues, how many have
/// errors, how many warnings but no errors, how many are clean and how many
/// could not be read.
pub fn summarize_validation(paths: Vec<String>, outcomes: Vec<Option<(String, Vec<ValidationIssue>)>>) -> (r:
    crate::commands::BatchValidateResult)
    requires
        paths@.len() == outcomes@.len(),
    ensures
        ({
            let ps = paths@.map_values(|p: String| p@);
            let os = outcomes@.map_values(|o: Option<(String, Vec<ValidationIssue>)>| outcome_view(o));
            let f = flagged(ps, os);
            &&& r.results@.map_values(|x: crate::commands::SongValidationResult| result_view(x)) == f
            &&& r.total_songs == outcomes@.len()
            &&& r.parse_failures == count_failures(os)
            &&& r.songs_with_errors == count_errors(f)
            &&& r.songs_with_warnings == count_warnings_only(f)
            &&& r.songs_clean == outcomes@.len() - f.len() - count_failures(os)
        }),
{
    let ghost ps = paths@.map_values(|p: String| p@);
    let ghost os = outcomes@.map_values(|o: Option<(String, Vec<ValidationIssue>)>| outcome_view(o));
    let total = outcomes.len();
    let mut paths = paths;
    let mut outcomes = outcomes;
    let mut results: Vec<crate::commands::SongValidationResult> = Vec::new();
    let mut failures: usize = 0;
    let mut errors: usize = 0;
    let mut warnings: usize = 0;
    let mut i: usize = 0;
    let ghost p0 = paths@;
    let ghost o0 = outcomes@;
    while i < total
        invariant
            total == o0.len(),
            p0.len() == o0.len(),
            paths@.len() == p0.len(),
            outcomes@.len() == o0.len(),
            ps == p0.map_values(|p: String| p@),
            os == o0.map_values(|o: Option<(String, Vec<ValidationIssue>)>| outcome_view(o)),
            forall|j: int| i <= j < total ==> #[trigger] paths@[j] == p0[j],
            forall|j: int| i <= j < total ==> #[trigger] outcomes@[j] == o0[j],
            i <= total,
            results@.map_values(|x: crate::commands::SongValidationResult| result_view(x)) == flagged(
                ps.take(i as int),
                os.take(i as int),
            ),
            failures == count_failures(os.take(i as int)),
            errors == count_errors(flagged(ps.take(i as int), os.take(i as int))),
            warnings == count_warnings_only(flagged(ps.take(i as int), os.take(i as int))),
            failures <= i,
            results@.len() + failures <= i,
            errors <= results@.len(),
            warnings <= results@.len(),
        decreases total - i,
    {
        let ghost before = results@.map_values(|x: crate::commands::SongValidationResult| result_view(x));
        let ghost f_old = flagged(ps.take(i as int), os.take(i as int));
        let ghost f_new = flagged(ps.take(i + 1), os.take(i + 1));
        assert(ps.take(i + 1).drop_last() =~= ps.take(i as int));
        assert(os.take(i + 1).drop_last() =~= os.take(i as int));
        assert(os.take(i + 1).last() == outcome_view(o0[i as int]));
        assert(ps.take(i + 1).last() == p0[i as int]@);
        let mut o: Option<(String, Vec<ValidationIssue>)> = None;
        std::mem::swap(&mut o, &mut outcomes[i]);
        let mut p: String = String::new();
        std::mem::swap(&mut p, &mut paths[i]);
        assert(o == o0[i as int] && p == p0[i as int]);
        match o {
            Some((display_name, issues)) => {
                if issues.len() > 0 {
                    let e = has_issue_level(&issues, ValidationLevel::Error);
                    let w = has_issue_level(&issues, ValidationLevel::Warning);
                    if e {
                        errors = errors + 1;
                    } else if w {
                        warnings = warnings + 1;
                    }
                    let item = crate::commands::SongValidationResult { path: p, display_name, issues };
                    results.push(item);
                    assert(results@.map_values(|x: crate::commands::SongValidationResult| result_view(x))
                        =~= before.push(result_view(item)));
                    assert(f_new == f_old.push(result_view(item)));
                    assert(f_new.drop_last() =~= f_old);
                    assert(f_new.last() == result_view(item));
                }
            },
            None => {
                failures = failures + 1;
            },
        }
        i = i + 1;
    }
    assert(ps.take(total as int) =~= ps);
    assert(os.take(total as int) =~= os);
    crate::commands::BatchValidateResult {
        total_songs: total,
        songs_with_errors: errors,
        songs_with_warnings: warnings,
        songs_clean: total - results.len() - failures,
        parse_failures: failures,
        results,
    }
}

/// The list entry of a package: its header texts, whether it has a
/// thumbnail, and album, author and game origin from its `songs.dta` (empty
/// where that cannot be read); `None` where the header cannot be read.
pub open spec fn package_summary_of(path: Seq<char>, data: Seq<u8>) -> Option<SummarySpec> {
    if header_error(data, 0x171A) is Some || !texts_decode(data) {
        None
    } else {
        let h = summary_of(data);
        let fields = match package_meta(data, false) {
            Ok((m, _, _)) => (m.album_name, m.author, m.game_origin),
            Err(_) => (Seq::empty(), Seq::empty(), Seq::empty()),
        };
        Some(
            SummarySpec {
                path,
                display_name: h.display_name,
                description: h.description,
                title_name: h.title_name,
                has_thumbnail: h.thumbnail_size > 0,
                is_folder: false,
                album_name: fields.0,
                author: fields.1,
                game_origin: fields.2,
            },
        )
    }
}

/// The list entry of a package whose bytes are `data`.
pub fn package_summary(path: String, data: Vec<u8>) -> (r: Option<SongSummary>)
    ensures
        match r {
            Some(s) => package_summary_of(path@, data@) == Some(summary_view(s)),
            None => package_summary_of(path@, data@) is None,
        },
{
    let header = match parse_header_summary(data.as_slice()) {
        Ok(h) => h,
        Err(_) => {
            return None;
        },
    };
    let (album_name, author, game_origin) = match package_metadata(data, false) {
        Ok((m, _, _)) => (m.album_name, m.author, m.game_origin),
        Err(_) => (String::new(), String::new(), String::new()),
    };
    Some(
        SongSummary {
            path,
            display_name: header.display_name,
            description: header.description,
            title_name: header.title_name,
            has_thumbnail: header.thumbnail_size > 0,
            is_folder: false,
            album_name,
            author,
            game_origin,
        },
    )
}


// ---------------------------------------------------------------- opening a folder

/// A copy of a summary, field by field.
pub fn copy_summary(s: &SongSummary) -> (r: SongSummary)
    ensures
        summary_view(r) == summary_view(*s),
{
    SongSummary {
        path: s.path.clone(),
        display_name: s.display_name.clone(),
        description: s.description.clone(),
        title_name: s.title_name.clone(),
        has_thumbnail: s.has_thumbnail,
        is_folder: s.is_folder,
        album_name: s.album_name.clone(),
        author: s.author.clone(),
        game_origin: s.game_origin.clone(),
    }
}

/// Whether a cached row still describes an entry: it was stored with the
/// same modification time and size.
pub open spec fn row_fresh(row: Option<CacheRow>, sig: (i64, i64)) -> bool {
    match row {
        Some(r) => r.mtime == sig.0 && r.size == sig.1,
        None => false,
    }
}

/// The summaries served from the cache for the first `n` entries: those of
/// fresh rows that hold one (a fresh row without one is a known non-song).
pub open spec fn served(sigs: Seq<(i64, i64)>, rows: Seq<Option<CacheRow>>, n: int) -> Seq<SummarySpec>
    decreases n,
{
    if n <= 0 {
        Seq::empty()
    } else {
        let prev = served(sigs, rows, n - 1);
        match rows[n - 1] {
            Some(r) => if r.mtime == sigs[n - 1].0 && r.size == sigs[n - 1].1 {
                match r.summary {
                    Some(sm) => prev.push(summary_view(sm)),
                    None => prev,
                }
            } else {
                prev
            },
            None => prev,
        }
    }
}

/// The positions below `n` of the entries that must be parsed again.
pub open spec fn stale(sigs: Seq<(i64, i64)>, rows: Seq<Option<CacheRow>>, n: int) -> Seq<int>
    decreases n,
{
    if n <= 0 {
        Seq::empty()
    } else if row_fresh(rows[n - 1], sigs[n - 1]) {
        stale(sigs, rows, n - 1)
    } else {
        stale(sigs, rows, n - 1).push(n - 1)
    }
}

/// Splits scanned entries by what the scan cache holds for them. Entry `i`
/// has modification time and size `sigs[i]`, and `rows[i]` is the cache's
/// row for its path. Returns the summaries served from the cache and the
/// positions of the entries to parse again.
pub fn split_by_cache(sigs: &Vec<(i64, i64)>, rows: &Vec<Option<CacheRow>>) -> (r: (Vec<SongSummary>, Vec<usize>))
    requires
        rows@.len() == sigs@.len(),
    ensures
        r.0@.map_values(|x: SongSummary| summary_view(x)) == served(sigs@, rows@, sigs@.len() as int),
        int_indices(r.1@) == stale(sigs@, rows@, sigs@.len() as int),
{
    let mut songs: Vec<SongSummary> = Vec::new();
    let mut parse: Vec<usize> = Vec::new();
    let mut i: usize = 0;
    while i < sigs.len()
        invariant
            rows@.len() == sigs@.len(),
            i <= sigs@.len(),
            songs@.map_values(|x: SongSummary| summary_view(x)) == served(sigs@, rows@, i as int),
            int_indices(parse@) == stale(sigs@, rows@, i as int),
        decreases sigs@.len() - i,
    {
        let ghost s0 = songs@;
        let ghost p0 = parse@;
        let (mtime, size) = sigs[i];
        let fresh = match &rows[i] {
            Some(row) => row.mtime == mtime && row.size == size,
            None => false,
        };
        if fresh {
            match &rows[i] {
                Some(row) => match &row.summary {
                    Some(sm) => {
                        let c = copy_summary(sm);
                        songs.push(c);
                        assert(songs@.map_values(|x: SongSummary| summary_view(x)) =~= s0.map_values(
                            |x: SongSummary| summary_view(x),
                        ).push(summary_view(*sm)));
                    },
                    None => {},
                },
                None => {},
            }
        } else {
            parse.push(i);
            assert(int_indices(parse@) =~= int_indices(p0).push(i as int));
        }
        i = i + 1;
    }
    (songs, parse)
}

/// The lower-cased display names, by which song lists are sorted.
pub open spec fn display_keys(songs: Seq<SongSummary>) -> Seq<Seq<char>> {
    Seq::new(songs.len(), |i: int| lowercase(songs[i].display_name@))
}

/// The songs sorted by lower-cased display name, songs with equal names kept
/// in their order.
pub fn sort_by_display_name(songs: &Vec<SongSummary>) -> (r: Vec<SongSummary>)
    ensures
        r@.len() == songs@.len(),
        forall|i: int| 0 <= i < r@.len() ==> summary_view(#[trigger] r@[i]) == summary_view(
            songs@[sort_by_key(iota(songs@.len() as int), display_keys(songs@))[i]],
        ),
        forall|i: int, j: int|
            0 <= i < j < r@.len() ==> !lex_lt(lowercase(#[trigger] r@[j].display_name@), lowercase(#[trigger] r@[i].display_name@)),
{
    let mut keys: Vec<Vec<char>> = Vec::new();
    let mut i: usize = 0;
    while i < songs.len()
        invariant
            i <= songs@.len(),
            keys@.len() == i,
            forall|j: int| 0 <= j < i ==> (#[trigger] keys@[j])@ == display_keys(songs@)[j],
        decreases songs@.len() - i,
    {
        let l = str_to_lowercase(songs[i].display_name.as_str());
        keys.push(chars_of(l.as_str()));
        i = i + 1;
    }
    assert(keys@.map_values(|v: Vec<char>| v@) =~= display_keys(songs@));
    let order = sorted_order(&keys);
    let ghost ord = sort_by_key(iota(songs@.len() as int), display_keys(songs@));
    let mut out: Vec<SongSummary> = Vec::new();
    let mut o: usize = 0;
    while o < order.len()
        invariant
            ord == sort_by_key(iota(songs@.len() as int), display_keys(songs@)),
            int_indices(order@) == ord,
            order@.len() == songs@.len(),
            forall|j: int| 0 <= j < order@.len() ==> #[trigger] order@[j] < songs@.len(),
            o <= order@.len(),
            out@.len() == o,
            forall|j: int| 0 <= j < o ==> summary_view(#[trigger] out@[j]) == summary_view(songs@[ord[j]]),
        decreases order@.len() - o,
    {
        let h = order[o];
        assert(int_indices(order@)[o as int] == h as int);
        out.push(copy_summary(&songs[h]));
        o = o + 1;
    }
    proof {
        let dk = display_keys(songs@);
        lemma_sort_in_order(iota(songs@.len() as int), dk);
        assert forall|i: int, j: int| 0 <= i < j < out@.len() implies !lex_lt(
            lowercase(#[trigger] out@[j].display_name@),
            lowercase(#[trigger] out@[i].display_name@),
        ) by {
            assert(int_indices(order@)[i] == order@[i] as int);
            assert(int_indices(order@)[j] == order@[j] as int);
            assert(dk[ord[i]] == lowercase(out@[i].display_name@));
            assert(dk[ord[j]] == lowercase(out@[j].display_name@));
        }
    }
    out
}

} // verus!
