//! Writing header fields and file contents back into package bytes.
use vstd::prelude::*;
use crate::stfs::header::{
    DESCRIPTION_OFFSET, DESCRIPTION_SIZE, DISPLAY_NAME_OFFSET, DISPLAY_NAME_SIZE,
    THUMBNAIL_DATA_OFFSET, THUMBNAIL_MAX_SIZE, THUMBNAIL_SIZE_OFFSET,
    TITLE_THUMBNAIL_SIZE_OFFSET,
};
use crate::stfs::header::{
    field_units, header_error, header_of, package_type_of, summary_of, text_field, texts_decode, TITLE_NAME_OFFSET,
    TITLE_NAME_SIZE,
};
use crate::stfs::utf16::{char_units, encode_utf16, lemma_utf16_round_trip, utf16_encode};
use crate::stfs::bytes::{be16, be32};
use crate::stfs::filesystem::{
    descriptor_of, file_table, slot_entries, songs_dta, table_entry, table_walk,
    backing_block, block_offset, hash_table_offset, BLOCK_REGION_BASE, chain_offsets, chain_read, file_content, hash_entry_offset, next_block, EntrySpec,
    CHAIN_END,
};
use crate::text::{chars_of, dec_digits, extend_chars, hex_digits, string_from_chars, u64_to_dec, u64_to_hex};

verus! {

pub const BLOCK_SIZE: u64 = 0x1000;

// ---------------------------------------------------------------- text fields

/// `data` after writing the code units `units` as a UTF-16BE field of
/// `max_bytes` bytes at `offset`: the field is zeroed, then each unit that
/// fits in the field goes in as two bytes, high byte first; bytes past the
/// end of `data` are skipped.
pub open spec fn text_written(data: Seq<u8>, offset: int, max_bytes: int, units: Seq<u16>) -> Seq<
    u8,
> {
    Seq::new(
        data.len(),
        |j: int|
            if offset <= j < offset + max_bytes {
                let i = (j - offset) / 2;
                if i < units.len() && i < max_bytes / 2 && offset + 2 * i + 1 < data.len() {
                    if (j - offset) % 2 == 0 {
                        (units[i] / 256) as u8
                    } else {
                        (units[i] % 256) as u8
                    }
                } else {
                    0u8
                }
            } else {
                data[j]
            },
    )
}

fn write_utf16be_string(data: &mut Vec<u8>, offset: usize, max_bytes: usize, value: &str)
    requires
        offset + max_bytes <= usize::MAX,
    ensures
        final(data)@ == text_written(old(data)@, offset as int, max_bytes as int, utf16_encode(value@)),
{
    let units = encode_utf16(value);
    let ghost d0 = data@;
    let n = data.len();
    let mut k: usize = 0;
    while k < max_bytes
        invariant
            offset + max_bytes <= usize::MAX,
            k <= max_bytes,
            n == data@.len(),
            d0.len() == n,
            forall|j: int|
                0 <= j < n ==> #[trigger] data@[j] == if offset <= j < offset + k {
                    0u8
                } else {
                    d0[j]
                },
        decreases max_bytes - k,
    {
        if offset + k < n {
            data.set(offset + k, 0);
        }
        k = k + 1;
    }
    let max_chars = max_bytes / 2;
    let m = if units.len() < max_chars {
        units.len()
    } else {
        max_chars
    };
    let ghost u = units@;
    let mut i: usize = 0;
    while i < m
        invariant
            offset + max_bytes <= usize::MAX,
            m <= u.len(),
            m <= max_bytes / 2,
            u == units@,
            i <= m,
            n == data@.len(),
            d0.len() == n,
            forall|j: int|
                0 <= j < n ==> #[trigger] data@[j] == if offset <= j < offset + max_bytes {
                    let q = (j - offset) / 2;
                    if q < i && offset + 2 * q + 1 < n {
                        if (j - offset) % 2 == 0 {
                            (u[q] / 256) as u8
                        } else {
                            (u[q] % 256) as u8
                        }
                    } else {
                        0u8
                    }
                } else {
                    d0[j]
                },
        decreases m - i,
    {
        let pos = offset + 2 * i;
        if pos + 1 < n {
            let cu = units[i];
            data.set(pos, (cu / 256) as u8);
            data.set(pos + 1, (cu % 256) as u8);
        }
        i = i + 1;
    }
    assert(data@ =~= text_written(d0, offset as int, max_bytes as int, u));
}

/// Writes the display name (UTF-16BE, at most 128 code units) into the header.
pub fn write_display_name(data: &mut Vec<u8>, name: &str)
    ensures
        final(data)@ == text_written(
            old(data)@,
            DISPLAY_NAME_OFFSET as int,
            DISPLAY_NAME_SIZE as int,
            utf16_encode(name@),
        ),
{
    write_utf16be_string(data, DISPLAY_NAME_OFFSET as usize, DISPLAY_NAME_SIZE as usize, name);
}

/// Writes the description (UTF-16BE, at most 128 code units) into the header.
pub fn write_description(data: &mut Vec<u8>, desc: &str)
    ensures
        final(data)@ == text_written(
            old(data)@,
            DESCRIPTION_OFFSET as int,
            DESCRIPTION_SIZE as int,
            utf16_encode(desc@),
        ),
{
    write_utf16be_string(data, DESCRIPTION_OFFSET as usize, DESCRIPTION_SIZE as usize, desc);
}

// ---------------------------------------------------------------- thumbnail

/// Byte `k` (0 = most significant) of the 32-bit big-endian form of `n`.
pub open spec fn be32_byte(n: int, k: int) -> u8 {
    if k == 0 {
        (n / 0x1000000 % 256) as u8
    } else if k == 1 {
        (n / 0x10000 % 256) as u8
    } else if k == 2 {
        (n / 0x100 % 256) as u8
    } else {
        (n % 256) as u8
    }
}

/// `data` after writing the thumbnail `image`: its size (big-endian) in both
/// size fields at 0x1712 and 0x1716, its bytes at 0x171A, and zeros over the
/// rest of the 16384-byte thumbnail region, as far as `data` reaches.
pub open spec fn thumbnail_written(data: Seq<u8>, image: Seq<u8>) -> Seq<u8> {
    Seq::new(
        data.len(),
        |j: int|
            if THUMBNAIL_SIZE_OFFSET <= j < THUMBNAIL_SIZE_OFFSET + 4 {
                be32_byte(image.len() as int, j - THUMBNAIL_SIZE_OFFSET)
            } else if TITLE_THUMBNAIL_SIZE_OFFSET <= j < TITLE_THUMBNAIL_SIZE_OFFSET + 4 {
                be32_byte(image.len() as int, j - TITLE_THUMBNAIL_SIZE_OFFSET)
            } else if THUMBNAIL_DATA_OFFSET <= j < THUMBNAIL_DATA_OFFSET + image.len() {
                image[j - THUMBNAIL_DATA_OFFSET]
            } else if THUMBNAIL_DATA_OFFSET <= j < THUMBNAIL_DATA_OFFSET + THUMBNAIL_MAX_SIZE {
                0u8
            } else {
                data[j]
            },
    )
}

pub open spec fn thumbnail_error(len: int) -> Seq<char> {
    "Thumbnail too large: "@ + dec_digits(len as nat) + " bytes (max 16384)"@
}

fn push_str(v: &mut Vec<char>, lit: &str)
    ensures
        final(v)@ == old(v)@ + lit@,
{
    let c = chars_of(lit);
    extend_chars(v, c.as_slice());
}

fn push_dec(v: &mut Vec<char>, n: u64)
    ensures
        final(v)@ == old(v)@ + dec_digits(n as nat),
{
    let d = u64_to_dec(n);
    extend_chars(v, d.as_slice());
}

/// Writes the big-endian form of `n` at `pos`.
fn put_be32(data: &mut Vec<u8>, pos: usize, n: u32)
    requires
        pos + 4 <= old(data).len(),
    ensures
        final(data)@.len() == old(data)@.len(),
        forall|j: int|
            0 <= j < old(data)@.len() ==> #[trigger] final(data)@[j] == if pos <= j < pos + 4 {
                be32_byte(n as int, j - pos)
            } else {
                old(data)@[j]
            },
{
    data.set(pos, (n / 0x1000000 % 256) as u8);
    data.set(pos + 1, (n / 0x10000 % 256) as u8);
    data.set(pos + 2, (n / 0x100 % 256) as u8);
    data.set(pos + 3, (n % 256) as u8);
}

/// Writes a thumbnail image (PNG or JPEG, at most 16384 bytes) into the
/// header. The package must reach past the image's bytes.
pub fn write_thumbnail(data: &mut Vec<u8>, image_data: &[u8]) -> (r: Result<(), String>)
    requires
        image_data@.len() <= THUMBNAIL_MAX_SIZE ==> THUMBNAIL_DATA_OFFSET + image_data@.len()
            <= old(data)@.len(),
    ensures
        r is Ok <==> image_data@.len() <= THUMBNAIL_MAX_SIZE,
        r is Ok ==> final(data)@ == thumbnail_written(old(data)@, image_data@),
        r is Err ==> final(data)@ == old(data)@ && r->Err_0@ == thumbnail_error(
            image_data@.len() as int,
        ),
{
    if image_data.len() as u64 > THUMBNAIL_MAX_SIZE {
        let mut v = chars_of("Thumbnail too large: ");
        push_dec(&mut v, image_data.len() as u64);
        push_str(&mut v, " bytes (max 16384)");
        return Err(string_from_chars(v.as_slice()));
    }
    let ghost d0 = data@;
    let len = image_data.len() as u32;
    put_be32(data, THUMBNAIL_SIZE_OFFSET as usize, len);
    put_be32(data, TITLE_THUMBNAIL_SIZE_OFFSET as usize, len);
    let ghost d1 = data@;
    let n = data.len();
    let base = THUMBNAIL_DATA_OFFSET as usize;
    let mut k: usize = 0;
    while k < THUMBNAIL_MAX_SIZE as usize
        invariant
            k <= THUMBNAIL_MAX_SIZE,
            n == data@.len(),
            d1.len() == n,
            base == THUMBNAIL_DATA_OFFSET,
            forall|j: int|
                0 <= j < n ==> #[trigger] data@[j] == if base <= j < base + k {
                    0u8
                } else {
                    d1[j]
                },
        decreases THUMBNAIL_MAX_SIZE - k,
    {
        if base + k < n {
            data.set(base + k, 0);
        }
        k = k + 1;
    }
    let ghost d2 = data@;
    let mut i: usize = 0;
    while i < image_data.len()
        invariant
            i <= image_data@.len(),
            base + image_data@.len() <= n,
            n == data@.len(),
            d2.len() == n,
            base == THUMBNAIL_DATA_OFFSET,
            forall|j: int|
                0 <= j < n ==> #[trigger] data@[j] == if base <= j < base + i {
                    image_data@[j - base]
                } else {
                    d2[j]
                },
        decreases image_data@.len() - i,
    {
        data.set(base + i, image_data[i]);
        i = i + 1;
    }
    assert(data@ =~= thumbnail_written(d0, image_data@));
    Ok(())
}

// ---------------------------------------------------------------- file contents

pub open spec fn block_oob_error(off: int) -> Seq<char> {
    "Block offset 0x"@ + hex_digits(off as nat) + " out of bounds"@
}

/// `data` with `bytes` written at `off`.
pub open spec fn put_bytes(data: Seq<u8>, off: int, bytes: Seq<u8>) -> Seq<u8> {
    Seq::new(
        data.len(),
        |j: int|
            if off <= j < off + bytes.len() {
                bytes[j - off]
            } else {
                data[j]
            },
    )
}

/// `data` with the block at `off` zeroed.
pub open spec fn zero_block(data: Seq<u8>, off: int) -> Seq<u8> {
    Seq::new(
        data.len(),
        |j: int|
            if off <= j < off + BLOCK_SIZE {
                0u8
            } else {
                data[j]
            },
    )
}

/// Writes `content` into the blocks at `offs` in turn, up to 4096 bytes to a
/// block, until it is all written; with `clear`, each block is zeroed first
/// and must lie whole inside `data`, else only the bytes written must. The
/// resulting bytes, and the error for the first block that lies outside.
pub open spec fn blocks_written(data: Seq<u8>, content: Seq<u8>, offs: Seq<u64>, clear: bool) -> (
    Seq<u8>,
    Option<Seq<char>>,
)
    decreases offs.len(),
{
    if offs.len() == 0 {
        (data, None)
    } else {
        let off = offs[0] as int;
        let size: int = if content.len() < BLOCK_SIZE {
            content.len() as int
        } else {
            BLOCK_SIZE as int
        };
        let need = if clear {
            BLOCK_SIZE as int
        } else {
            size
        };
        if off + need > data.len() {
            (data, Some(block_oob_error(off)))
        } else {
            let cleared = if clear {
                zero_block(data, off)
            } else {
                data
            };
            let written = put_bytes(cleared, off, content.take(size));
            let rest = content.skip(size);
            if rest.len() == 0 {
                (written, None)
            } else {
                blocks_written(written, rest, offs.drop_first(), clear)
            }
        }
    }
}

fn block_oob_msg(off: u64) -> (s: String)
    ensures
        s@ == block_oob_error(off as int),
{
    let mut v = chars_of("Block offset 0x");
    let h = u64_to_hex(off);
    extend_chars(&mut v, h.as_slice());
    push_str(&mut v, " out of bounds");
    string_from_chars(v.as_slice())
}

fn write_blocks(data: &mut Vec<u8>, content: &[u8], offs: &[u64], clear: bool) -> (r: Result<(), String>)
    requires
        forall|k: int| 0 <= k < offs@.len() ==> #[trigger] offs@[k] + BLOCK_SIZE <= usize::MAX,
    ensures
        final(data)@ == blocks_written(old(data)@, content@, offs@, clear).0,
        match r {
            Ok(_) => blocks_written(old(data)@, content@, offs@, clear).1 is None,
            Err(e) => blocks_written(old(data)@, content@, offs@, clear).1 == Some(e@),
        },
{
    let ghost total = blocks_written(data@, content@, offs@, clear);
    let n = data.len();
    let mut k: usize = 0;
    let mut pos: usize = 0;
    let mut done = false;
    assert(content@.skip(0) =~= content@);
    assert(offs@.skip(0) =~= offs@);
    while k < offs.len() && !done
        invariant
            total == blocks_written(old(data)@, content@, offs@, clear),
            forall|t: int| 0 <= t < offs@.len() ==> #[trigger] offs@[t] + BLOCK_SIZE <= usize::MAX,
            k <= offs@.len(),
            pos <= content@.len(),
            n == data@.len(),
            done ==> total == (data@, None::<Seq<char>>),
            !done ==> blocks_written(data@, content@.skip(pos as int), offs@.skip(k as int), clear)
                == total,
        decreases offs@.len() - k,
    {
        let ghost d0 = data@;
        let ghost rest_offs = offs@.skip(k as int);
        let ghost rest_content = content@.skip(pos as int);
        assert(rest_offs[0] == offs@[k as int]);
        let off = offs[k] as usize;
        let remaining = content.len() - pos;
        let size: usize = if remaining < BLOCK_SIZE as usize {
            remaining
        } else {
            BLOCK_SIZE as usize
        };
        let need: usize = if clear {
            BLOCK_SIZE as usize
        } else {
            size
        };
        if off + need > n {
            assert(blocks_written(d0, rest_content, rest_offs, clear) == (d0, Some(block_oob_error(off as int))));
            return Err(block_oob_msg(off as u64));
        }
        if clear {
            let mut z: usize = 0;
            while z < BLOCK_SIZE as usize
                invariant
                    z <= BLOCK_SIZE,
                    off + BLOCK_SIZE <= n,
                    n == data@.len(),
                    d0.len() == n,
                    forall|j: int|
                        0 <= j < n ==> #[trigger] data@[j] == if off <= j < off + z {
                            0u8
                        } else {
                            d0[j]
                        },
                decreases BLOCK_SIZE - z,
            {
                data.set(off + z, 0);
                z = z + 1;
            }
            assert(data@ =~= zero_block(d0, off as int));
        }
        let ghost d1 = data@;
        let mut t: usize = 0;
        while t < size
            invariant
                t <= size,
                pos + size <= content.len(),
                off + size <= n,
                n == data@.len(),
                d1.len() == n,
                forall|j: int|
                    0 <= j < n ==> #[trigger] data@[j] == if off <= j < off + t {
                        content@[pos + j - off]
                    } else {
                        d1[j]
                    },
            decreases size - t,
        {
            data.set(off + t, content[pos + t]);
            t = t + 1;
        }
        assert(data@ =~= put_bytes(d1, off as int, rest_content.take(size as int)));
        assert(rest_content.skip(size as int) =~= content@.skip(pos + size));
        assert(rest_offs.drop_first() =~= offs@.skip(k + 1));
        pos = pos + size;
        if pos == content.len() {
            done = true;
        }
        k = k + 1;
    }
    if !done {
        assert(offs@.skip(k as int) =~= Seq::<u64>::empty());
    }
    Ok(())
}

pub open spec fn capacity_error(len: int, capacity: int) -> Seq<char> {
    "Modified DTA ("@ + dec_digits(len as nat) + " bytes) exceeds allocated block capacity ("@
        + dec_digits(capacity as nat)
        + " bytes). Cannot grow beyond original allocation without block reallocation."@
}

/// Writing a changed `songs.dta` back: refused where it outgrows both its
/// old size and its blocks; else the blocks are rewritten (each zeroed
/// first) and, given the offset of its file-table record, the record's size
/// field is set to the new length.
pub open spec fn dta_written(
    data: Seq<u8>,
    new_dta: Seq<u8>,
    offs: Seq<u64>,
    original_size: u32,
    entry_offset: Option<u64>,
) -> (Seq<u8>, Option<Seq<char>>) {
    let capacity = offs.len() * BLOCK_SIZE;
    if new_dta.len() > original_size && new_dta.len() > capacity {
        (data, Some(capacity_error(new_dta.len() as int, capacity as int)))
    } else {
        let w = blocks_written(data, new_dta, offs, true);
        if w.1 is Some {
            w
        } else {
            match entry_offset {
                Some(e) => {
                    let size_at = e + 0x34;
                    if size_at + 4 <= w.0.len() {
                        (
                            Seq::new(
                                w.0.len(),
                                |j: int|
                                    if size_at <= j < size_at + 4 {
                                        be32_byte(new_dta.len() as int % 0x1_0000_0000, j - size_at)
                                    } else {
                                        w.0[j]
                                    },
                            ),
                            None,
                        )
                    } else {
                        w
                    }
                },
                None => w,
            }
        }
    }
}

/// Writes a changed `songs.dta` back into the blocks it occupies.
/// `block_offsets` are the byte offsets of its blocks, `original_size` its
/// size in the file table and `file_entry_offset` the offset of its
/// file-table record, if known.
pub fn write_dta_content(
    data: &mut Vec<u8>,
    new_dta: &[u8],
    block_offsets: &[u64],
    original_size: u32,
    file_entry_offset: Option<u64>,
) -> (r: Result<(), String>)
    requires
        block_offsets@.len() * BLOCK_SIZE <= usize::MAX,
        forall|k: int|
            0 <= k < block_offsets@.len() ==> #[trigger] block_offsets@[k] + BLOCK_SIZE <= usize::MAX,
        file_entry_offset matches Some(e) ==> e + 0x38 <= usize::MAX,
    ensures
        final(data)@ == dta_written(
            old(data)@,
            new_dta@,
            block_offsets@,
            original_size,
            file_entry_offset,
        ).0,
        match r {
            Ok(_) => dta_written(
                old(data)@,
                new_dta@,
                block_offsets@,
                original_size,
                file_entry_offset,
            ).1 is None,
            Err(e) => dta_written(
                old(data)@,
                new_dta@,
                block_offsets@,
                original_size,
                file_entry_offset,
            ).1 == Some(e@),
        },
{
    if new_dta.len() > original_size as usize {
        let capacity = block_offsets.len() * BLOCK_SIZE as usize;
        if new_dta.len() > capacity {
            let mut v = chars_of("Modified DTA (");
            push_dec(&mut v, new_dta.len() as u64);
            push_str(&mut v, " bytes) exceeds allocated block capacity (");
            push_dec(&mut v, capacity as u64);
            push_str(
                &mut v,
                " bytes). Cannot grow beyond original allocation without block reallocation.",
            );
            return Err(string_from_chars(v.as_slice()));
        }
    }
    match write_blocks(data, new_dta, block_offsets, true) {
        Ok(_) => {},
        Err(e) => {
            return Err(e);
        },
    }
    match file_entry_offset {
        Some(entry_offset) => {
            let size_at = entry_offset as usize + 0x34;
            if size_at + 4 <= data.len() {
                let ghost d = data@;
                let len = (new_dta.len() as u64 % 0x1_0000_0000) as u32;
                put_be32(data, size_at, len);
                assert(data@ =~= dta_written(
                    old(data)@,
                    new_dta@,
                    block_offsets@,
                    original_size,
                    file_entry_offset,
                ).0);
            }
        },
        None => {},
    }
    Ok(())
}

/// Writes `content` over the blocks at `block_offsets`, in place, without
/// zeroing them and without changing any size. For `songs.dta`, see
/// `lemma_songs_dta_write_read_back` (what a package then reads back) and
/// `lemma_songs_dta_write_own` (writing its own bytes changes nothing).
pub fn write_file_content_inplace(data: &mut Vec<u8>, content: &[u8], block_offsets: &[u64]) -> (r:
    Result<(), String>)
    requires
        forall|k: int|
            0 <= k < block_offsets@.len() ==> #[trigger] block_offsets@[k] + BLOCK_SIZE <= usize::MAX,
    ensures
        final(data)@ == blocks_written(old(data)@, content@, block_offsets@, false).0,
        match r {
            Ok(_) => blocks_written(old(data)@, content@, block_offsets@, false).1 is None,
            Err(e) => blocks_written(old(data)@, content@, block_offsets@, false).1 == Some(e@),
        },
{
    write_blocks(data, content, block_offsets, false)
}

// ---------------------------------------------------------------- thumbnails that fit

/// Why the `image` crate could not make a JPEG thumbnail: the input did not
/// load, or the output did not encode; each with the crate's error text.
pub enum ImageFailure {
    Load(String),
    Encode(String),
}

pub open spec fn image_failure_view(f: ImageFailure) -> (bool, Seq<char>) {
    match f {
        ImageFailure::Load(e) => (true, e@),
        ImageFailure::Encode(e) => (false, e@),
    }
}

/// What the `image` crate makes of `image_data` loaded, resized to fit in a
/// `size` x `size` square (Lanczos3, keeping the aspect ratio) and encoded
/// as JPEG: the bytes, or whether loading failed and the error text.
pub uninterp spec fn jpeg_thumbnail(image_data: Seq<u8>, size: u32) -> Result<Seq<u8>, (bool, Seq<char>)>;

/// `image::load_from_memory`, `DynamicImage::resize` and `write_to` with
/// `ImageFormat::Jpeg`; the result is named `jpeg_thumbnail`.
#[verifier::external_body]
fn jpeg_at_size(image_data: &[u8], size: u32) -> (r: Result<Vec<u8>, ImageFailure>)
    ensures
        match r {
            Ok(b) => jpeg_thumbnail(image_data@, size) == Ok::<Seq<u8>, (bool, Seq<char>)>(b@),
            Err(f) => jpeg_thumbnail(image_data@, size) == Err::<Seq<u8>, (bool, Seq<char>)>(image_failure_view(f)),
        },
{
    let img = image::load_from_memory(image_data).map_err(|e| ImageFailure::Load(e.to_string()))?;
    let mut buf = Vec::new();
    img.resize(size, size, image::imageops::FilterType::Lanczos3)
        .write_to(&mut std::io::Cursor::new(&mut buf), image::ImageFormat::Jpeg)
        .map_err(|e| ImageFailure::Encode(e.to_string()))?;
    Ok(buf)
}

/// The sizes tried for a thumbnail, largest first.
pub open spec fn thumbnail_sizes() -> Seq<u32> {
    seq![256u32, 192u32, 128u32, 64u32]
}

/// The first JPEG thumbnail, from size `k` of `thumbnail_sizes` on, that
/// fits in the header's thumbnail field; a failure of the `image` crate
/// ends the search.
pub open spec fn resized_from(image_data: Seq<u8>, k: int) -> Result<Seq<u8>, Seq<char>>
    decreases 4 - k,
{
    if k < 0 || k >= 4 {
        Err("Image cannot be compressed to fit within 16384 bytes"@)
    } else {
        match jpeg_thumbnail(image_data, thumbnail_sizes()[k]) {
            Err((true, e)) => Err("Failed to load image: "@ + e),
            Err((false, e)) => Err("Failed to encode JPEG: "@ + e),
            Ok(b) => if b.len() <= THUMBNAIL_MAX_SIZE {
                Ok(b)
            } else {
                resized_from(image_data, k + 1)
            },
        }
    }
}

fn prefixed(prefix: &str, e: &String) -> (s: String)
    ensures
        s@ == prefix@ + e@,
{
    let mut v = chars_of(prefix);
    let c = chars_of(e.as_str());
    extend_chars(&mut v, c.as_slice());
    string_from_chars(v.as_slice())
}

/// Makes an image fit the 16384-byte header thumbnail: the largest of
/// 256, 192, 128 and 64 pixels square whose JPEG fits.
pub fn resize_thumbnail(image_data: &[u8]) -> (r: Result<Vec<u8>, String>)
    ensures
        crate::stfs::filesystem::bytes_result_view(r) == resized_from(image_data@, 0),
{
    let sizes: [u32; 4] = [256, 192, 128, 64];
    let mut k: usize = 0;
    while k < 4
        invariant
            k <= 4,
            sizes@ == thumbnail_sizes(),
            resized_from(image_data@, 0) == resized_from(image_data@, k as int),
        decreases 4 - k,
    {
        match jpeg_at_size(image_data, sizes[k]) {
            Err(ImageFailure::Load(e)) => {
                return Err(prefixed("Failed to load image: ", &e));
            },
            Err(ImageFailure::Encode(e)) => {
                return Err(prefixed("Failed to encode JPEG: ", &e));
            },
            Ok(buf) => {
                if buf.len() <= 0x4000 {
                    return Ok(buf);
                }
            },
        }
        k = k + 1;
    }
    Err(String::from_str("Image cannot be compressed to fit within 16384 bytes"))
}

// ---------------------------------------------------------------- laws

proof fn lemma_encode_nonzero(s: Seq<char>)
    requires
        forall|k: int| 0 <= k < s.len() ==> #[trigger] s[k] != '\0',
    ensures
        forall|q: int| 0 <= q < utf16_encode(s).len() ==> #[trigger] utf16_encode(s)[q] != 0,
    decreases s.len(),
{
    if s.len() > 0 {
        lemma_encode_nonzero(s.drop_last());
        let e = utf16_encode(s.drop_last());
        let c = s.last();
        assert(c != '\0');
        assert(utf16_encode(s) == e + char_units(c));
        if (c as u32) == 0 {
            vstd::utf8::char_u32_cast(c, 0);
            assert((0u32 as char) == '\0');
        }
        assert forall|q: int| 0 <= q < utf16_encode(s).len() implies #[trigger] utf16_encode(s)[q]
            != 0 by {
            if q >= e.len() {
                assert(utf16_encode(s)[q] == char_units(c)[q - e.len()]);
                if (c as u32) < 0x10000 {
                    assert(char_units(c)[0] == (c as u32) as u16);
                    assert(char_units(c)[0] != 0);
                } else {
                    let w = (c as u32) - 0x10000;
                    vstd::utf8::char_is_scalar(c);
                    assert(w < 0x100000);
                    assert(0 <= w / 0x400 < 0x400);
                    assert(char_units(c)[0] >= 0xD800);
                    assert(char_units(c)[1] >= 0xDC00);
                }
            } else {
                assert(utf16_encode(s)[q] == e[q]);
            }
        }
    }
}

proof fn lemma_units_read_back(data: Seq<u8>, offset: int, max_bytes: int, units: Seq<u16>, i: int)
    requires
        0 <= offset,
        0 <= i <= units.len() <= max_bytes / 2,
        offset + max_bytes < data.len(),
        forall|q: int| 0 <= q < units.len() ==> #[trigger] units[q] != 0,
    ensures
        field_units(text_written(data, offset, max_bytes, units), offset, i, max_bytes / 2)
            == units.skip(i),
    decreases units.len() - i,
{
    let w = text_written(data, offset, max_bytes, units);
    let a = offset + 2 * i;
    if i == units.len() {
        if i < max_bytes / 2 {
            assert((a - offset) / 2 == i);
            assert((a + 1 - offset) / 2 == i);
            assert(w[a] == 0 && w[a + 1] == 0);
        }
        assert(units.skip(i) =~= Seq::<u16>::empty());
    } else {
        lemma_units_read_back(data, offset, max_bytes, units, i + 1);
        assert((a - offset) / 2 == i && (a - offset) % 2 == 0);
        assert((a + 1 - offset) / 2 == i && (a + 1 - offset) % 2 == 1);
        assert(w[a] == (units[i] / 256) as u8);
        assert(w[a + 1] == (units[i] % 256) as u8);
        assert(be16(w[a], w[a + 1]) == units[i]);
        assert(units.skip(i) =~= seq![units[i]] + units.skip(i + 1));
    }
}

/// A text written into a header field of `max_bytes` bytes reads back as
/// that text, where its UTF-16 form fits the field and it holds no NUL.
pub proof fn lemma_text_read_back(data: Seq<u8>, offset: int, max_bytes: int, text: Seq<char>)
    requires
        0 <= offset,
        offset + max_bytes < data.len(),
        utf16_encode(text).len() <= max_bytes / 2,
        forall|k: int| 0 <= k < text.len() ==> #[trigger] text[k] != '\0',
    ensures
        text_field(text_written(data, offset, max_bytes, utf16_encode(text)), offset, max_bytes)
            == Some(text),
{
    let units = utf16_encode(text);
    lemma_encode_nonzero(text);
    lemma_units_read_back(data, offset, max_bytes, units, 0);
    assert(units.skip(0) =~= units);
    lemma_utf16_round_trip(text);
}

/// The display name written by `write_display_name` is what
/// `parse_header` and `parse_header_summary` read back, where it fits in
/// 128 UTF-16 code units and holds no NUL; the header's other text fields
/// are left as they were.
pub proof fn lemma_display_name_round_trip(data: Seq<u8>, name: Seq<char>)
    requires
        data.len() >= THUMBNAIL_DATA_OFFSET,
        utf16_encode(name).len() <= 128,
        forall|k: int| 0 <= k < name.len() ==> #[trigger] name[k] != '\0',
    ensures
        text_field(
            text_written(data, DISPLAY_NAME_OFFSET as int, DISPLAY_NAME_SIZE as int, utf16_encode(name)),
            DISPLAY_NAME_OFFSET as int,
            DISPLAY_NAME_SIZE as int,
        ) == Some(name),
        text_written(data, DISPLAY_NAME_OFFSET as int, DISPLAY_NAME_SIZE as int, utf16_encode(name)).subrange(
            DESCRIPTION_OFFSET as int,
            data.len() as int,
        ) == data.subrange(DESCRIPTION_OFFSET as int, data.len() as int),
{
    lemma_text_read_back(data, DISPLAY_NAME_OFFSET as int, DISPLAY_NAME_SIZE as int, name);
    let w = text_written(data, DISPLAY_NAME_OFFSET as int, DISPLAY_NAME_SIZE as int, utf16_encode(name));
    assert(w.subrange(DESCRIPTION_OFFSET as int, data.len() as int) =~= data.subrange(
        DESCRIPTION_OFFSET as int,
        data.len() as int,
    ));
}

/// The description written by `write_description` is what `parse_header`
/// reads back, where it fits in 128 UTF-16 code units and holds no NUL;
/// the display name before it is left as it was.
pub proof fn lemma_description_round_trip(data: Seq<u8>, desc: Seq<char>)
    requires
        data.len() >= THUMBNAIL_DATA_OFFSET,
        utf16_encode(desc).len() <= 128,
        forall|k: int| 0 <= k < desc.len() ==> #[trigger] desc[k] != '\0',
    ensures
        text_field(
            text_written(data, DESCRIPTION_OFFSET as int, DESCRIPTION_SIZE as int, utf16_encode(desc)),
            DESCRIPTION_OFFSET as int,
            DESCRIPTION_SIZE as int,
        ) == Some(desc),
        text_written(data, DESCRIPTION_OFFSET as int, DESCRIPTION_SIZE as int, utf16_encode(desc)).subrange(
            0,
            DESCRIPTION_OFFSET as int,
        ) == data.subrange(0, DESCRIPTION_OFFSET as int),
{
    lemma_text_read_back(data, DESCRIPTION_OFFSET as int, DESCRIPTION_SIZE as int, desc);
    let w = text_written(data, DESCRIPTION_OFFSET as int, DESCRIPTION_SIZE as int, utf16_encode(desc));
    assert(w.subrange(0, DESCRIPTION_OFFSET as int) =~= data.subrange(0, DESCRIPTION_OFFSET as int));
}

/// A thumbnail written by `write_thumbnail` is what `parse_header` reads
/// back: the same size and the same bytes.
pub proof fn lemma_thumbnail_round_trip(data: Seq<u8>, image: Seq<u8>)
    requires
        data.len() >= 0x971A,
        image.len() <= THUMBNAIL_MAX_SIZE,
    ensures
        header_of(thumbnail_written(data, image)).thumbnail_size == image.len(),
        header_of(thumbnail_written(data, image)).thumbnail_data == image,
{
    let w = thumbnail_written(data, image);
    let n = image.len() as int;
    let p = THUMBNAIL_SIZE_OFFSET as int;
    assert(w[p] == be32_byte(n, 0));
    assert(w[p + 1] == be32_byte(n, 1));
    assert(w[p + 2] == be32_byte(n, 2));
    assert(w[p + 3] == be32_byte(n, 3));
    assert(be32(w[p], w[p + 1], w[p + 2], w[p + 3]) == n) by (nonlinear_arith)
        requires
            0 <= n <= 0x4000,
            w[p] == (n / 0x1000000 % 256) as u8,
            w[p + 1] == (n / 0x10000 % 256) as u8,
            w[p + 2] == (n / 0x100 % 256) as u8,
            w[p + 3] == (n % 256) as u8,
    ;
    assert(header_of(w).thumbnail_data =~= image);
}

// ---------------------------------------------------------------- writing a file's own bytes back

proof fn lemma_block_offset_fits(block: u32)
    ensures
        0 <= block_offset(block) < 0x1_0000_0000_0000_0000,
        block_offset(block) as u64 as int == block_offset(block),
{
    let b = block as int;
    let k = backing_block(b);
    assert(0 <= k <= b + b / 170 + 3) by {
        if b >= 170 {
            assert((b - 170) / 170 <= b / 170) by (nonlinear_arith)
                requires
                    b >= 170,
            ;
        }
    }
    assert(b / 170 <= b) by (nonlinear_arith)
        requires
            b >= 0,
    ;
    assert(k * 0x1000 <= (3 * b + 3) * 0x1000) by (nonlinear_arith)
        requires
            0 <= k <= 3 * b + 3,
    ;
}

/// Writing back, in place, the bytes read from a chain of blocks, where the
/// chain gives all `remaining` bytes, leaves the data as it was.
proof fn lemma_chain_write_back(data: Seq<u8>, block: u32, remaining: nat, count: nat, c: Seq<u8>)
    requires
        chain_read(data, block, remaining, count) == Ok::<Seq<u8>, Seq<char>>(c),
        c.len() == remaining,
        remaining > 0,
    ensures
        blocks_written(data, c, chain_offsets(data, block, count), false) == (data, None::<Seq<char>>),
    decreases count,
{
    let offs = chain_offsets(data, block, count);
    assert(count > 0);
    let off = block_offset(block);
    lemma_block_offset_fits(block);
    assert(offs[0] as int == off);
    let size: int = if remaining < 0x1000 {
        remaining as int
    } else {
        0x1000
    };
    let chunk = data.subrange(off, off + size);
    let rest = (remaining - size) as nat;
    assert(off + size <= data.len());
    assert(c.take(size) =~= chunk) by {
        if rest == 0 {
            assert(c == chunk);
        } else {
            match next_block(data, block) {
                Err(_) => {},
                Ok(n) => {
                    if n == CHAIN_END {
                        assert(c == chunk);
                    } else {
                        let c2 = chain_read(data, n, rest, (count - 1) as nat)->Ok_0;
                        assert(c == chunk + c2);
                    }
                },
            }
        }
    }
    assert(put_bytes(data, off, c.take(size)) =~= data);
    if rest > 0 {
        let n = next_block(data, block)->Ok_0;
        assert(n != CHAIN_END) by {
            if n == CHAIN_END {
                assert(c == chunk);
            }
        }
        let c2 = chain_read(data, n, rest, (count - 1) as nat)->Ok_0;
        assert(c == chunk + c2);
        assert(c.skip(size) =~= c2);
        assert(offs.drop_first() =~= chain_offsets(data, n, (count - 1) as nat));
        lemma_chain_write_back(data, n, rest, (count - 1) as nat, c2);
    } else {
        assert(c.skip(size) =~= Seq::<u8>::empty());
    }
}

/// Writing a file's own bytes back over its chain of blocks, in place,
/// succeeds and leaves the package as it was, where the file is not empty
/// and its chain gives all its bytes.
pub proof fn lemma_write_own_content(data: Seq<u8>, e: EntrySpec)
    requires
        file_content(data, e) matches Ok(c) && c.len() == e.file_size && c.len() > 0,
    ensures
        blocks_written(
            data,
            file_content(data, e)->Ok_0,
            chain_offsets(data, e.starting_block, e.num_blocks as nat),
            false,
        ) == (data, None::<Seq<char>>),
{
    lemma_chain_write_back(data, e.starting_block, e.file_size as nat, e.num_blocks as nat, file_content(data, e)->Ok_0);
}

// ---------------------------------------------------------------- writing a file's chain, then reading it

/// The blocks of a chain of at most `count` blocks from `block`, as
/// `chain_offsets` follows it.
pub open spec fn chain_blocks(data: Seq<u8>, block: u32, count: nat) -> Seq<u32>
    decreases count,
{
    if count == 0 {
        Seq::empty()
    } else {
        seq![block] + match next_block(data, block) {
            Ok(n) => if n != CHAIN_END {
                chain_blocks(data, n, (count - 1) as nat)
            } else {
                Seq::empty()
            },
            Err(_) => Seq::empty(),
        }
    }
}

/// Whether byte `j` lies in the 4096 bytes of data block `x`.
pub open spec fn in_block(j: int, x: u32) -> bool {
    block_offset(x) <= j < block_offset(x) + 0x1000
}

/// Whether byte `j` lies in the next-block field (status byte and next
/// block number) of the hash entry of data block `x`.
pub open spec fn in_link(j: int, x: u32) -> bool {
    hash_entry_offset(x) + 0x14 <= j < hash_entry_offset(x) + 0x18
}

/// Whether the blocks of a chain are distinct.
pub open spec fn chain_apart(data: Seq<u8>, block: u32, count: nat) -> bool {
    let bs = chain_blocks(data, block, count);
    forall|i: int, k: int| 0 <= i < k < bs.len() ==> #[trigger] bs[i] != #[trigger] bs[k]
}

/// The hash tables lie between the data blocks: no data block holds the
/// next-block field of a block.
pub proof fn lemma_links_outside_blocks(x: u32, y: u32)
    ensures
        forall|j: int| !(#[trigger] in_link(j, x) && in_block(j, y)),
{
    let a = x as int;
    let b = y as int;
    let g = a / 170;
    let r = a % 170;
    assert(a == 170 * g + r && 0 <= r < 170) by (nonlinear_arith)
        requires
            a >= 0,
            g == a / 170,
            r == a % 170,
    ;
    let t: int = if g == 0 {
        0
    } else {
        171 * g + 1
    };
    assert(hash_table_offset(x) == BLOCK_REGION_BASE + t * 0x1000);
    assert(hash_entry_offset(x) == BLOCK_REGION_BASE + t * 0x1000 + r * 0x18);
    let k = backing_block(b);
    assert(k != t) by {
        if b >= 170 {
            let h = b / 170;
            assert(170 * h <= b < 170 * h + 170 && h >= 1 && (b - 170) / 170 == h - 1) by (nonlinear_arith)
                requires
                    b >= 170,
                    h == b / 170,
            ;
            assert(k == b + h + 2);
            if g > 0 {
                assert(171 * g + 1 != b + h + 2) by (nonlinear_arith)
                    requires
                        170 * h <= b < 170 * h + 170,
                        h >= 1,
                        g >= 1,
                ;
            }
        }
    }
}

proof fn lemma_blocks_apart(x: u32, y: u32)
    requires
        x != y,
    ensures
        forall|j: int| !(#[trigger] in_block(j, x) && in_block(j, y)),
{
    let a = x as int;
    let b = y as int;
    assert(a < b ==> backing_block(a) < backing_block(b)) by {
        if a < b && a >= 170 {
            assert((a - 170) / 170 <= (b - 170) / 170) by (nonlinear_arith)
                requires
                    170 <= a < b,
            ;
        }
    }
    assert(b < a ==> backing_block(b) < backing_block(a)) by {
        if b < a && b >= 170 {
            assert((b - 170) / 170 <= (a - 170) / 170) by (nonlinear_arith)
                requires
                    170 <= b < a,
            ;
        }
    }
}

proof fn lemma_chain_offsets_blocks(data: Seq<u8>, block: u32, count: nat)
    ensures
        chain_offsets(data, block, count).len() == chain_blocks(data, block, count).len(),
        forall|i: int|
            0 <= i < chain_blocks(data, block, count).len() ==> #[trigger] chain_offsets(data, block, count)[i]
                as int == block_offset(chain_blocks(data, block, count)[i]),
    decreases count,
{
    if count > 0 {
        lemma_block_offset_fits(block);
        match next_block(data, block) {
            Ok(n) => {
                if n != CHAIN_END {
                    lemma_chain_offsets_blocks(data, n, (count - 1) as nat);
                    let o = chain_offsets(data, n, (count - 1) as nat);
                    let bs = chain_blocks(data, n, (count - 1) as nat);
                    assert forall|i: int| 0 <= i < bs.len() + 1 implies #[trigger] chain_offsets(data, block, count)[i]
                        as int == block_offset(chain_blocks(data, block, count)[i]) by {
                        if i > 0 {
                            assert(chain_offsets(data, block, count)[i] == o[i - 1]);
                            assert(chain_blocks(data, block, count)[i] == bs[i - 1]);
                        }
                    }
                }
            },
            Err(_) => {},
        }
    }
}

proof fn lemma_next_block_agree(d: Seq<u8>, d2: Seq<u8>, x: u32)
    requires
        d.len() == d2.len(),
        forall|j: int| 0 <= j < d.len() && #[trigger] in_link(j, x) ==> d2[j] == d[j],
    ensures
        next_block(d2, x) == next_block(d, x),
{
    let e = hash_entry_offset(x);
    if e + 0x18 <= d.len() {
        assert(in_link(e + 0x14, x) && in_link(e + 0x15, x) && in_link(e + 0x16, x) && in_link(e + 0x17, x));
    }
}

/// Whether `d2` agrees with `d` on the blocks `bs` and on their next-block
/// fields.
pub open spec fn agree_on(d: Seq<u8>, d2: Seq<u8>, bs: Seq<u32>) -> bool {
    forall|k: int, j: int|
        #![trigger bs[k], d2[j]]
        0 <= k < bs.len() && 0 <= j < d.len() && (in_link(j, bs[k]) || in_block(j, bs[k])) ==> d2[j] == d[j]
}

/// Data that agrees with `d` on the blocks of a chain and on their
/// next-block fields gives the same chain and the same bytes.
proof fn lemma_chain_agree(d: Seq<u8>, d2: Seq<u8>, block: u32, remaining: nat, count: nat)
    requires
        d.len() == d2.len(),
        agree_on(d, d2, chain_blocks(d, block, count)),
    ensures
        chain_blocks(d2, block, count) == chain_blocks(d, block, count),
        chain_offsets(d2, block, count) == chain_offsets(d, block, count),
        chain_read(d2, block, remaining, count) == chain_read(d, block, remaining, count),
    decreases count,
{
    if count > 0 {
        let bs = chain_blocks(d, block, count);
        assert(bs[0] == block);
        assert forall|j: int| 0 <= j < d.len() && #[trigger] in_link(j, block) implies d2[j] == d[j] by {
            assert(in_link(j, bs[0]));
            assert(d2[j] == d[j]);
        }
        lemma_next_block_agree(d, d2, block);
        let off = block_offset(block);
        let size: int = if remaining < 0x1000 {
            remaining as int
        } else {
            0x1000
        };
        if off + size <= d.len() {
            assert(d2.subrange(off, off + size) =~= d.subrange(off, off + size)) by {
                assert forall|q: int| off <= q < off + size implies d2[q] == d[q] by {
                    assert(in_block(q, bs[0]));
                    assert(d2[q] == d[q]);
                }
            }
        }
        if let Ok(n) = next_block(d, block) {
            if n != CHAIN_END {
                let rest = chain_blocks(d, n, (count - 1) as nat);
                assert forall|k: int, j: int|
                    #![trigger rest[k], d2[j]]
                    0 <= k < rest.len() && 0 <= j < d.len() && (in_link(j, rest[k]) || in_block(j, rest[k])) implies d2[j]
                        == d[j] by {
                    assert(bs[k + 1] == rest[k]);
                }
                lemma_chain_agree(d, d2, n, (remaining - size) as nat, (count - 1) as nat);
            }
        }
    }
}

/// Whether byte `j` lies outside the blocks at `offs`.
pub open spec fn outside_writes(j: int, offs: Seq<u64>) -> bool {
    forall|k: int| 0 <= k < offs.len() ==> !(#[trigger] offs[k] <= j < offs[k] + 0x1000)
}

/// Writing over blocks leaves every byte outside them as it was.
proof fn lemma_blocks_written_frame(d: Seq<u8>, cs: Seq<u8>, offs: Seq<u64>)
    ensures
        blocks_written(d, cs, offs, false).0.len() == d.len(),
        forall|j: int|
            0 <= j < d.len() && outside_writes(j, offs) ==> #[trigger] blocks_written(
                d,
                cs,
                offs,
                false,
            ).0[j] == d[j],
    decreases offs.len(),
{
    if offs.len() > 0 {
        let off = offs[0] as int;
        let size: int = if cs.len() < BLOCK_SIZE {
            cs.len() as int
        } else {
            BLOCK_SIZE as int
        };
        if off + size <= d.len() {
            let w = put_bytes(d, off, cs.take(size));
            let rest = cs.skip(size);
            if rest.len() > 0 {
                lemma_blocks_written_frame(w, rest, offs.drop_first());
                assert forall|j: int|
                    0 <= j < d.len() && outside_writes(j, offs) implies #[trigger] blocks_written(
                    d,
                    cs,
                    offs,
                    false,
                ).0[j] == d[j] by {
                    assert(!(offs[0] <= j < offs[0] + 0x1000));
                    assert forall|k: int| 0 <= k < offs.drop_first().len() implies !(#[trigger] offs.drop_first()[k] <= j
                        < offs.drop_first()[k] + 0x1000) by {
                        assert(offs.drop_first()[k] == offs[k + 1]);
                    }
                }
            } else {
                assert forall|j: int|
                    0 <= j < d.len() && outside_writes(j, offs) implies #[trigger] blocks_written(
                    d,
                    cs,
                    offs,
                    false,
                ).0[j] == d[j] by {
                    assert(!(offs[0] <= j < offs[0] + 0x1000));
                }
            }
        }
    }
}

proof fn lemma_chain_write_read(data: Seq<u8>, block: u32, remaining: nat, count: nat, c2: Seq<u8>)
    requires
        chain_read(data, block, remaining, count) matches Ok(c) && c.len() == remaining,
        remaining > 0,
        c2.len() == remaining,
        chain_apart(data, block, count),
    ensures
        blocks_written(data, c2, chain_offsets(data, block, count), false).1 is None,
        chain_read(blocks_written(data, c2, chain_offsets(data, block, count), false).0, block, remaining, count)
            == Ok::<Seq<u8>, Seq<char>>(c2),
    decreases count,
{
    let bs = chain_blocks(data, block, count);
    let offs = chain_offsets(data, block, count);
    lemma_chain_offsets_blocks(data, block, count);
    assert(count > 0);
    assert(bs[0] == block);
    let off = block_offset(block);
    assert(offs[0] as int == off);
    let size: int = if remaining < 0x1000 {
        remaining as int
    } else {
        0x1000
    };
    let rest = (remaining - size) as nat;
    let c = chain_read(data, block, remaining, count)->Ok_0;
    assert(off + size <= data.len());
    let data1 = put_bytes(data, off, c2.take(size));
    if rest == 0 {
        assert(c2.skip(size) =~= Seq::<u8>::empty());
        assert(data1.subrange(off, off + size) =~= c2);
    } else {
        let n = next_block(data, block)->Ok_0;
        assert(next_block(data, block) is Ok);
        assert(n != CHAIN_END) by {
            if n == CHAIN_END {
                assert(c.len() == size);
            }
        }
        let tail = chain_blocks(data, n, (count - 1) as nat);
        assert(bs == seq![block] + tail);
        assert forall|k: int| 0 <= k < tail.len() implies #[trigger] tail[k] == bs[k + 1] by {}
        // the rest of the chain reads nothing of block `block`
        assert forall|k: int, j: int|
            #![trigger tail[k], data1[j]]
            0 <= k < tail.len() && 0 <= j < data.len() && (in_link(j, tail[k]) || in_block(j, tail[k])) implies data1[j]
                == data[j] by {
            assert(bs[k + 1] == tail[k]);
            if in_block(j, block) {
                if in_block(j, tail[k]) {
                    assert(bs[0] != bs[k + 1]);
                    lemma_blocks_apart(block, tail[k]);
                } else {
                    lemma_links_outside_blocks(tail[k], block);
                }
            }
        }
        lemma_chain_agree(data, data1, n, rest, (count - 1) as nat);
        let c2r = c2.skip(size);
        assert(chain_apart(data1, n, (count - 1) as nat)) by {
            assert forall|i: int, k: int| 0 <= i < k < tail.len() implies #[trigger] tail[i] != #[trigger] tail[k] by {
                assert(bs[i + 1] != bs[k + 1]);
            }
        }
        let c1 = chain_read(data, n, rest, (count - 1) as nat)->Ok_0;
        assert(c == data.subrange(off, off + size) + c1);
        lemma_chain_write_read(data1, n, rest, (count - 1) as nat, c2r);
        let offs1 = chain_offsets(data1, n, (count - 1) as nat);
        assert(offs.drop_first() =~= offs1);
        let d1 = blocks_written(data1, c2r, offs1, false).0;
        assert(blocks_written(data, c2, offs, false).0 == d1);
        // the later writes leave this block and its link alone
        lemma_blocks_written_frame(data1, c2r, offs1);
        lemma_chain_offsets_blocks(data1, n, (count - 1) as nat);
        assert forall|j: int| 0 <= j < data.len() && (in_block(j, block) || in_link(j, block)) implies #[trigger] d1[j]
            == data1[j] by {
            assert forall|k: int| 0 <= k < offs1.len() implies !(#[trigger] offs1[k] <= j < offs1[k] + 0x1000) by {
                assert(offs1[k] as int == block_offset(tail[k]));
                assert(bs[k + 1] == tail[k]);
                if in_block(j, tail[k]) {
                    if in_block(j, block) {
                        assert(bs[0] != bs[k + 1]);
                        lemma_blocks_apart(block, tail[k]);
                    } else {
                        lemma_links_outside_blocks(block, tail[k]);
                    }
                }
            }
        }
        assert forall|j: int| 0 <= j < data.len() && #[trigger] in_link(j, block) implies d1[j] == data[j] by {
            lemma_links_outside_blocks(block, block);
        }
        lemma_next_block_agree(data, d1, block);
        assert(d1.subrange(off, off + size) =~= c2.take(size)) by {
            assert forall|q: int| off <= q < off + size implies d1[q] == data1[q] by {
                assert(in_block(q, block));
            }
        }
        assert(c2.take(size) + c2r =~= c2);
    }
}

/// Writing `content` of a file's size over the file's chain of blocks, in
/// place, succeeds, and reading the file back then gives `content`, where
/// the file is not empty, its chain gives all its bytes, and its chain
/// passes through no block twice.
pub proof fn lemma_write_read_back(data: Seq<u8>, e: EntrySpec, content: Seq<u8>)
    requires
        file_content(data, e) matches Ok(c) && c.len() == e.file_size && c.len() > 0,
        content.len() == e.file_size,
        chain_apart(data, e.starting_block, e.num_blocks as nat),
    ensures
        ({
            let w = blocks_written(data, content, chain_offsets(data, e.starting_block, e.num_blocks as nat), false);
            &&& w.1 is None
            &&& file_content(w.0, e) == Ok::<Seq<u8>, Seq<char>>(content)
        }),
{
    lemma_chain_write_read(data, e.starting_block, e.file_size as nat, e.num_blocks as nat, content);
}

// ---------------------------------------------------------------- songs.dta written back into a package

proof fn lemma_slots_agree(d: Seq<u8>, d2: Seq<u8>, off: int, i: int)
    requires
        d.len() == d2.len(),
        0 <= i,
        0 <= off,
        forall|j: int| off <= j < off + 0x1000 && 0 <= j < d.len() ==> #[trigger] d2[j] == d[j],
    ensures
        slot_entries(d2, off, i) == slot_entries(d, off, i),
    decreases 64 - i,
{
    if !(i >= 64 || off + i * 0x40 + 0x40 > d.len()) {
        lemma_slots_agree(d, d2, off, i + 1);
        let e = off + i * 0x40;
        assert(off <= e && e + 0x40 <= off + 0x1000) by (nonlinear_arith)
            requires
                0 <= i < 64,
                e == off + i * 0x40,
        ;
        let nl = d[e + 0x28] as int % 64;
        assert(d2.subrange(e, e + nl) =~= d.subrange(e, e + nl)) by {
            assert forall|q: int| 0 <= q < nl implies #[trigger] d2.subrange(e, e + nl)[q] == d.subrange(e, e + nl)[q] by {
                assert(d2[e + q] == d[e + q]);
            }
        }
        assert(table_entry(d2, e) == table_entry(d, e));
    }
}

/// Data that agrees with `d` on the blocks of a chain and on their
/// next-block fields reads the same file table along that chain.
proof fn lemma_table_agree(d: Seq<u8>, d2: Seq<u8>, block: u32, count: nat)
    requires
        d.len() == d2.len(),
        agree_on(d, d2, chain_blocks(d, block, count)),
    ensures
        table_walk(d2, block, count) == table_walk(d, block, count),
    decreases count,
{
    if count > 0 {
        let bs = chain_blocks(d, block, count);
        assert(bs[0] == block);
        assert forall|j: int| 0 <= j < d.len() && #[trigger] in_link(j, block) implies d2[j] == d[j] by {
            assert(in_link(j, bs[0]));
            assert(d2[j] == d[j]);
        }
        lemma_next_block_agree(d, d2, block);
        let off = block_offset(block);
        assert forall|j: int| off <= j < off + 0x1000 && 0 <= j < d.len() implies #[trigger] d2[j] == d[j] by {
            assert(in_block(j, bs[0]));
            assert(d2[j] == d[j]);
        }
        lemma_block_offset_fits(block);
        lemma_slots_agree(d, d2, off, 0);
        if let Ok(n) = next_block(d, block) {
            if n != CHAIN_END {
                let rest = chain_blocks(d, n, (count - 1) as nat);
                assert forall|k: int, j: int|
                    #![trigger rest[k], d2[j]]
                    0 <= k < rest.len() && 0 <= j < d.len() && (in_link(j, rest[k]) || in_block(j, rest[k])) implies d2[j]
                        == d[j] by {
                    assert(bs[k + 1] == rest[k]);
                }
                lemma_table_agree(d, d2, n, (count - 1) as nat);
            }
        }
    }
}

/// Writing `content` of `songs.dta`'s size over its chain of blocks, in
/// place, succeeds, and the package then reads back with the same volume
/// descriptor and file table and with `content` as its `songs.dta`, where
/// `songs.dta` is not empty, its chain gives all its bytes and passes
/// through no block twice, and no block of the file table's chain is one of
/// its blocks.
pub proof fn lemma_songs_dta_write_read_back(data: Seq<u8>, content: Seq<u8>)
    requires
        data.len() >= 0x39E,
        songs_dta(file_table(data, descriptor_of(data)), data) matches Ok((c, e)) && c.len() == e.file_size
            && c.len() > 0 && content.len() == e.file_size && chain_apart(data, e.starting_block, e.num_blocks as nat)
            && forall|i: int, k: int|
            0 <= i < chain_blocks(data, descriptor_of(data).file_table_block, descriptor_of(data).file_table_block_count as nat).len()
                && 0 <= k < chain_blocks(data, e.starting_block, e.num_blocks as nat).len() ==> #[trigger] chain_blocks(
                data,
                descriptor_of(data).file_table_block,
                descriptor_of(data).file_table_block_count as nat,
            )[i] != #[trigger] chain_blocks(data, e.starting_block, e.num_blocks as nat)[k],
    ensures
        ({
            let e = songs_dta(file_table(data, descriptor_of(data)), data)->Ok_0.1;
            let w = blocks_written(data, content, chain_offsets(data, e.starting_block, e.num_blocks as nat), false);
            &&& w.1 is None
            &&& w.0.len() == data.len()
            &&& descriptor_of(w.0) == descriptor_of(data)
            &&& file_table(w.0, descriptor_of(w.0)) == file_table(data, descriptor_of(data))
            &&& songs_dta(file_table(w.0, descriptor_of(w.0)), w.0) == Ok::<(Seq<u8>, EntrySpec), Seq<char>>((content, e))
        }),
{
    let e = songs_dta(file_table(data, descriptor_of(data)), data)->Ok_0.1;
    let offs = chain_offsets(data, e.starting_block, e.num_blocks as nat);
    let cb = chain_blocks(data, e.starting_block, e.num_blocks as nat);
    let w = blocks_written(data, content, offs, false);
    let d2 = w.0;
    let vd = descriptor_of(data);
    let tb = chain_blocks(data, vd.file_table_block, vd.file_table_block_count as nat);
    assert(file_content(data, e) == Ok::<Seq<u8>, Seq<char>>(songs_dta(file_table(data, vd), data)->Ok_0.0));
    lemma_write_read_back(data, e, content);
    lemma_blocks_written_frame(data, content, offs);
    lemma_chain_offsets_blocks(data, e.starting_block, e.num_blocks as nat);
    // a byte outside every block of the chain is kept
    assert forall|j: int| 0 <= j < data.len() && (forall|k: int| 0 <= k < cb.len() ==> !#[trigger] in_block(j, cb[k])) implies d2[j]
        == data[j] by {
        assert forall|k: int| 0 <= k < offs.len() implies !(#[trigger] offs[k] <= j < offs[k] + 0x1000) by {
            assert(offs[k] as int == block_offset(cb[k]));
            assert(!in_block(j, cb[k]));
        }
        assert(outside_writes(j, offs));
    }
    // the volume descriptor lies before every block
    assert forall|j: int| 0x37B <= j <= 0x39D implies #[trigger] d2[j] == data[j] by {
        assert forall|k: int| 0 <= k < cb.len() implies !#[trigger] in_block(j, cb[k]) by {
            assert(backing_block(cb[k] as int) >= 1);
        }
    }
    assert(descriptor_of(d2) == descriptor_of(data));
    // the file table's blocks and links are kept
    assert forall|i: int, j: int|
        #![trigger tb[i], d2[j]]
        0 <= i < tb.len() && 0 <= j < data.len() && (in_link(j, tb[i]) || in_block(j, tb[i])) implies d2[j] == data[j] by {
        assert forall|k: int| 0 <= k < cb.len() implies !#[trigger] in_block(j, cb[k]) by {
            if in_block(j, tb[i]) {
                assert(tb[i] != cb[k]);
                lemma_blocks_apart(tb[i], cb[k]);
            } else {
                lemma_links_outside_blocks(tb[i], cb[k]);
            }
        }
    }
    lemma_table_agree(data, d2, vd.file_table_block, vd.file_table_block_count as nat);
    assert(file_table(d2, descriptor_of(d2)) == file_table(data, vd));
}

// ---------------------------------------------------------------- the header summary after writing both texts

proof fn lemma_field_units_agree(d1: Seq<u8>, d2: Seq<u8>, offset: int, i: int, n: int)
    requires
        0 <= offset,
        0 <= i,
        d1.len() == d2.len(),
        offset + 2 * n <= d1.len(),
        forall|j: int| offset <= j < offset + 2 * n ==> #[trigger] d1[j] == d2[j],
    ensures
        field_units(d1, offset, i, n) == field_units(d2, offset, i, n),
    decreases n - i,
{
    if i < n {
        assert(d1[offset + 2 * i] == d2[offset + 2 * i]);
        assert(d1[offset + 2 * i + 1] == d2[offset + 2 * i + 1]);
        lemma_field_units_agree(d1, d2, offset, i + 1, n);
    }
}

/// Writing the display name and then the description into a header that
/// `parse_header_summary` reads leaves it readable, with the new display
/// name and description and the same package type, title name and
/// thumbnail size, where each text fits in 128 UTF-16 code units and holds
/// no NUL.
pub proof fn lemma_header_summary_round_trip(data: Seq<u8>, name: Seq<char>, desc: Seq<char>)
    requires
        header_error(data, THUMBNAIL_DATA_OFFSET as int) is None,
        texts_decode(data),
        utf16_encode(name).len() <= 128,
        forall|k: int| 0 <= k < name.len() ==> #[trigger] name[k] != '\0',
        utf16_encode(desc).len() <= 128,
        forall|k: int| 0 <= k < desc.len() ==> #[trigger] desc[k] != '\0',
    ensures
        ({
            let w1 = text_written(data, DISPLAY_NAME_OFFSET as int, DISPLAY_NAME_SIZE as int, utf16_encode(name));
            let w = text_written(w1, DESCRIPTION_OFFSET as int, DESCRIPTION_SIZE as int, utf16_encode(desc));
            &&& header_error(w, THUMBNAIL_DATA_OFFSET as int) is None
            &&& texts_decode(w)
            &&& summary_of(w).display_name == name
            &&& summary_of(w).description == desc
            &&& summary_of(w).package_type == summary_of(data).package_type
            &&& summary_of(w).title_name == summary_of(data).title_name
            &&& summary_of(w).thumbnail_size == summary_of(data).thumbnail_size
        }),
{
    let w1 = text_written(data, DISPLAY_NAME_OFFSET as int, DISPLAY_NAME_SIZE as int, utf16_encode(name));
    let w = text_written(w1, DESCRIPTION_OFFSET as int, DESCRIPTION_SIZE as int, utf16_encode(desc));
    lemma_text_read_back(data, DISPLAY_NAME_OFFSET as int, DISPLAY_NAME_SIZE as int, name);
    lemma_text_read_back(w1, DESCRIPTION_OFFSET as int, DESCRIPTION_SIZE as int, desc);
    // bytes outside the two text fields are kept
    assert forall|j: int| 0 <= j < data.len() && !(0x411 <= j < 0x511) && !(0xD11 <= j < 0xE11) implies #[trigger] w[j]
        == data[j] by {}
    assert(w[0] == data[0] && w[1] == data[1] && w[2] == data[2] && w[3] == data[3]);
    assert(package_type_of(w) == package_type_of(data));
    lemma_field_units_agree(w, w1, DISPLAY_NAME_OFFSET as int, 0, (DISPLAY_NAME_SIZE / 2) as int);
    lemma_field_units_agree(w, data, TITLE_NAME_OFFSET as int, 0, (TITLE_NAME_SIZE / 2) as int);
    assert(w[0x1712] == data[0x1712] && w[0x1713] == data[0x1713] && w[0x1714] == data[0x1714] && w[0x1715]
        == data[0x1715]);
}

/// Writing `songs.dta`'s own bytes back over its chain of blocks, at the
/// offsets `get_songs_dta_location` gives, succeeds and leaves the package
/// as it was, where `songs.dta` is not empty and its chain gives all its
/// bytes.
pub proof fn lemma_songs_dta_write_own(data: Seq<u8>)
    requires
        songs_dta(file_table(data, descriptor_of(data)), data) matches Ok((c, e)) && c.len() == e.file_size && c.len()
            > 0,
    ensures
        ({
            let (c, e) = songs_dta(file_table(data, descriptor_of(data)), data)->Ok_0;
            blocks_written(data, c, chain_offsets(data, e.starting_block, e.num_blocks as nat), false) == (
                data,
                None::<Seq<char>>,
            )
        }),
{
    let (c, e) = songs_dta(file_table(data, descriptor_of(data)), data)->Ok_0;
    assert(file_content(data, e) == Ok::<Seq<u8>, Seq<char>>(c));
    lemma_write_own_content(data, e);
}

} // verus!
