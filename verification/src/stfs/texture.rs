//! Xbox 360 album-art textures (`_keep.png_xbox`): a 32-byte header and
//! DXT1 or DXT5 data with the bytes of each 16-bit word swapped.
//!
//! Header: byte 1 tells the format (0x04 DXT1, 0x08 DXT5); bytes 8-9 and
//! 10-11 give width and height, big-endian, either in pixels or, for values
//! up to 8, in units of 256 pixels; the height may carry a flag in its top bit.
use vstd::prelude::*;
use crate::stfs::bytes::be16;
use crate::text::{chars_of, dec_digits, extend_chars, string_from_chars, u64_to_dec};

verus! {

pub const HMX_HEADER_SIZE: u64 = 32;

pub struct DecodedTexture {
    pub width: u32,
    pub height: u32,
    pub rgba: Vec<u8>,
}

/// Blocks of 4 pixels needed to cover `n` pixels.
pub open spec fn blocks_for(n: int) -> int {
    (n + 3) / 4
}

/// What `texture2ddecoder::decode_bc1` writes for a `width` x `height`
/// texture: one packed BGRA pixel per image pixel, row by row.
pub uninterp spec fn bc1_decoded(data: Seq<u8>, width: int, height: int) -> Seq<u32>;

/// What `texture2ddecoder::decode_bc3` writes for a `width` x `height`
/// texture: one packed BGRA pixel per image pixel, row by row.
pub uninterp spec fn bc3_decoded(data: Seq<u8>, width: int, height: int) -> Seq<u32>;

/// `texture2ddecoder::decode_bc1`. Its source refuses data shorter than
/// 8 bytes per 4x4 block with "Not enough data to decode image!", leaving the
/// image untouched; else every pixel of the image is written, and what it
/// holds is named `bc1_decoded`. The image keeps its length.
#[verifier::external_body]
fn decode_bc1(data: &[u8], width: usize, height: usize, image: &mut Vec<u32>) -> (r: Result<(), String>)
    requires
        old(image)@.len() == width * height,
        width <= 2048,
        height <= 2048,
    ensures
        r is Err <==> data@.len() < blocks_for(width as int) * blocks_for(height as int) * 8,
        r is Err ==> final(image)@ == old(image)@ && r->Err_0@ == "Not enough data to decode image!"@,
        r is Ok ==> final(image)@ == bc1_decoded(data@, width as int, height as int),
        final(image)@.len() == width * height,
{
    texture2ddecoder::decode_bc1(data, width, height, image.as_mut_slice()).map_err(|e| e.to_string())
}

/// `texture2ddecoder::decode_bc3`. Its source refuses data shorter than
/// 16 bytes per 4x4 block with "Not enough data to decode image!", leaving the
/// image untouched; else every pixel of the image is written, and what it
/// holds is named `bc3_decoded`. The image keeps its length.
#[verifier::external_body]
fn decode_bc3(data: &[u8], width: usize, height: usize, image: &mut Vec<u32>) -> (r: Result<(), String>)
    requires
        old(image)@.len() == width * height,
        width <= 2048,
        height <= 2048,
    ensures
        r is Err <==> data@.len() < blocks_for(width as int) * blocks_for(height as int) * 16,
        r is Err ==> final(image)@ == old(image)@ && r->Err_0@ == "Not enough data to decode image!"@,
        r is Ok ==> final(image)@ == bc3_decoded(data@, width as int, height as int),
        final(image)@.len() == width * height,
{
    texture2ddecoder::decode_bc3(data, width, height, image.as_mut_slice()).map_err(|e| e.to_string())
}

// ---------------------------------------------------------------- spec

/// DXT5 or DXT1, from the format byte; otherwise guessed from the size
/// (DXT5 takes a byte a pixel, DXT1 half that).
pub open spec fn is_dxt5(data: Seq<u8>) -> bool {
    if data[1] == 4 {
        false
    } else if data[1] == 8 {
        true
    } else {
        data.len() - 32 > 50000
    }
}

/// A dimension as the header stores it: values up to 8 count 256 pixels.
pub open spec fn dimension(raw: int) -> int {
    if raw <= 8 {
        raw * 256
    } else {
        raw
    }
}

pub open spec fn header_width(data: Seq<u8>) -> int {
    dimension(be16(data[8], data[9]))
}

pub open spec fn header_height(data: Seq<u8>) -> int {
    dimension(be16(data[10], data[11]) % 0x8000)
}

/// Bytes of the base level of a texture.
pub open spec fn base_size(width: int, height: int, dxt5: bool) -> int {
    if dxt5 {
        width * height
    } else {
        width * height / 2
    }
}

/// `bytes` with the two bytes of each 16-bit word swapped (a trailing odd
/// byte stays).
pub open spec fn swap_pairs(bytes: Seq<u8>) -> Seq<u8> {
    Seq::new(
        bytes.len(),
        |k: int|
            if k % 2 == 0 && k + 1 < bytes.len() {
                bytes[k + 1]
            } else if k % 2 == 1 {
                bytes[k - 1]
            } else {
                bytes[k]
            },
    )
}

/// RGBA bytes of packed BGRA pixels (blue in the low byte).
pub open spec fn rgba_of(pixels: Seq<u32>) -> Seq<u8> {
    Seq::new(
        4 * pixels.len(),
        |k: int|
            {
                let p = pixels[k / 4];
                if k % 4 == 0 {
                    (p / 0x10000 % 256) as u8
                } else if k % 4 == 1 {
                    (p / 0x100 % 256) as u8
                } else if k % 4 == 2 {
                    (p % 256) as u8
                } else {
                    (p / 0x1000000) as u8
                }
            },
    )
}

pub open spec fn format_name(dxt5: bool) -> Seq<char> {
    if dxt5 {
        "DXT5"@
    } else {
        "DXT1"@
    }
}

pub open spec fn not_enough_error(have: int, need: int, width: int, height: int, dxt5: bool) -> Seq<
    char,
> {
    "Not enough texture data: have "@ + dec_digits(have as nat) + ", need "@ + dec_digits(
        need as nat,
    ) + " for "@ + dec_digits(width as nat) + "x"@ + dec_digits(height as nat) + " "@
        + format_name(dxt5)
}

pub open spec fn bool_text(b: bool) -> Seq<char> {
    if b {
        "true"@
    } else {
        "false"@
    }
}

pub open spec fn guess_error(size: int, dxt5: bool) -> Seq<char> {
    "Cannot determine texture dimensions (data size: "@ + dec_digits(size as nat) + ", dxt5: "@
        + bool_text(dxt5) + ")"@
}

/// The decoded base level of a `width` x `height` texture: its pixels in
/// RGBA order, or the error.
pub open spec fn texture_decoded(data: Seq<u8>, width: int, height: int, dxt5: bool) -> Result<
    Seq<u8>,
    Seq<char>,
> {
    let base = base_size(width, height, dxt5);
    if data.len() < 32 + base {
        Err(not_enough_error(data.len() - 32, base, width, height, dxt5))
    } else {
        let tex = swap_pairs(data.subrange(32, 32 + base));
        let block_bytes: int = if dxt5 {
            16
        } else {
            8
        };
        if tex.len() < blocks_for(width) * blocks_for(height) * block_bytes {
            Err(format_name(dxt5) + " decode error: "@ + "Not enough data to decode image!"@)
        } else if dxt5 {
            Ok(rgba_of(bc3_decoded(tex, width, height)))
        } else {
            Ok(rgba_of(bc1_decoded(tex, width, height)))
        }
    }
}

/// Swapping the bytes of each 16-bit word keeps the length, exchanges byte
/// `2k` and byte `2k + 1`, leaves a trailing odd byte where it is, and
/// swapping twice gives the bytes back.
pub proof fn lemma_swap_pairs(bytes: Seq<u8>)
    ensures
        swap_pairs(bytes).len() == bytes.len(),
        forall|k: int|
            0 <= k && 2 * k + 1 < bytes.len() ==> #[trigger] swap_pairs(bytes)[2 * k] == bytes[2 * k + 1]
                && swap_pairs(bytes)[2 * k + 1] == bytes[2 * k],
        bytes.len() % 2 == 1 ==> swap_pairs(bytes)[bytes.len() - 1] == bytes[bytes.len() - 1],
        swap_pairs(swap_pairs(bytes)) == bytes,
{
    let s = swap_pairs(bytes);
    assert forall|k: int| 0 <= k && 2 * k + 1 < bytes.len() implies #[trigger] s[2 * k] == bytes[2 * k + 1] && s[2
        * k + 1] == bytes[2 * k] by {
        assert((2 * k) % 2 == 0);
        assert((2 * k + 1) % 2 == 1);
    }
    assert(swap_pairs(s) =~= bytes);
}

/// The data handed to the DXT decoder is the texture's base level as
/// stored, with the bytes of each 16-bit word swapped (Xbox 360 order to PC
/// order); where there is enough of it, the pixels are what the decoder
/// makes of that.
pub proof fn lemma_texture_input(data: Seq<u8>, width: int, height: int, dxt5: bool)
    requires
        data.len() >= 32 + base_size(width, height, dxt5),
        base_size(width, height, dxt5) >= blocks_for(width) * blocks_for(height) * (if dxt5 {
            16int
        } else {
            8int
        }),
    ensures
        ({
            let stored = data.subrange(32, 32 + base_size(width, height, dxt5));
            let input = swap_pairs(stored);
            &&& input.len() == stored.len()
            &&& forall|k: int|
                0 <= k && 2 * k + 1 < stored.len() ==> #[trigger] input[2 * k] == stored[2 * k + 1] && input[2 * k
                    + 1] == stored[2 * k]
            &&& texture_decoded(data, width, height, dxt5) == Ok::<Seq<u8>, Seq<char>>(
                rgba_of(
                    if dxt5 {
                        bc3_decoded(input, width, height)
                    } else {
                        bc1_decoded(input, width, height)
                    },
                ),
            )
        }),
{
    let stored = data.subrange(32, 32 + base_size(width, height, dxt5));
    lemma_swap_pairs(stored);
}

/// The size a texture is taken to have when its header gives none that
/// fits: the first of 512, 256, 1024 and 128 (square) whose base level the
/// data holds.
pub open spec fn guessed_size(data: Seq<u8>, dxt5: bool) -> Option<int> {
    let have = data.len() - 32;
    if have >= base_size(512, 512, dxt5) {
        Some(512)
    } else if have >= base_size(256, 256, dxt5) {
        Some(256)
    } else if have >= base_size(1024, 1024, dxt5) {
        Some(1024)
    } else if have >= base_size(128, 128, dxt5) {
        Some(128)
    } else {
        None
    }
}

/// The width and height `decode_png_xbox` decodes with, or the error when it
/// finds none.
pub open spec fn texture_size(data: Seq<u8>) -> Result<(int, int), Seq<char>> {
    let w = header_width(data);
    let h = header_height(data);
    if w == 0 || h == 0 || w > 2048 || h > 2048 {
        match guessed_size(data, is_dxt5(data)) {
            Some(s) => Ok((s, s)),
            None => Err(guess_error(data.len() - 32, is_dxt5(data))),
        }
    } else {
        Ok((w, h))
    }
}

pub open spec fn png_xbox_decoded(data: Seq<u8>) -> Result<(int, int, Seq<u8>), Seq<char>> {
    if data.len() < 40 {
        Err("File too small for HMX texture"@)
    } else {
        match texture_size(data) {
            Err(e) => Err(e),
            Ok((w, h)) => match texture_decoded(data, w, h, is_dxt5(data)) {
                Ok(rgba) => Ok((w, h, rgba)),
                Err(e) => Err(e),
            },
        }
    }
}

// ---------------------------------------------------------------- exec

/// The RGBA bytes of packed BGRA pixels, as `decode_bc1`/`decode_bc3`
/// produce them.
pub fn pixels_to_rgba(pixels: &[u32]) -> (r: Vec<u8>)
    requires
        pixels@.len() * 4 <= usize::MAX,
    ensures
        r@ == rgba_of(pixels@),
{
    let mut r: Vec<u8> = Vec::new();
    let mut i: usize = 0;
    while i < pixels.len()
        invariant
            i <= pixels@.len(),
            r@.len() == 4 * i,
            forall|k: int| 0 <= k < 4 * i ==> #[trigger] r@[k] == rgba_of(pixels@)[k],
        decreases pixels@.len() - i,
    {
        let p = pixels[i];
        let ghost before = r@;
        r.push((p / 0x10000 % 256) as u8);
        r.push((p / 0x100 % 256) as u8);
        r.push((p % 256) as u8);
        r.push((p / 0x1000000) as u8);
        assert forall|k: int| 0 <= k < 4 * (i + 1) implies #[trigger] r@[k] == rgba_of(pixels@)[k] by {
            if k >= 4 * i {
                assert(k / 4 == i);
            } else {
                assert(r@[k] == before[k]);
            }
        }
        i = i + 1;
    }
    assert(r@ =~= rgba_of(pixels@));
    r
}

/// `bytes[a..b]` with the two bytes of each 16-bit word swapped.
fn swapped_copy(data: &[u8], a: usize, b: usize) -> (r: Vec<u8>)
    requires
        a <= b <= data@.len(),
    ensures
        r@ == swap_pairs(data@.subrange(a as int, b as int)),
{
    let ghost src = data@.subrange(a as int, b as int);
    let n = b - a;
    let mut r: Vec<u8> = Vec::new();
    let mut k: usize = 0;
    while k < n
        invariant
            a <= b <= data@.len(),
            n == b - a,
            src == data@.subrange(a as int, b as int),
            k <= n,
            r@.len() == k,
            forall|j: int| 0 <= j < k ==> #[trigger] r@[j] == swap_pairs(src)[j],
        decreases n - k,
    {
        let v = if k % 2 == 0 && k + 1 < n {
            data[a + k + 1]
        } else if k % 2 == 1 {
            data[a + k - 1]
        } else {
            data[a + k]
        };
        r.push(v);
        k = k + 1;
    }
    assert(r@ =~= swap_pairs(src));
    r
}

fn push_str(v: &mut Vec<char>, lit: &str)
    ensures
        final(v)@ == old(v)@ + lit@,
{
    let c = chars_of(lit);
    extend_chars(v, c.as_slice());
}

fn push_dec(v: &mut Vec<char>, n: u64)
    ensures
        final(v)@ == old(v)@ + dec_digits(n as nat),
{
    let d = u64_to_dec(n);
    extend_chars(v, d.as_slice());
}

fn format_text(dxt5: bool) -> (s: &'static str)
    ensures
        s@ == format_name(dxt5),
{
    if dxt5 {
        "DXT5"
    } else {
        "DXT1"
    }
}

fn decode_texture_data(data: &[u8], width: u32, height: u32, is_dxt5: bool) -> (r: Result<
    DecodedTexture,
    String,
>)
    requires
        1 <= width <= 2048,
        1 <= height <= 2048,
        data@.len() >= 32,
    ensures
        match r {
            Ok(t) => t.width == width && t.height == height && texture_decoded(
                data@,
                width as int,
                height as int,
                is_dxt5,
            ) == Ok::<Seq<u8>, Seq<char>>(t.rgba@),
            Err(e) => texture_decoded(data@, width as int, height as int, is_dxt5) == Err::<
                Seq<u8>,
                Seq<char>,
            >(e@),
        },
{
    assert(width * height <= 2048 * 2048) by (nonlinear_arith)
        requires
            width <= 2048,
            height <= 2048,
    ;
    let pixel_count = width * height;
    let base: u32 = if is_dxt5 {
        pixel_count
    } else {
        pixel_count / 2
    };
    if data.len() < 32 + base as usize {
        let mut v = chars_of("Not enough texture data: have ");
        push_dec(&mut v, (data.len() - 32) as u64);
        push_str(&mut v, ", need ");
        push_dec(&mut v, base as u64);
        push_str(&mut v, " for ");
        push_dec(&mut v, width as u64);
        push_str(&mut v, "x");
        push_dec(&mut v, height as u64);
        push_str(&mut v, " ");
        push_str(&mut v, format_text(is_dxt5));
        return Err(string_from_chars(v.as_slice()));
    }
    let tex = swapped_copy(data, 32, 32 + base as usize);
    let mut pixels: Vec<u32> = Vec::new();
    let mut i: u32 = 0;
    while i < pixel_count
        invariant
            i <= pixel_count,
            pixel_count <= 2048 * 2048,
            pixels@.len() == i,
        decreases pixel_count - i,
    {
        pixels.push(0);
        i = i + 1;
    }
    let decoded = if is_dxt5 {
        decode_bc3(tex.as_slice(), width as usize, height as usize, &mut pixels)
    } else {
        decode_bc1(tex.as_slice(), width as usize, height as usize, &mut pixels)
    };
    match decoded {
        Err(e) => {
            let mut v = chars_of(format_text(is_dxt5));
            push_str(&mut v, " decode error: ");
            let c = chars_of(e.as_str());
            extend_chars(&mut v, c.as_slice());
            Err(string_from_chars(v.as_slice()))
        },
        Ok(_) => {
            let rgba = pixels_to_rgba(pixels.as_slice());
            Ok(DecodedTexture { width, height, rgba })
        },
    }
}

fn decode_with_guessed_dimensions(data: &[u8], is_dxt5: bool) -> (r: Result<DecodedTexture, String>)
    requires
        data@.len() >= 32,
    ensures
        match r {
            Ok(t) => guessed_size(data@, is_dxt5) == Some(t.width as int) && t.width == t.height
                && texture_decoded(data@, t.width as int, t.height as int, is_dxt5) == Ok::<
                Seq<u8>,
                Seq<char>,
            >(t.rgba@),
            Err(e) => match guessed_size(data@, is_dxt5) {
                Some(s) => texture_decoded(data@, s, s, is_dxt5) == Err::<Seq<u8>, Seq<char>>(e@),
                None => e@ == guess_error(data@.len() - 32, is_dxt5),
            },
        },
{
    let have = (data.len() - 32) as u64;
    let sizes: [u32; 4] = [512, 256, 1024, 128];
    let mut i: usize = 0;
    while i < 4
        invariant
            i <= 4,
            have == data@.len() - 32,
            sizes@ == seq![512u32, 256u32, 1024u32, 128u32],
            forall|j: int|
                0 <= j < i ==> have < base_size(sizes@[j] as int, sizes@[j] as int, is_dxt5),
        decreases 4 - i,
    {
        let s = sizes[i];
        assert(s <= 1024);
        assert(s * s <= 1024 * 1024) by (nonlinear_arith)
            requires
                s <= 1024,
        ;
        let sq = s * s;
        let expected: u64 = if is_dxt5 {
            sq as u64
        } else {
            (sq / 2) as u64
        };
        if have >= expected {
            return decode_texture_data(data, s, s, is_dxt5);
        }
        i = i + 1;
    }
    let mut v = chars_of("Cannot determine texture dimensions (data size: ");
    push_dec(&mut v, have);
    push_str(&mut v, ", dxt5: ");
    if is_dxt5 {
        push_str(&mut v, "true");
    } else {
        push_str(&mut v, "false");
    }
    push_str(&mut v, ")");
    Err(string_from_chars(v.as_slice()))
}

/// Decodes an Xbox 360 `_keep.png_xbox` texture to RGBA pixels.
pub fn decode_png_xbox(data: &[u8]) -> (r: Result<DecodedTexture, String>)
    ensures
        match r {
            Ok(t) => png_xbox_decoded(data@) == Ok::<(int, int, Seq<u8>), Seq<char>>(
                (t.width as int, t.height as int, t.rgba@),
            ),
            Err(e) => png_xbox_decoded(data@) == Err::<(int, int, Seq<u8>), Seq<char>>(e@),
        },
{
    if data.len() < 40 {
        return Err(String::from_str("File too small for HMX texture"));
    }
    let is_dxt5 = if data[1] == 4 {
        false
    } else if data[1] == 8 {
        true
    } else {
        data.len() - 32 > 50000
    };
    let width_raw = data[8] as u32 * 256 + data[9] as u32;
    let height_raw = data[10] as u32 * 256 + data[11] as u32;
    let width = if width_raw <= 8 {
        width_raw * 256
    } else {
        width_raw
    };
    let height_clean = height_raw % 0x8000;
    let height = if height_clean <= 8 {
        height_clean * 256
    } else {
        height_clean
    };
    if width == 0 || height == 0 || width > 2048 || height > 2048 {
        return decode_with_guessed_dimensions(data, is_dxt5);
    }
    decode_texture_data(data, width, height, is_dxt5)
}


// ---------------------------------------------------------------- PNG output

/// What the `image` crate's PNG encoder makes of a `width` x `height` RGBA
/// image whose pixels are `rgba`: the file's bytes, or the encoder's error
/// text.
pub uninterp spec fn png_encoded(width: u32, height: u32, rgba: Seq<u8>) -> Result<Seq<u8>, Seq<char>>;

/// `image::ImageBuffer::from_raw` and `write_to` with `ImageFormat::Png`:
/// the result is named `png_encoded`. `from_raw` refuses only a buffer
/// shorter than four bytes per pixel, which the caller rules out.
#[verifier::external_body]
fn encode_png(width: u32, height: u32, rgba: &[u8]) -> (r: Result<Vec<u8>, String>)
    requires
        rgba@.len() >= width as int * height as int * 4,
    ensures
        crate::stfs::filesystem::bytes_result_view(r) == png_encoded(width, height, rgba@),
{
    let img: image::RgbaImage = image::ImageBuffer::from_raw(width, height, rgba.to_vec())
        .ok_or_else(|| String::new())?;
    let mut png_bytes = Vec::new();
    img.write_to(&mut std::io::Cursor::new(&mut png_bytes), image::ImageFormat::Png)
        .map_err(|e| e.to_string())?;
    Ok(png_bytes)
}

/// What `texture_to_png` gives: an error where the pixels do not fill the
/// image, else the PNG encoding, its error prefixed.
pub open spec fn texture_png(width: u32, height: u32, rgba: Seq<u8>) -> Result<Seq<u8>, Seq<char>> {
    if rgba.len() < width as int * height as int * 4 {
        Err("Failed to create image buffer"@)
    } else {
        match png_encoded(width, height, rgba) {
            Ok(b) => Ok(b),
            Err(e) => Err("PNG encode error: "@ + e),
        }
    }
}

/// Encodes a decoded texture as a PNG file.
pub fn texture_to_png(tex: &DecodedTexture) -> (r: Result<Vec<u8>, String>)
    ensures
        crate::stfs::filesystem::bytes_result_view(r) == texture_png(tex.width, tex.height, tex.rgba@),
{
    let w = tex.width as u128;
    let h = tex.height as u128;
    assert(w * h <= 0xFFFF_FFFF * 0xFFFF_FFFF) by (nonlinear_arith)
        requires
            w <= 0xFFFF_FFFF,
            h <= 0xFFFF_FFFF,
    ;
    let need: u128 = w * h * 4;
    if (tex.rgba.len() as u128) < need {
        return Err(String::from_str("Failed to create image buffer"));
    }
    match encode_png(tex.width, tex.height, tex.rgba.as_slice()) {
        Ok(b) => Ok(b),
        Err(e) => {
            let mut v = chars_of("PNG encode error: ");
            let c = chars_of(e.as_str());
            extend_chars(&mut v, c.as_slice());
            Err(string_from_chars(v.as_slice()))
        },
    }
}

} // verus!
