use yargle::stfs::filesystem::StfsFilesystem;
use yargle::stfs::header::{has_package_magic, parse_header, parse_header_summary, PackageType};
use yargle::stfs::texture::{decode_png_xbox, pixels_to_rgba, texture_to_png};
use yargle::stfs::utf16::encode_utf16;
use yargle::stfs::writer::{
    resize_thumbnail, write_description, write_display_name, write_dta_content,
    write_file_content_inplace, write_thumbnail,
};

const BASE: usize = 0xB000;
const BLOCK: usize = 0x1000;

fn block_offset(b: usize) -> usize {
    BASE + (b + 1) * BLOCK
}

fn put_entry(
    data: &mut [u8],
    slot: usize,
    name: &str,
    dir: bool,
    blocks: u32,
    start: u32,
    path: u16,
    size: u32,
) {
    let o = block_offset(0) + slot * 0x40;
    data[o..o + name.len()].copy_from_slice(name.as_bytes());
    data[o + 0x28] = (name.len() as u8) | if dir { 0x80 } else { 0 };
    data[o + 0x29] = (blocks & 0xFF) as u8;
    data[o + 0x2A] = ((blocks >> 8) & 0xFF) as u8;
    data[o + 0x2B] = ((blocks >> 16) & 0xFF) as u8;
    data[o + 0x2F] = (start & 0xFF) as u8;
    data[o + 0x30] = ((start >> 8) & 0xFF) as u8;
    data[o + 0x31] = ((start >> 16) & 0xFF) as u8;
    data[o + 0x32..o + 0x34].copy_from_slice(&path.to_be_bytes());
    data[o + 0x34..o + 0x38].copy_from_slice(&size.to_be_bytes());
}

fn link(data: &mut [u8], block: usize, next: u32) {
    let e = BASE + block * 0x18;
    data[e + 0x14] = 0x80;
    data[e + 0x15] = ((next >> 16) & 0xFF) as u8;
    data[e + 0x16] = ((next >> 8) & 0xFF) as u8;
    data[e + 0x17] = (next & 0xFF) as u8;
}

/// A package with a `songs` folder holding a two-block `songs.dta` (blocks
/// 1 and 3) and a `gen` folder holding album art (block 2).
fn package() -> Vec<u8> {
    let mut data = vec![0u8; block_offset(4)];
    data[0..4].copy_from_slice(b"CON ");
    let vd = 0x379;
    data[vd + 3] = 1; // file table block count, low byte
    data[vd + 0x22] = 0;
    data[vd + 0x23] = 0;
    data[vd + 0x24] = 5; // total allocated blocks
    put_entry(&mut data, 0, "songs", true, 0, 0, 0xFFFF, 0);
    put_entry(&mut data, 1, "songs.dta", false, 2, 1, 0, (BLOCK + 3) as u32);
    put_entry(&mut data, 2, "gen", true, 0, 0, 0xFFFF, 0);
    put_entry(&mut data, 3, "x_keep.png_xbox", false, 1, 2, 2, 5);
    link(&mut data, 1, 3);
    let b1 = block_offset(1);
    for i in 0..BLOCK {
        data[b1 + i] = b'a';
    }
    let b3 = block_offset(3);
    data[b3..b3 + 3].copy_from_slice(b"xyz");
    let b2 = block_offset(2);
    data[b2..b2 + 5].copy_from_slice(b"IMAGE");
    data
}

#[test]
fn too_small_for_a_volume_descriptor() {
    let r = StfsFilesystem::parse(vec![0u8; 0x39D]);
    assert!(r.is_err());
    let r = StfsFilesystem::parse(vec![0u8; 0x100]);
    assert_eq!(r.err().unwrap(), "File too small for volume descriptor");
}

#[test]
fn file_table_is_read() {
    let fs = StfsFilesystem::parse(package()).unwrap();
    assert_eq!(fs.volume_descriptor.file_table_block_count, 1);
    assert_eq!(fs.volume_descriptor.file_table_block, 0);
    assert_eq!(fs.volume_descriptor.total_allocated_blocks, 5);
    assert_eq!(fs.files.len(), 4);
    assert_eq!(fs.files[0].name, "songs");
    assert!(fs.files[0].is_directory);
    assert_eq!(fs.files[1].name, "songs.dta");
    assert_eq!(fs.files[1].num_blocks, 2);
    assert_eq!(fs.files[1].starting_block, 1);
    assert_eq!(fs.files[1].path_indicator, 0);
    assert_eq!(fs.files[1].file_size, 4099);
    assert_eq!(fs.files[3].path_indicator, 2);
}

#[test]
fn songs_dta_follows_the_block_chain() {
    let fs = StfsFilesystem::parse(package()).unwrap();
    let (content, entry) = fs.extract_songs_dta().unwrap();
    assert_eq!(entry.name, "songs.dta");
    assert_eq!(content.len(), 4099);
    assert!(content[..BLOCK].iter().all(|&b| b == b'a'));
    assert_eq!(&content[BLOCK..], b"xyz");
    let (e2, offsets) = fs.get_songs_dta_location().unwrap();
    assert_eq!(e2.starting_block, 1);
    assert_eq!(offsets, vec![block_offset(1) as u64, block_offset(3) as u64]);
}

#[test]
fn album_art_is_found_in_gen() {
    let fs = StfsFilesystem::parse(package()).unwrap();
    assert_eq!(fs.extract_album_art().unwrap(), b"IMAGE".to_vec());
}

#[test]
fn missing_files_are_reported() {
    let mut data = package();
    // rename the songs folder
    let o = block_offset(0);
    data[o..o + 5].copy_from_slice(b"notes");
    let fs = StfsFilesystem::parse(data).unwrap();
    assert_eq!(fs.extract_songs_dta().err().unwrap(), "No 'songs' directory found in package");

    let mut data = package();
    let o = block_offset(0) + 3 * 0x40;
    data[o] = b'y';
    let fs = StfsFilesystem::parse(data).unwrap();
    assert_eq!(fs.extract_album_art().unwrap(), b"IMAGE".to_vec());

    let mut data = package();
    let o = block_offset(0) + 0x40;
    data[o] = b'x';
    let fs = StfsFilesystem::parse(data).unwrap();
    assert_eq!(fs.extract_songs_dta().err().unwrap(), "No 'songs.dta' found in songs directory");

    let mut data = package();
    let o = block_offset(0) + 3 * 0x40 + 0x28;
    data[o] = 3; // name "x_k": no longer album art
    let fs = StfsFilesystem::parse(data).unwrap();
    assert_eq!(
        fs.extract_album_art().err().unwrap(),
        "No album art (_keep.png_xbox) found in package"
    );
}

#[test]
fn directories_cannot_be_extracted() {
    let fs = StfsFilesystem::parse(package()).unwrap();
    let dir = fs.files[0].duplicate();
    assert_eq!(fs.extract_file(&dir).err().unwrap(), "Cannot extract a directory");
}

#[test]
fn blocks_past_the_end_are_an_error() {
    let mut data = package();
    data.truncate(block_offset(3) + 2);
    let fs = StfsFilesystem::parse(data).unwrap();
    let e = fs.extract_songs_dta().err().unwrap();
    assert_eq!(e, format!("Block 3 offset 0x{:X} exceeds file size", block_offset(3)));
}

fn header_bytes(len: usize) -> Vec<u8> {
    let mut d = vec![0u8; len];
    d[0..4].copy_from_slice(b"LIVE");
    d
}

#[test]
fn header_texts_read_back() {
    let mut d = header_bytes(0x971A);
    write_display_name(&mut d, "Artist - Song ♪");
    write_description(&mut d, "A description");
    d[0x1691..0x1695].copy_from_slice(&[0, b'R', 0, b'B']);
    d[0x0344..0x0348].copy_from_slice(&0x000D0000u32.to_be_bytes());
    d[0x0360..0x0364].copy_from_slice(&0x45410829u32.to_be_bytes());
    let h = parse_header_summary(&d).unwrap();
    assert_eq!(h.package_type, PackageType::LIVE);
    assert_eq!(h.display_name, "Artist - Song ♪");
    assert_eq!(h.description, "A description");
    assert_eq!(h.title_name, "RB");
    assert_eq!(h.thumbnail_size, 0);
    let full = parse_header(&d).unwrap();
    assert_eq!(full.content_type, 0x000D0000);
    assert_eq!(full.title_id, 0x45410829);
    assert!(full.thumbnail_data.is_empty());
}

#[test]
fn header_errors() {
    assert_eq!(
        parse_header_summary(&header_bytes(0x1719)).err().unwrap(),
        "File too small to be a valid STFS package"
    );
    assert_eq!(
        parse_header(&header_bytes(0x9719)).err().unwrap(),
        "File too small to be a valid STFS package"
    );
    let mut d = header_bytes(0x171A);
    d[0..4].copy_from_slice(b"ABCD");
    assert_eq!(parse_header_summary(&d).err().unwrap(), "Unknown package type: [65, 66, 67]");
    let mut d = header_bytes(0x171A);
    // an unpaired surrogate in the display name
    d[0x411] = 0xD8;
    d[0x412] = 0x00;
    assert!(parse_header_summary(&d).is_err());
}

#[test]
fn long_names_are_cut_to_the_field() {
    let mut d = header_bytes(0x171A);
    let long: String = std::iter::repeat('x').take(200).collect();
    write_display_name(&mut d, &long);
    let h = parse_header_summary(&d).unwrap();
    assert_eq!(h.display_name.len(), 128);
    // the bytes after the field are untouched
    assert_eq!(d[0x511], 0);
}

#[test]
fn thumbnails_are_written_and_read() {
    let mut d = header_bytes(0x971A);
    let img = vec![7u8; 100];
    write_thumbnail(&mut d, &img).unwrap();
    assert_eq!(&d[0x1712..0x1716], &100u32.to_be_bytes());
    assert_eq!(&d[0x1716..0x171A], &100u32.to_be_bytes());
    let h = parse_header(&d).unwrap();
    assert_eq!(h.thumbnail_size, 100);
    assert_eq!(h.thumbnail_data, img);
    let big = vec![1u8; 0x4001];
    assert_eq!(
        write_thumbnail(&mut d, &big).err().unwrap(),
        "Thumbnail too large: 16385 bytes (max 16384)"
    );
}

#[test]
fn dta_is_written_into_its_blocks() {
    let mut data = package();
    let offsets = vec![block_offset(1) as u64, block_offset(3) as u64];
    let entry_offset = (block_offset(0) + 0x40) as u64;
    write_dta_content(&mut data, b"(song)", &offsets, 4099, Some(entry_offset)).unwrap();
    let fs = StfsFilesystem::parse(data).unwrap();
    let (content, _) = fs.extract_songs_dta().unwrap();
    assert_eq!(content, b"(song)".to_vec());

    let mut data = package();
    let huge = vec![b'z'; 2 * BLOCK + 1];
    let e = write_dta_content(&mut data, &huge, &offsets, 4099, None).err().unwrap();
    assert!(e.starts_with("Modified DTA (8193 bytes) exceeds allocated block capacity (8192 bytes)."));
}

#[test]
fn content_is_overwritten_in_place() {
    let mut data = package();
    let offsets = vec![block_offset(2) as u64];
    write_file_content_inplace(&mut data, b"PNG", &offsets).unwrap();
    assert_eq!(&data[block_offset(2)..block_offset(2) + 5], b"PNGGE");
    let bad = vec![(data.len() as u64)];
    assert!(write_file_content_inplace(&mut data, b"x", &bad).is_err());
}

#[test]
fn utf16_round_trip() {
    let units = encode_utf16("héllo 𝄞");
    assert_eq!(units, "héllo 𝄞".encode_utf16().collect::<Vec<u16>>());
    let mut d = header_bytes(0x971A);
    write_display_name(&mut d, "héllo 𝄞");
    assert_eq!(parse_header_summary(&d).unwrap().display_name, "héllo 𝄞");
    d[0x411] = 0xDC;
    d[0x412] = 0x00;
    assert!(parse_header_summary(&d).is_err());
}

#[test]
fn pixels_become_rgba() {
    assert_eq!(pixels_to_rgba(&[0x11223344, 0xFF000000]), vec![0x22, 0x33, 0x44, 0x11, 0, 0, 0, 0xFF]);
}

#[test]
fn textures_decode() {
    assert_eq!(decode_png_xbox(&[0u8; 39]).err().unwrap(), "File too small for HMX texture");
    let mut data = vec![0u8; 32 + 128 * 128 / 2];
    data[1] = 0x04;
    data[8..10].copy_from_slice(&128u16.to_be_bytes());
    data[10..12].copy_from_slice(&128u16.to_be_bytes());
    let t = decode_png_xbox(&data).unwrap();
    assert_eq!((t.width, t.height), (128, 128));
    assert_eq!(t.rgba.len(), 128 * 128 * 4);
    assert_eq!(&t.rgba[0..4], &[0, 0, 0, 255]);
    // too little data for the stated size
    data.truncate(32 + 100);
    let e = decode_png_xbox(&data).err().unwrap();
    assert_eq!(e, "Not enough texture data: have 100, need 8192 for 128x128 DXT1");
    // no usable size at all
    let mut odd = vec![0u8; 32 + 100];
    odd[1] = 0x08;
    assert_eq!(
        decode_png_xbox(&odd).err().unwrap(),
        "Cannot determine texture dimensions (data size: 100, dxt5: true)"
    );
}

#[test]
fn audio_and_chart_files_are_found() {
    let mut data = package();
    let o = block_offset(0) + 3 * 0x40;
    // rename the art to an audio file, then look for it
    data[o..o + 15].copy_from_slice(b"song_Audio.MOGG");
    let fs = StfsFilesystem::parse(data).unwrap();
    let mogg = fs.find_mogg_file().unwrap();
    assert_eq!(mogg.name, "song_Audio.MOGG");
    assert_eq!(fs.get_file_block_offsets(&mogg).unwrap(), vec![block_offset(2) as u64]);
    assert!(fs.find_mid_file().is_none());
    let dta = fs.files[1].duplicate();
    assert_eq!(fs.get_file_block_offsets(&dta).unwrap(), vec![block_offset(1) as u64, block_offset(3) as u64]);
}

#[test]
fn textures_become_png() {
    let mut data = vec![0u8; 32 + 128 * 128 / 2];
    data[1] = 0x04;
    data[8..10].copy_from_slice(&128u16.to_be_bytes());
    data[10..12].copy_from_slice(&128u16.to_be_bytes());
    let t = decode_png_xbox(&data).unwrap();
    let png = texture_to_png(&t).unwrap();
    assert_eq!(&png[1..4], b"PNG");
    let short = yargle::stfs::texture::DecodedTexture { width: 2, height: 2, rgba: vec![0; 15] };
    assert_eq!(texture_to_png(&short).err().unwrap(), "Failed to create image buffer");
    assert!(has_package_magic(b"PIRS"));
    assert!(!has_package_magic(b"CON"));
}

#[test]
fn big_pictures_are_shrunk_to_fit() {
    let mut data = vec![0u8; 32 + 128 * 128 / 2];
    data[1] = 0x04;
    data[8..10].copy_from_slice(&128u16.to_be_bytes());
    data[10..12].copy_from_slice(&128u16.to_be_bytes());
    let png = texture_to_png(&decode_png_xbox(&data).unwrap()).unwrap();
    let jpeg = resize_thumbnail(&png).unwrap();
    assert!(jpeg.len() <= 0x4000);
    assert_eq!(&jpeg[0..2], &[0xFF, 0xD8]);
    assert!(resize_thumbnail(b"not an image").err().unwrap().starts_with("Failed to load image: "));
}

#[test]
fn songs_dta_written_in_place_reads_back() {
    let original = package();
    let fs = StfsFilesystem::parse(original.clone()).unwrap();
    let (content, _) = fs.extract_songs_dta().unwrap();
    let (_, offsets) = fs.get_songs_dta_location().unwrap();

    let mut same = original.clone();
    write_file_content_inplace(&mut same, &content, &offsets).unwrap();
    assert_eq!(same, original);

    let mut changed = original.clone();
    let mut new_content = vec![b'q'; content.len()];
    new_content[BLOCK] = b'!';
    write_file_content_inplace(&mut changed, &new_content, &offsets).unwrap();
    let (back, entry) = StfsFilesystem::parse(changed).unwrap().extract_songs_dta().unwrap();
    assert_eq!(back, new_content);
    assert_eq!(entry.file_size as usize, new_content.len());
}

#[test]
fn summary_reads_both_texts_written_into_a_small_header() {
    let mut d = header_bytes(0x171A);
    d[0x1691..0x1695].copy_from_slice(&[0, b'R', 0, b'B']);
    d[0x1712..0x1716].copy_from_slice(&7u32.to_be_bytes());
    let before = parse_header_summary(&d).unwrap();
    write_display_name(&mut d, "Name 𝄞");
    write_description(&mut d, "Desc");
    let h = parse_header_summary(&d).unwrap();
    assert_eq!(h.display_name, "Name 𝄞");
    assert_eq!(h.description, "Desc");
    assert_eq!(h.package_type, before.package_type);
    assert_eq!(h.title_name, before.title_name);
    assert_eq!(h.thumbnail_size, 7);
}
