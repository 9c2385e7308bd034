use yargle::commands::CacheRow;
use yargle::dta::types::{SongMetadata, SongSummary, ValidationIssue, ValidationLevel};
use yargle::library::{
    decode_dta, decode_dta_with_bom, find_folder_album_art, folder_details, folder_display_name,
    folder_summary, folder_thumbnail_url, package_details, package_metadata, package_summary,
    sort_by_display_name, split_by_cache, summarize_validation, thumbnail_data_url,
    update_package, validate_folder, validate_package, thumbnail_upload, header_thumbnail,
};
use yargle::stfs::writer::{write_description, write_display_name};

const BASE: usize = 0xB000;
const BLOCK: usize = 0x1000;

fn block_offset(b: usize) -> usize {
    BASE + (b + 1) * BLOCK
}

fn put_entry(data: &mut [u8], slot: usize, name: &str, dir: bool, start: u32, path: u16, size: u32) {
    let o = block_offset(0) + slot * 0x40;
    data[o..o + name.len()].copy_from_slice(name.as_bytes());
    data[o + 0x28] = (name.len() as u8) | if dir { 0x80 } else { 0 };
    data[o + 0x29] = if dir { 0 } else { 1 };
    data[o + 0x2F] = (start & 0xFF) as u8;
    data[o + 0x32..o + 0x34].copy_from_slice(&path.to_be_bytes());
    data[o + 0x34..o + 0x38].copy_from_slice(&size.to_be_bytes());
}

/// A CON package whose `songs/songs.dta` (block 1) holds `dta`.
fn package(dta: &[u8]) -> Vec<u8> {
    let mut data = vec![0u8; block_offset(3)];
    data[0..4].copy_from_slice(b"CON ");
    data[0x379 + 3] = 1;
    put_entry(&mut data, 0, "songs", true, 0, 0xFFFF, 0);
    put_entry(&mut data, 1, "songs.dta", false, 1, 0, dta.len() as u32);
    let b1 = block_offset(1);
    data[b1..b1 + dta.len()].copy_from_slice(dta);
    write_display_name(&mut data, "The Band - My Song");
    write_description(&mut data, "Loading...");
    data
}

const DTA: &str = "(mysong\n (name \"My Song\")\n (artist \"The Band\")\n (album_name \"LP\")\n (game_origin rb3)\n)\n;Author: Me\n";

#[test]
fn dta_text_decoding() {
    assert_eq!(decode_dta(&"héllo".as_bytes().to_vec()), "héllo");
    assert_eq!(decode_dta(&vec![0x63, 0x61, 0x66, 0xE9]), "café");
    assert_eq!(decode_dta_with_bom(&vec![0xFF, 0xFE, 0x61, 0x00]), "a");
    assert_eq!(decode_dta_with_bom(&vec![0x61, 0x62]), "ab");
}

#[test]
fn package_metadata_and_summary() {
    let data = package(DTA.as_bytes());
    let (m, text, entry) = package_metadata(data.clone(), false).unwrap();
    assert_eq!(m.shortname, "mysong");
    assert_eq!(m.name, "My Song");
    assert_eq!(m.author, "Me");
    assert_eq!(text, DTA);
    assert_eq!(entry.file_size as usize, DTA.len());
    let s = package_summary("/p.con".to_string(), data).unwrap();
    assert_eq!(s.path, "/p.con");
    assert_eq!(s.display_name, "The Band - My Song");
    assert_eq!(s.description, "Loading...");
    assert!(!s.has_thumbnail);
    assert!(!s.is_folder);
    assert_eq!(s.album_name, "LP");
    assert_eq!(s.author, "Me");
    assert_eq!(s.game_origin, "rb3");
    assert!(package_summary("x".to_string(), vec![0u8; 10]).is_none());
}

#[test]
fn details_and_saving_edits() {
    let mut data = package(DTA.as_bytes());
    let d = package_details("/p.con".to_string(), data.clone()).unwrap();
    assert_eq!(d.metadata.artist, "The Band");
    assert_eq!(d.raw_dta, DTA);
    assert_eq!(d.dta_file_size as usize, DTA.len());
    assert_eq!(d.thumbnail_base64, "");
    assert!(!d.is_folder);
    assert!(d.validation_issues.iter().any(|i| i.field == "thumbnail"));

    let mut m = d.metadata.duplicate();
    m.name = "Renamed".to_string();
    let thumb = [0x89u8, 0x50, 0x4E, 0x47, 1, 2];
    update_package(&mut data, Some("New Title"), None, Some(&thumb), Some(&m)).unwrap();
    let d2 = package_details("/p.con".to_string(), data.clone()).unwrap();
    assert_eq!(d2.display_name, "New Title");
    assert_eq!(d2.description, "Loading...");
    assert_eq!(d2.metadata.name, "Renamed");
    assert_eq!(d2.metadata.artist, "The Band");
    assert_eq!(d2.thumbnail_base64, "data:image/png;base64,iVBORwEC");
    assert!(d2.raw_dta.contains("(name \"Renamed\")"));

    let err = package_details("x".to_string(), vec![0u8; 100]).err().unwrap();
    assert_eq!(err, "File too small to be a valid STFS package");
}

#[test]
fn packages_without_songs_are_reported() {
    let mut data = package(DTA.as_bytes());
    let o = block_offset(0);
    data[o] = b'x';
    assert_eq!(
        package_metadata(data, false).err().unwrap(),
        "No 'songs' directory found in package"
    );
    let broken = package(b"(mysong (name \"x\")");
    assert_eq!(package_metadata(broken, false).err().unwrap(), "Unexpected end of input in list");
}

#[test]
fn package_validation() {
    let data = package(DTA.as_bytes());
    let (name, issues) = validate_package(data).unwrap();
    assert_eq!(name, "The Band - My Song");
    assert!(issues.iter().all(|i| i.level != ValidationLevel::Error));
    assert!(validate_package(vec![1, 2, 3]).is_none());
}

#[test]
fn data_urls() {
    assert_eq!(thumbnail_data_url(&[0x89, 0x50, 0x4E, 0x47]), "data:image/png;base64,iVBORw==");
    assert_eq!(thumbnail_data_url(&[0xFF, 0xD8]), "data:image/jpeg;base64,/9g=");
    assert_eq!(folder_thumbnail_url("album.png", b"abc"), "data:image/png;base64,YWJj");
    assert_eq!(folder_thumbnail_url("album.jpg", b"abcd"), "data:image/jpeg;base64,YWJjZA==");
}

#[test]
fn folder_album_art_is_picked_in_order() {
    let names = |v: &[&str]| v.iter().map(|s| s.to_string()).collect::<Vec<String>>();
    assert_eq!(find_folder_album_art(&names(&["notes.mid", "album.jpg", "album.png"])), Some("album.png".to_string()));
    assert_eq!(find_folder_album_art(&names(&["album.jpeg", "album.jpg"])), Some("album.jpg".to_string()));
    assert_eq!(find_folder_album_art(&names(&["album.jpeg"])), Some("album.jpeg".to_string()));
    assert_eq!(find_folder_album_art(&names(&["Album.png"])), None);
}

const INI: &str = "[song]\nname = Tune\nartist = Band\nloading_phrase = Hello there\nicon = rb2\ncharter = Ch\n";

#[test]
fn folder_entries() {
    let mut m = SongMetadata::new();
    assert_eq!(folder_display_name(&m, "dir"), "dir");
    m.name = "N".to_string();
    assert_eq!(folder_display_name(&m, "dir"), "N");
    m.artist = "A".to_string();
    assert_eq!(folder_display_name(&m, "dir"), "A - N");

    let s = folder_summary("/songs/x".to_string(), INI, "x", true);
    assert_eq!(s.display_name, "Band - Tune");
    assert_eq!(s.description, "Hello there");
    assert_eq!(s.title_name, "Tune");
    assert!(s.has_thumbnail && s.is_folder);
    assert_eq!(s.game_origin, "rb2");
    assert_eq!(s.author, "Ch");
    let bare = folder_summary("/songs/y".to_string(), "[song]\n", "y", false);
    assert_eq!(bare.display_name, "y");
    assert_eq!(bare.description, "y");

    let d = folder_details("/songs/x".to_string(), INI, "x", String::new(), 77);
    assert_eq!(d.display_name, "Band - Tune");
    assert_eq!(d.description, "Hello there");
    assert_eq!(d.raw_dta, INI);
    assert_eq!(d.dta_file_size, 77);
    assert!(d.is_folder);

    let (name, issues) = validate_folder(INI, "x", false);
    assert_eq!(name, "Band - Tune");
    assert!(issues.iter().any(|i| i.field == "thumbnail"));
}

fn summary(path: &str, display: &str) -> SongSummary {
    SongSummary {
        path: path.to_string(),
        display_name: display.to_string(),
        description: String::new(),
        title_name: String::new(),
        has_thumbnail: false,
        is_folder: false,
        album_name: String::new(),
        author: String::new(),
        game_origin: String::new(),
    }
}

#[test]
fn cache_serves_unchanged_entries() {
    let sigs = vec![(10, 100), (20, 200), (30, 300), (40, 400)];
    let rows = vec![
        Some(CacheRow { mtime: 10, size: 100, summary: Some(summary("a", "A")) }),
        Some(CacheRow { mtime: 21, size: 200, summary: Some(summary("b", "B")) }),
        None,
        Some(CacheRow { mtime: 40, size: 400, summary: None }),
    ];
    let (served, stale) = split_by_cache(&sigs, &rows);
    assert_eq!(served.len(), 1);
    assert_eq!(served[0].path, "a");
    assert_eq!(stale, vec![1, 2]);
}

#[test]
fn song_lists_sort_by_display_name() {
    let songs = vec![summary("1", "beta"), summary("2", "Alpha"), summary("3", "alpha"), summary("4", "Gamma")];
    let sorted = sort_by_display_name(&songs);
    let paths: Vec<&str> = sorted.iter().map(|s| s.path.as_str()).collect();
    assert_eq!(paths, vec!["2", "3", "1", "4"]);
}

fn issue(level: ValidationLevel, field: &str) -> ValidationIssue {
    ValidationIssue { level, field: field.to_string(), message: String::new() }
}

#[test]
fn batch_validation_tally() {
    let paths = vec!["a".to_string(), "b".to_string(), "c".to_string(), "d".to_string()];
    let outcomes = vec![
        Some(("A".to_string(), vec![issue(ValidationLevel::Error, "name")])),
        Some(("B".to_string(), vec![issue(ValidationLevel::Warning, "genre"), issue(ValidationLevel::Info, "rating")])),
        Some(("C".to_string(), vec![])),
        None,
    ];
    let r = summarize_validation(paths, outcomes);
    assert_eq!(r.total_songs, 4);
    assert_eq!(r.songs_with_errors, 1);
    assert_eq!(r.songs_with_warnings, 1);
    assert_eq!(r.songs_clean, 1);
    assert_eq!(r.parse_failures, 1);
    assert_eq!(r.results.len(), 2);
    assert_eq!(r.results[0].path, "a");
    assert_eq!(r.results[1].display_name, "B");
}

#[test]
fn uploaded_thumbnails() {
    assert_eq!(thumbnail_upload("data:image/png;base64,YWJj").unwrap(), b"abc".to_vec());
    assert_eq!(thumbnail_upload("YWJjZA==").unwrap(), b"abcd".to_vec());
    assert!(thumbnail_upload("data:x,YWJ").err().unwrap().starts_with("Invalid base64: "));
    assert!(thumbnail_upload("YWJjZA=").is_err());
    // small data that is no image is kept as it is
    assert_eq!(header_thumbnail(vec![1, 2, 3]).unwrap(), vec![1, 2, 3]);
    // large data that is no image cannot be resized
    assert!(header_thumbnail(vec![0u8; 0x4001]).err().unwrap().starts_with("Failed to load image: "));
}
