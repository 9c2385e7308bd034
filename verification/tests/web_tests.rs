use std::io::Write;
use yargle::rhythmverse::{zip_entry_count, zip_entry_data, zip_extract_step, ExtractAction};
use yargle::rhythmverse::{browse_error, browse_request, external_link, link_file_id, payload_kind, PayloadKind};
use yargle::updater::{looks_like_exe, update_from_release, Release, ReleaseAsset};
use yargle::rhythmverse::{
    absolutize, extract_download_url, filename_from_disposition, first_quoted, hex_val,
    looks_like_html, map_song, percent_decode, sanitize_filename, RvRawSong,
};
use yargle::updater::{is_newer, parse_version};

#[test]
fn versions_parse_leniently() {
    assert_eq!(parse_version("1.2.3"), vec![1, 2, 3]);
    assert_eq!(parse_version("  v0.10.2 "), vec![0, 10, 2]);
    assert_eq!(parse_version("V2.0.0-beta"), vec![2, 0, 0]);
    assert_eq!(parse_version("1.x.3"), vec![1, 0, 3]);
    assert_eq!(parse_version(""), vec![0]);
    assert_eq!(parse_version("99999999999999999999.1"), vec![0, 1]);
}

#[test]
fn newer_versions_compare_part_by_part() {
    assert!(is_newer("1.2.0", "1.1.9"));
    assert!(is_newer("v1.10.0", "1.9.0"));
    assert!(!is_newer("1.2.0", "1.2.0"));
    assert!(!is_newer("1.2", "1.2.0"));
    assert!(is_newer("1.2.0.1", "1.2"));
    assert!(!is_newer("0.9", "1.0"));
}

#[test]
fn urls_become_absolute() {
    assert_eq!(absolutize(""), "");
    assert_eq!(absolutize("   "), "");
    assert_eq!(absolutize(" https://x.org/a.png "), "https://x.org/a.png");
    assert_eq!(absolutize("http://x.org"), "http://x.org");
    assert_eq!(absolutize("/img/a.png"), "https://rhythmverse.co/img/a.png");
    assert_eq!(absolutize("img/a.png"), "https://rhythmverse.co/img/a.png");
}

#[test]
fn quoted_text_before_semicolons() {
    assert_eq!(first_quoted(" \"abc\" rest"), Some("abc".to_string()));
    assert_eq!(first_quoted("x 'it\"s' y"), Some("it\"s".to_string()));
    assert_eq!(first_quoted("; \"late\""), None);
    assert_eq!(first_quoted("\"open"), None);
    assert_eq!(first_quoted("none"), None);
}

#[test]
fn download_links_are_found_in_the_page() {
    let html = "if (window.location == x) {} window.location.replace('a');\nwindow.location = \"https:\\/\\/rhythmverse.co\\/download_file\\/123\";";
    assert_eq!(
        extract_download_url(html),
        Some("https://rhythmverse.co/download_file/123".to_string())
    );
    let zip = "window.location = 'http://a.b/song.zip';";
    assert_eq!(extract_download_url(zip), Some("http://a.b/song.zip".to_string()));
    let other = "window.location = '/home';";
    assert_eq!(extract_download_url(other), None);
    assert_eq!(extract_download_url("nothing here"), None);
}

#[test]
fn hex_digits() {
    assert_eq!(hex_val(b'0'), Some(0));
    assert_eq!(hex_val(b'9'), Some(9));
    assert_eq!(hex_val(b'a'), Some(10));
    assert_eq!(hex_val(b'F'), Some(15));
    assert_eq!(hex_val(b'g'), None);
}

#[test]
fn percent_decoding() {
    assert_eq!(percent_decode("a%20b"), "a b");
    assert_eq!(percent_decode("%C3%A9t%C3%A9"), "été");
    assert_eq!(percent_decode("100%"), "100%");
    assert_eq!(percent_decode("%zz"), "%zz");
    assert_eq!(percent_decode("%FF"), "\u{FFFD}");
}

#[test]
fn disposition_file_names() {
    assert_eq!(
        filename_from_disposition("attachment; filename=\"song.zip\""),
        Some("song.zip".to_string())
    );
    assert_eq!(
        filename_from_disposition("attachment; FILENAME*=UTF-8''caf%C3%A9.zip; filename=\"x.zip\""),
        Some("café.zip".to_string())
    );
    assert_eq!(filename_from_disposition("attachment; filename=\"\""), None);
    assert_eq!(filename_from_disposition("inline"), None);
}

#[test]
fn download_names_are_made_safe() {
    assert_eq!(sanitize_filename(Some("../../evil/name?.zip".to_string()), "42"), "name.zip");
    assert_eq!(sanitize_filename(Some("dir\\song.zip".to_string()), "42"), "song.zip");
    assert_eq!(sanitize_filename(Some(" ..hidden.. ".to_string()), "42"), "hidden");
    assert_eq!(sanitize_filename(Some("***".to_string()), "42"), "42.bin");
    assert_eq!(sanitize_filename(None, "7"), "7.bin");
}

#[test]
fn html_pages_are_recognized() {
    assert!(looks_like_html(b"  \n<!DOCTYPE html><html>"));
    assert!(looks_like_html(b"<HTML><BODY>sign in</BODY>"));
    assert!(!looks_like_html(b"PK\x03\x04<html>"));
    assert!(!looks_like_html(b"<xml>data</xml>"));
    assert!(!looks_like_html(b""));
}

fn raw(file_id: &str) -> RvRawSong {
    RvRawSong {
        song_id: Some(5),
        title: "T".to_string(),
        artist: "A".to_string(),
        album: "Al".to_string(),
        genre: "rock".to_string(),
        subgenre: "".to_string(),
        year: Some(1999),
        decade: "1990s".to_string(),
        song_length: Some(200),
        album_art: "/img/x.jpg".to_string(),
        song_downloads: Some(10),
        file_id: file_id.to_string(),
        charter: "".to_string(),
        author: "Auth".to_string(),
        gameformat: "rb3".to_string(),
        gamesource: "".to_string(),
        size: Some(1000),
        file_downloads: None,
        user: "up".to_string(),
        upload_date: "0000-00-00".to_string(),
        record_created: "2020-01-01".to_string(),
        file_name: "x.zip".to_string(),
        external_url: "  https://ext/x  ".to_string(),
        diff_guitar: Some(3),
        diff_bass: None,
        diff_drums: None,
        diff_vocals: None,
        diff_keys: Some(1),
    }
}

#[test]
fn browse_rows_become_song_files() {
    assert!(map_song(&raw("")).is_none());
    let s = map_song(&raw("abc")).unwrap();
    assert_eq!(s.file_id, "abc");
    assert_eq!(s.charter, "Auth");
    assert_eq!(s.uploaded, "2020-01-01");
    assert_eq!(s.downloads, Some(10));
    assert_eq!(s.album_art_url, "https://rhythmverse.co/img/x.jpg");
    assert_eq!(s.detail_url, "https://rhythmverse.co/songfile/abc");
    assert_eq!(s.download_url, "https://rhythmverse.co/download/abc");
    assert_eq!(s.external_url, "https://ext/x");
    assert_eq!(s.diff_keys, Some(1));
    let mut r = raw("abc");
    r.charter = "Ch".to_string();
    r.upload_date = "2021-05-05".to_string();
    r.file_downloads = Some(3);
    let s2 = map_song(&r).unwrap();
    assert_eq!(s2.charter, "Ch");
    assert_eq!(s2.uploaded, "2021-05-05");
    assert_eq!(s2.downloads, Some(3));
}


#[test]
fn browse_requests_have_defaults() {
    let r = browse_request(None, None, None, None, None, None);
    assert_eq!(r.url, "https://rhythmverse.co/api/yarg/songfiles/list");
    assert_eq!((r.page, r.records), (1, 25));
    assert_eq!(r.sort_by, "update_date");
    assert_eq!(r.sort_order, "DESC");
    assert!(r.text.is_none());
    let s = browse_request(
        Some("rb3".to_string()),
        Some("  queen  ".to_string()),
        Some(0),
        Some(500),
        Some(String::new()),
        Some("ASC".to_string()),
    );
    assert_eq!(s.url, "https://rhythmverse.co/api/rb3/songfiles/search/live");
    assert_eq!((s.page, s.records), (1, 100));
    assert_eq!(s.sort_by, "update_date");
    assert_eq!(s.sort_order, "ASC");
    assert_eq!(s.text, Some("queen".to_string()));
    let short = browse_request(Some(String::new()), Some(" ab ".to_string()), Some(3), Some(0), None, None);
    assert_eq!(short.url, "https://rhythmverse.co/api/yarg/songfiles/list");
    assert_eq!((short.page, short.records), (3, 1));
    assert!(short.text.is_none());
    assert_eq!(browse_error(None), "RhythmVerse returned an error");
    assert_eq!(browse_error(Some(String::new())), "RhythmVerse returned an error");
    assert_eq!(browse_error(Some("busy".to_string())), "busy");
}

#[test]
fn payloads_and_links() {
    assert_eq!(payload_kind(b"PK\x03\x04").unwrap(), PayloadKind::Zip);
    assert_eq!(payload_kind(b"CON \x00").unwrap(), PayloadKind::Raw);
    assert!(payload_kind(b"<html><body>").err().unwrap().starts_with("RhythmVerse returned a web page"));
    assert_eq!(external_link("  https://drive.example/x ").unwrap(), "https://drive.example/x");
    assert_eq!(external_link("file:///etc").err().unwrap(), "Refusing to open a non-web link");
    assert_eq!(link_file_id("  abc ").unwrap(), "abc");
    assert_eq!(link_file_id("   ").err().unwrap(), "Empty RhythmVerse file id");
}

fn asset(name: &str, url: &str) -> ReleaseAsset {
    ReleaseAsset { name: name.to_string(), browser_download_url: url.to_string() }
}

fn release(tag: &str, assets: Vec<ReleaseAsset>) -> Release {
    Release {
        tag_name: tag.to_string(),
        html_url: "https://gh/r".to_string(),
        name: "Release name".to_string(),
        body: Some(String::new()),
        draft: false,
        prerelease: false,
        assets,
    }
}

#[test]
fn releases_become_updates() {
    let r = release("v1.3.0", vec![asset("setup.exe", "https://gh/setup.exe"), asset("YARGLE.EXE", "https://gh/y.exe")]);
    let u = update_from_release(&r, "1.2.9").unwrap();
    assert_eq!(u.version, "1.3.0");
    assert_eq!(u.url, "https://gh/r");
    assert_eq!(u.notes, "Release name");
    assert_eq!(u.download_url, Some("https://gh/y.exe".to_string()));
    let r2 = release("1.3.0", vec![asset("a.zip", "https://gh/a"), asset("Tool.Exe", "ftp://gh/t")]);
    assert_eq!(update_from_release(&r2, "1.2.9").unwrap().download_url, None);
    let r3 = release("1.3.0", vec![asset("x.exe", "https://gh/x")]);
    assert_eq!(update_from_release(&r3, "1.2.9").unwrap().download_url, Some("https://gh/x".to_string()));
    assert!(update_from_release(&r3, "1.3.0").is_none());
    let mut draft = release("9.0", vec![]);
    draft.draft = true;
    assert!(update_from_release(&draft, "1.0").is_none());
    let mut notes = release("9.0", vec![]);
    notes.body = Some("What's new".to_string());
    assert_eq!(update_from_release(&notes, "1.0").unwrap().notes, "What's new");
    assert!(looks_like_exe(b"MZ\x90"));
    assert!(!looks_like_exe(b"<!"));
}

#[test]
fn comparisons_with_the_location_are_skipped() {
    assert_eq!(extract_download_url(r#"if (window.location == "a.zip") { }"#), None);
    assert_eq!(extract_download_url(r#"if (window.location != "a.zip") { }"#), None);
    assert_eq!(
        extract_download_url(r#"if (window.location == "a.zip") { window.location = "b.zip"; }"#),
        Some("b.zip".to_string())
    );
}

#[test]
fn download_names_are_never_dot_names() {
    let id = "0123456789abcdef0123456789abcdef";
    assert_eq!(sanitize_filename(Some(". . .".to_string()), id), format!("{}.bin", id));
    assert_eq!(sanitize_filename(Some(". .. .".to_string()), id), format!("{}.bin", id));
    assert_eq!(sanitize_filename(Some("dir/ .song.zip. ".to_string()), id), "song.zip");
    assert_eq!(sanitize_filename(None, id), format!("{}.bin", id));
}

fn stored() -> zip::write::SimpleFileOptions {
    zip::write::SimpleFileOptions::default().compression_method(zip::CompressionMethod::Stored)
}

#[test]
fn zip_entries_are_planned_and_escapes_skipped() {
    let mut w = zip::ZipWriter::new(std::io::Cursor::new(Vec::new()));
    w.start_file("../evil.txt", stored()).unwrap();
    w.write_all(b"no").unwrap();
    w.add_directory("Song/sub/", stored()).unwrap();
    w.start_file("Song/notes.mid", stored()).unwrap();
    w.write_all(b"MThd").unwrap();
    let bytes = w.finish().unwrap().into_inner();
    assert_eq!(zip_entry_count(&bytes).unwrap(), 3);
    let (a0, t0) = zip_extract_step(&bytes, 0, None).unwrap();
    assert!(matches!(a0, ExtractAction::Skip));
    assert_eq!(t0, None);
    let (a1, t1) = zip_extract_step(&bytes, 1, t0).unwrap();
    match a1 {
        ExtractAction::Dir(parts) => assert_eq!(parts, vec!["Song".to_string(), "sub".to_string()]),
        _ => panic!("expected a folder"),
    }
    assert_eq!(t1, Some("Song".to_string()));
    let (a2, t2) = zip_extract_step(&bytes, 2, t1).unwrap();
    match a2 {
        ExtractAction::File(parts) => assert_eq!(parts, vec!["Song".to_string(), "notes.mid".to_string()]),
        _ => panic!("expected a file"),
    }
    assert_eq!(t2, Some("Song".to_string()));
    assert_eq!(zip_entry_data(&bytes, 2).unwrap(), b"MThd".to_vec());
    assert!(zip_entry_count(b"not a zip").unwrap_err().starts_with("Invalid zip: "));
}

#[test]
fn percent_decoded_utf8_is_its_text() {
    assert_eq!(percent_decode("%E2%9C%93"), "✓");
    assert_eq!(percent_decode("%FF"), "\u{FFFD}");
}
