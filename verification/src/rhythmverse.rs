//! RhythmVerse song browsing and downloads: the records kept and the text
//! handling of the site's pages and download headers.
use vstd::prelude::*;
use vstd::utf8::{decode_utf8, encode_utf8, valid_utf8};
use crate::stfs::bytes::{from_utf8_lossy, utf8_lossy};
use crate::text::{
    ascii_lower, chars_of, chars_starts_with, contains_text, ends_with, extend_chars,
    find_from, find_text, first_index, lemma_find_from_bounds, lower_ascii_char, replace_all,
    replace_text, starts_with, string_from_chars, sub_chars, trim, trim_char, trim_char_chars,
    trimmed, chars_ends_with, is_ws, is_whitespace,
};

verus! {

/// One row of the browse results: a chart file for a game.
pub struct RvSongFile {
    pub file_id: String,
    pub song_id: Option<i64>,
    pub title: String,
    pub artist: String,
    pub album: String,
    pub genre: String,
    pub subgenre: String,
    pub year: Option<i64>,
    pub decade: String,
    pub song_length_sec: Option<i64>,
    pub album_art_url: String,
    pub charter: String,
    pub gameformat: String,
    pub gamesource: String,
    pub size_bytes: Option<i64>,
    pub downloads: Option<i64>,
    pub uploader: String,
    pub uploaded: String,
    pub file_name: String,
    pub detail_url: String,
    pub download_url: String,
    /// Non-empty where the file is hosted off-site.
    pub external_url: String,
    pub diff_guitar: Option<i64>,
    pub diff_bass: Option<i64>,
    pub diff_drums: Option<i64>,
    pub diff_vocals: Option<i64>,
    pub diff_keys: Option<i64>,
}

pub struct RvBrowseResult {
    pub songs: Vec<RvSongFile>,
    pub total_available: i64,
    pub total_filtered: i64,
    pub returned: i64,
    pub page: u32,
}

pub struct RvDownloadResult {
    pub file_id: String,
    pub extracted_to: String,
    pub entries: usize,
}

pub struct RvDownloadRecord {
    pub file_id: String,
    pub downloaded_at: String,
    /// The site's upload date of the version held; empty where unknown.
    pub rv_upload_date: String,
}

// ---------------------------------------------------------------- URLs

/// A possibly relative URL or path made absolute on rhythmverse.co.
pub open spec fn absolute_url(u: Seq<char>) -> Seq<char> {
    let t = trim(u);
    if t.len() == 0 {
        Seq::empty()
    } else if starts_with(t, "http://"@) || starts_with(t, "https://"@) {
        t
    } else if t[0] == '/' {
        "https://rhythmverse.co"@ + "/"@ + t.drop_first()
    } else {
        "https://rhythmverse.co"@ + "/"@ + t
    }
}

fn push_str(v: &mut Vec<char>, lit: &str)
    ensures
        final(v)@ == old(v)@ + lit@,
{
    let c = chars_of(lit);
    extend_chars(v, c.as_slice());
}

/// Turns a possibly relative URL or path into an absolute rhythmverse.co URL.
pub fn absolutize(u: &str) -> (r: String)
    ensures
        r@ == absolute_url(u@),
{
    let c = chars_of(u);
    let t = trimmed(c.as_slice());
    if t.len() == 0 {
        return String::new();
    }
    let http = chars_of("http://");
    let https = chars_of("https://");
    if chars_starts_with(t.as_slice(), http.as_slice()) || chars_starts_with(
        t.as_slice(),
        https.as_slice(),
    ) {
        return string_from_chars(t.as_slice());
    }
    let mut v = chars_of("https://rhythmverse.co");
    push_str(&mut v, "/");
    if t[0] == '/' {
        let rest = sub_chars(t.as_slice(), 1, t.len());
        assert(rest@ =~= t@.drop_first());
        extend_chars(&mut v, rest.as_slice());
    } else {
        extend_chars(&mut v, t.as_slice());
    }
    string_from_chars(v.as_slice())
}

// ---------------------------------------------------------------- browse rows

/// A browse row's fields as the site sends them, each already read as text
/// (numbers written out, missing fields empty) or as an integer (`None`
/// where missing or not a number). `data` fields describe the song, `file`
/// fields the chart file.
pub struct RvRawSong {
    pub song_id: Option<i64>,
    pub title: String,
    pub artist: String,
    pub album: String,
    pub genre: String,
    pub subgenre: String,
    pub year: Option<i64>,
    pub decade: String,
    pub song_length: Option<i64>,
    pub album_art: String,
    pub song_downloads: Option<i64>,
    pub file_id: String,
    pub charter: String,
    pub author: String,
    pub gameformat: String,
    pub gamesource: String,
    pub size: Option<i64>,
    pub file_downloads: Option<i64>,
    pub user: String,
    pub upload_date: String,
    pub record_created: String,
    pub file_name: String,
    pub external_url: String,
    pub diff_guitar: Option<i64>,
    pub diff_bass: Option<i64>,
    pub diff_drums: Option<i64>,
    pub diff_vocals: Option<i64>,
    pub diff_keys: Option<i64>,
}

/// The charter of a row: its `charter` field, else its `author`.
pub open spec fn row_charter(raw: RvRawSong) -> Seq<char> {
    if raw.charter@.len() == 0 {
        raw.author@
    } else {
        raw.charter@
    }
}

/// The upload date of a row: its `upload_date`, unless that is empty or a
/// zero date, in which case the date the record was created.
pub open spec fn row_uploaded(raw: RvRawSong) -> Seq<char> {
    if raw.upload_date@.len() == 0 || starts_with(raw.upload_date@, "0000"@) {
        raw.record_created@
    } else {
        raw.upload_date@
    }
}

fn copy_string(s: &String) -> (r: String)
    ensures
        r@ == s@,
{
    s.clone()
}

fn site_url(path: &str, file_id: &str) -> (r: String)
    ensures
        r@ == "https://rhythmverse.co"@ + path@ + file_id@,
{
    let mut v = chars_of("https://rhythmverse.co");
    push_str(&mut v, path);
    push_str(&mut v, file_id);
    string_from_chars(v.as_slice())
}

/// A browse row made into a song file; `None` for a row without a file id,
/// which cannot be downloaded.
pub fn map_song(raw: &RvRawSong) -> (r: Option<RvSongFile>)
    ensures
        r is None <==> raw.file_id@.len() == 0,
        r matches Some(f) ==> {
            &&& f.file_id@ == raw.file_id@
            &&& f.song_id == raw.song_id
            &&& f.title@ == raw.title@
            &&& f.artist@ == raw.artist@
            &&& f.album@ == raw.album@
            &&& f.genre@ == raw.genre@
            &&& f.subgenre@ == raw.subgenre@
            &&& f.year == raw.year
            &&& f.decade@ == raw.decade@
            &&& f.song_length_sec == raw.song_length
            &&& f.album_art_url@ == absolute_url(raw.album_art@)
            &&& f.charter@ == row_charter(*raw)
            &&& f.gameformat@ == raw.gameformat@
            &&& f.gamesource@ == raw.gamesource@
            &&& f.size_bytes == raw.size
            &&& f.downloads == (if raw.file_downloads is Some { raw.file_downloads } else { raw.song_downloads })
            &&& f.uploader@ == raw.user@
            &&& f.uploaded@ == row_uploaded(*raw)
            &&& f.file_name@ == raw.file_name@
            &&& f.detail_url@ == "https://rhythmverse.co"@ + "/songfile/"@ + raw.file_id@
            &&& f.download_url@ == "https://rhythmverse.co"@ + "/download/"@ + raw.file_id@
            &&& f.external_url@ == trim(raw.external_url@)
            &&& f.diff_guitar == raw.diff_guitar
            &&& f.diff_bass == raw.diff_bass
            &&& f.diff_drums == raw.diff_drums
            &&& f.diff_vocals == raw.diff_vocals
            &&& f.diff_keys == raw.diff_keys
        },
{
    if raw.file_id.as_str().unicode_len() == 0 {
        return None;
    }
    let charter = if raw.charter.as_str().unicode_len() == 0 {
        copy_string(&raw.author)
    } else {
        copy_string(&raw.charter)
    };
    let u = chars_of(raw.upload_date.as_str());
    let zeros = chars_of("0000");
    let uploaded = if u.len() == 0 || chars_starts_with(u.as_slice(), zeros.as_slice()) {
        copy_string(&raw.record_created)
    } else {
        copy_string(&raw.upload_date)
    };
    let downloads = match raw.file_downloads {
        Some(d) => Some(d),
        None => raw.song_downloads,
    };
    let ext = chars_of(raw.external_url.as_str());
    let ext_trimmed = trimmed(ext.as_slice());
    Some(RvSongFile {
        file_id: copy_string(&raw.file_id),
        song_id: raw.song_id,
        title: copy_string(&raw.title),
        artist: copy_string(&raw.artist),
        album: copy_string(&raw.album),
        genre: copy_string(&raw.genre),
        subgenre: copy_string(&raw.subgenre),
        year: raw.year,
        decade: copy_string(&raw.decade),
        song_length_sec: raw.song_length,
        album_art_url: absolutize(raw.album_art.as_str()),
        charter,
        gameformat: copy_string(&raw.gameformat),
        gamesource: copy_string(&raw.gamesource),
        size_bytes: raw.size,
        downloads,
        uploader: copy_string(&raw.user),
        uploaded,
        file_name: copy_string(&raw.file_name),
        detail_url: site_url("/songfile/", raw.file_id.as_str()),
        download_url: site_url("/download/", raw.file_id.as_str()),
        external_url: string_from_chars(ext_trimmed.as_slice()),
        diff_guitar: raw.diff_guitar,
        diff_bass: raw.diff_bass,
        diff_drums: raw.diff_drums,
        diff_vocals: raw.diff_vocals,
        diff_keys: raw.diff_keys,
    })
}

// ---------------------------------------------------------------- browse requests

/// A browse request: where it goes and the form it sends.
pub struct RvBrowseRequest {
    pub url: String,
    pub page: u32,
    pub records: u32,
    pub sort_by: String,
    pub sort_order: String,
    /// The search text, for a search; `None` to list everything.
    pub text: Option<String>,
}

pub open spec fn text_or(v: Option<String>, d: Seq<char>) -> Seq<char> {
    match v {
        Some(s) => if s@.len() > 0 {
            s@
        } else {
            d
        },
        None => d,
    }
}

/// Whether a query searches: at least three characters once trimmed.
pub open spec fn is_search(text: Option<String>) -> bool {
    match text {
        Some(t) => trim(t@).len() >= 3,
        None => false,
    }
}

fn text_or_default(v: &Option<String>, d: &str) -> (r: String)
    ensures
        r@ == text_or(*v, d@),
{
    match v {
        Some(s) => if s.as_str().unicode_len() > 0 {
            s.clone()
        } else {
            String::from_str(d)
        },
        None => String::from_str(d),
    }
}

/// Plans a browse request: game `yarg`, page 1, 25 records (at most 100),
/// newest uploads first unless told otherwise; a query of three characters
/// or more searches, a shorter one lists everything.
pub fn browse_request(
    game: Option<String>,
    text: Option<String>,
    page: Option<u32>,
    records: Option<u32>,
    sort_by: Option<String>,
    sort_order: Option<String>,
) -> (r: RvBrowseRequest)
    ensures
        r.url@ == "https://rhythmverse.co/api/"@ + text_or(game, "yarg"@) + "/songfiles/"@ + (if is_search(text) {
            "search/live"@
        } else {
            "list"@
        }),
        r.page == match page {
            Some(p) => if p < 1 {
                1
            } else {
                p
            },
            None => 1,
        },
        r.records == match records {
            Some(n) => if n < 1 {
                1
            } else if n > 100 {
                100
            } else {
                n
            },
            None => 25,
        },
        r.sort_by@ == text_or(sort_by, "update_date"@),
        r.sort_order@ == text_or(sort_order, "DESC"@),
        match r.text {
            Some(t) => is_search(text) && t@ == trim(text->0@),
            None => !is_search(text),
        },
{
    let g = text_or_default(&game, "yarg");
    let p = match page {
        Some(p) => if p < 1 {
            1
        } else {
            p
        },
        None => 1,
    };
    let n = match records {
        Some(n) => if n < 1 {
            1
        } else if n > 100 {
            100
        } else {
            n
        },
        None => 25,
    };
    let query: Option<Vec<char>> = match &text {
        Some(t) => {
            let c = chars_of(t.as_str());
            let q = trimmed(c.as_slice());
            if q.len() >= 3 {
                Some(q)
            } else {
                None
            }
        },
        None => None,
    };
    let mut v = chars_of("https://rhythmverse.co/api/");
    let gc = chars_of(g.as_str());
    extend_chars(&mut v, gc.as_slice());
    push_str(&mut v, "/songfiles/");
    match &query {
        Some(_) => push_str(&mut v, "search/live"),
        None => push_str(&mut v, "list"),
    }
    RvBrowseRequest {
        url: string_from_chars(v.as_slice()),
        page: p,
        records: n,
        sort_by: text_or_default(&sort_by, "update_date"),
        sort_order: text_or_default(&sort_order, "DESC"),
        text: match query {
            Some(q) => Some(string_from_chars(q.as_slice())),
            None => None,
        },
    }
}

/// The error a failed browse reports: the site's message where it gave one,
/// else a generic one.
pub fn browse_error(message: Option<String>) -> (r: String)
    ensures
        r@ == text_or(message, "RhythmVerse returned an error"@),
{
    text_or_default(&message, "RhythmVerse returned an error")
}

// ---------------------------------------------------------------- the download page

/// The first quoted text (single or double quotes) of `s` from `i` on that
/// comes before any `;`; `None` where a `;` comes first, where there is no
/// quote, or where the quote is not closed.
pub open spec fn quoted_from(s: Seq<char>, i: int) -> Option<Seq<char>>
    decreases s.len() - i,
{
    if i < 0 || i >= s.len() {
        None
    } else if s[i] == '"' || s[i] == '\'' {
        let rest = s.skip(i + 1);
        let j = first_index(rest, s[i]);
        if j < rest.len() {
            Some(rest.take(j))
        } else {
            None
        }
    } else if s[i] == ';' {
        None
    } else {
        quoted_from(s, i + 1)
    }
}

/// The first single- or double-quoted text before the next `;`.
pub fn first_quoted(s: &str) -> (r: Option<String>)
    ensures
        match r {
            Some(q) => quoted_from(s@, 0) == Some(q@),
            None => quoted_from(s@, 0) is None,
        },
{
    let c = chars_of(s);
    match quoted_in(c.as_slice(), 0) {
        Some(q) => Some(string_from_chars(q.as_slice())),
        None => None,
    }
}

fn quoted_in(s: &[char], from: usize) -> (r: Option<Vec<char>>)
    requires
        from <= s@.len(),
    ensures
        match r {
            Some(q) => quoted_from(s@, from as int) == Some(q@),
            None => quoted_from(s@, from as int) is None,
        },
{
    let mut i = from;
    while i < s.len()
        invariant
            from <= i <= s@.len(),
            quoted_from(s@, i as int) == quoted_from(s@, from as int),
        decreases s@.len() - i,
    {
        let ch = s[i];
        if ch == '"' || ch == '\'' {
            let j = crate::text::find_char_from(s, ch, i + 1);
            if j < s.len() {
                let q = sub_chars(s, i + 1, j);
                assert(s@.skip(i + 1).take(j - i - 1) =~= q@);
                return Some(q);
            }
            return None;
        }
        if ch == ';' {
            return None;
        }
        i = i + 1;
    }
    None
}

/// Whether the `=` at `idx` is part of a comparison (`==`, `===`, `!=`)
/// rather than an assignment.
pub open spec fn is_comparison(rest: Seq<char>, idx: int) -> bool {
    (idx + 1 < rest.len() && rest[idx + 1] == '=') || (0 < idx && rest[idx - 1] == '!')
}

/// The download link behind what follows a `window.location` marker: the
/// first of `=`, `;` and `(` must be an assigning `=` (a comparison such as
/// `==` or `!=` is skipped), followed by a quoted URL (with `\/` unescaped)
/// that names `download_file` or ends in `.zip`.
pub open spec fn url_after(rest: Seq<char>) -> Option<Seq<char>> {
    let idx = first_stop(rest, 0);
    if idx >= rest.len() || rest[idx] != '=' || is_comparison(rest, idx) {
        None
    } else {
        match quoted_from(rest.skip(idx + 1), 0) {
            Some(u) => {
                let url = replace_all(u, "\\/"@, "/"@);
                if contains_text(url, "download_file"@) || ends_with(url, ".zip"@) {
                    Some(url)
                } else {
                    None
                }
            },
            None => None,
        }
    }
}

pub open spec fn is_stop(c: char) -> bool {
    c == '=' || c == ';' || c == '('
}

/// Index of the first `=`, `;` or `(` of `s` from `i` on, or the length.
pub open spec fn first_stop(s: Seq<char>, i: int) -> int
    decreases s.len() - i,
{
    if i < 0 || i >= s.len() {
        s.len() as int
    } else if is_stop(s[i]) {
        i
    } else {
        first_stop(s, i + 1)
    }
}

/// The first download link assigned to `window.location` on the page, from
/// character `from` on.
pub open spec fn download_url_from(html: Seq<char>, from: int) -> Option<Seq<char>>
    decreases html.len() - from,
{
    if from < 0 {
        None
    } else {
        match find_from(html, "window.location"@, from) {
            None => None,
            Some(pos) => {
                proof {
                    lemma_find_from_bounds(html, "window.location"@, from);
                    reveal_strlit("window.location");
                }
                let after = pos + "window.location"@.len();
                match url_after(html.skip(after)) {
                    Some(u) => Some(u),
                    None => download_url_from(html, after),
                }
            },
        }
    }
}

fn first_stop_at(s: &[char], from: usize) -> (r: usize)
    requires
        from <= s@.len(),
    ensures
        r == first_stop(s@, from as int),
        r <= s@.len(),
{
    let mut i = from;
    while i < s.len() && !(s[i] == '=' || s[i] == ';' || s[i] == '(')
        invariant
            from <= i <= s@.len(),
            first_stop(s@, i as int) == first_stop(s@, from as int),
        decreases s@.len() - i,
    {
        i = i + 1;
    }
    i
}

fn url_after_marker(rest: &[char]) -> (r: Option<Vec<char>>)
    ensures
        match r {
            Some(u) => url_after(rest@) == Some(u@),
            None => url_after(rest@) is None,
        },
{
    let idx = first_stop_at(rest, 0);
    if idx >= rest.len() || rest[idx] != '=' {
        return None;
    }
    if (idx + 1 < rest.len() && rest[idx + 1] == '=') || (0 < idx && rest[idx - 1] == '!') {
        return None;
    }
    let tail = sub_chars(rest, idx + 1, rest.len());
    assert(tail@ =~= rest@.skip(idx + 1));
    match quoted_in(tail.as_slice(), 0) {
        Some(u) => {
            let pat = chars_of("\\/");
            proof {
                reveal_strlit("\\/");
            }
            let slash = chars_of("/");
            let url = replace_text(u.as_slice(), pat.as_slice(), slash.as_slice());
            let marker = chars_of("download_file");
            let zip = chars_of(".zip");
            let has = find_text(url.as_slice(), marker.as_slice(), 0);
            if has.is_some() || chars_ends_with(url.as_slice(), zip.as_slice()) {
                Some(url)
            } else {
                None
            }
        },
        None => None,
    }
}

/// Finds the real download link on the download page: the
/// `window.location = "<url>"` assignment that points at a zip or at a file
/// under `download_file/`; calls and comparisons such as
/// `window.location == "<url>"` are skipped.
pub fn extract_download_url(html: &str) -> (r: Option<String>)
    ensures
        match r {
            Some(u) => download_url_from(html@, 0) == Some(u@),
            None => download_url_from(html@, 0) is None,
        },
{
    let h = chars_of(html);
    let marker = chars_of("window.location");
    let mut from: usize = 0;
    loop
        invariant
            h@ == html@,
            marker@ == "window.location"@,
            from <= h@.len(),
            download_url_from(h@, from as int) == download_url_from(h@, 0),
        decreases h@.len() - from,
    {
        let found = find_text(h.as_slice(), marker.as_slice(), from);
        proof {
            lemma_find_from_bounds(h@, marker@, from as int);
            reveal_strlit("window.location");
        }
        match found {
            None => {
                return None;
            },
            Some(pos) => {
                assert(pos + marker.len() <= h.len());
                let after = pos + marker.len();
                let rest = sub_chars(h.as_slice(), after, h.len());
                assert(rest@ =~= h@.skip(after as int));
                match url_after_marker(rest.as_slice()) {
                    Some(u) => {
                        return Some(string_from_chars(u.as_slice()));
                    },
                    None => {
                        from = after;
                    },
                }
            },
        }
    }
}

// ---------------------------------------------------------------- download headers

pub open spec fn hex_value(b: u8) -> Option<u8> {
    if 48 <= b <= 57 {
        Some((b - 48) as u8)
    } else if 97 <= b <= 102 {
        Some((b - 97 + 10) as u8)
    } else if 65 <= b <= 70 {
        Some((b - 65 + 10) as u8)
    } else {
        None
    }
}

/// The value of an ASCII hex digit.
pub fn hex_val(b: u8) -> (r: Option<u8>)
    ensures
        r == hex_value(b),
{
    if 48 <= b && b <= 57 {
        Some(b - 48)
    } else if 97 <= b && b <= 102 {
        Some(b - 97 + 10)
    } else if 65 <= b && b <= 70 {
        Some(b - 65 + 10)
    } else {
        None
    }
}

/// Bytes with each `%` followed by two hex digits replaced by the byte they
/// spell.
pub open spec fn percent_decoded(b: Seq<u8>) -> Seq<u8>
    decreases b.len(),
{
    if b.len() == 0 {
        Seq::empty()
    } else if b[0] == 37 && 2 < b.len() && hex_value(b[1]) is Some && hex_value(b[2]) is Some {
        seq![(hex_value(b[1])->Some_0 * 16 + hex_value(b[2])->Some_0) as u8] + percent_decoded(
            b.skip(3),
        )
    } else {
        seq![b[0]] + percent_decoded(b.drop_first())
    }
}

/// Percent-decodes the UTF-8 bytes of `s`; invalid UTF-8 in the result is
/// replaced as `from_utf8_lossy` does, and valid UTF-8 is the text it
/// encodes.
pub fn percent_decode(s: &str) -> (r: String)
    ensures
        r@ == utf8_lossy(percent_decoded(encode_utf8(s@))),
        valid_utf8(percent_decoded(encode_utf8(s@))) ==> r@ == decode_utf8(percent_decoded(encode_utf8(s@))),
{
    let bytes = s.as_bytes();
    let ghost b = bytes@;
    let mut out: Vec<u8> = Vec::new();
    let mut i: usize = 0;
    assert(b.skip(0) =~= b);
    while i < bytes.len()
        invariant
            b == bytes@,
            i <= b.len(),
            out@ + percent_decoded(b.skip(i as int)) == percent_decoded(b),
        decreases b.len() - i,
    {
        let ghost t = b.skip(i as int);
        let ghost before = out@;
        if bytes[i] == 37 && bytes.len() - i > 2 {
            let h = hex_val(bytes[i + 1]);
            let l = hex_val(bytes[i + 2]);
            match (h, l) {
                (Some(h), Some(l)) => {
                    assert(t[1] == bytes@[i + 1] && t[2] == bytes@[i + 2]);
                    out.push(h * 16 + l);
                    assert(t.skip(3) =~= b.skip(i + 3));
                    assert(before + (seq![(h * 16 + l) as u8] + percent_decoded(t.skip(3))) =~= out@
                        + percent_decoded(b.skip(i + 3)));
                    i = i + 3;
                    continue;
                },
                _ => {},
            }
        }
        out.push(bytes[i]);
        assert(t.drop_first() =~= b.skip(i + 1));
        assert(before + (seq![t[0]] + percent_decoded(t.drop_first())) =~= out@ + percent_decoded(
            b.skip(i + 1),
        ));
        i = i + 1;
    }
    assert(b.skip(b.len() as int) =~= Seq::<u8>::empty());
    assert(out@ + Seq::<u8>::empty() =~= out@);
    from_utf8_lossy(out.as_slice())
}

/// The text of a header parameter whose value starts at `start`: up to the
/// next `;`, trimmed, without surrounding double quotes.
pub open spec fn param_value(cd: Seq<char>, start: int) -> Seq<char> {
    let v = cd.skip(start);
    trim_char(trim(v.take(first_index(v, ';'))), '"')
}

/// The last index where `p` occurs in `s`.
pub open spec fn last_occurrence(s: Seq<char>, p: Seq<char>) -> Option<int>
    decreases s.len(),
{
    if s.len() < p.len() {
        None
    } else if s.subrange(s.len() - p.len(), s.len() as int) == p {
        Some(s.len() - p.len())
    } else if s.len() == 0 {
        None
    } else {
        last_occurrence(s.drop_last(), p)
    }
}

/// What follows the last `p` in `s`, or all of `s`.
pub open spec fn after_last(s: Seq<char>, p: Seq<char>) -> Seq<char> {
    match last_occurrence(s, p) {
        Some(i) => s.skip(i + p.len()),
        None => s,
    }
}

/// The file name a Content-Disposition header gives: the RFC 5987
/// `filename*=` form (percent-decoded, after its `charset'lang'`) where it
/// gives a non-empty name, else the plain `filename=` form where non-empty.
pub open spec fn disposition_filename(cd: Seq<char>) -> Option<Seq<char>> {
    let lower = ascii_lower(cd);
    let star = match find_from(lower, "filename*="@, 0) {
        Some(pos) => {
            let val = param_value(cd, pos + 10);
            let decoded = utf8_lossy(percent_decoded(encode_utf8(after_last(val, "''"@))));
            if decoded.len() > 0 {
                Some(decoded)
            } else {
                None
            }
        },
        None => None,
    };
    if star is Some {
        star
    } else {
        match find_from(lower, "filename="@, 0) {
            Some(pos) => {
                let val = param_value(cd, pos + 9);
                if val.len() > 0 {
                    Some(val)
                } else {
                    None
                }
            },
            None => None,
        }
    }
}

fn lower_ascii(s: &[char]) -> (r: Vec<char>)
    ensures
        r@ == ascii_lower(s@),
{
    let mut r: Vec<char> = Vec::new();
    let mut i: usize = 0;
    while i < s.len()
        invariant
            i <= s@.len(),
            r@ == ascii_lower(s@.take(i as int)),
        decreases s@.len() - i,
    {
        r.push(lower_ascii_char(s[i]));
        i = i + 1;
        assert(r@ =~= ascii_lower(s@.take(i as int)));
    }
    assert(s@.take(s@.len() as int) =~= s@);
    r
}

fn param_value_at(cd: &[char], start: usize) -> (r: Vec<char>)
    requires
        start <= cd@.len(),
    ensures
        r@ == param_value(cd@, start as int),
{
    let end = crate::text::find_char_from(cd, ';', start);
    let piece = sub_chars(cd, start, end);
    assert(cd@.skip(start as int).take(end - start) =~= piece@);
    let t = trimmed(piece.as_slice());
    trim_char_chars(t.as_slice(), '"')
}

fn last_occurrence_in(s: &[char], p: &[char]) -> (r: Option<usize>)
    ensures
        match r {
            Some(i) => last_occurrence(s@, p@) == Some(i as int),
            None => last_occurrence(s@, p@) is None,
        },
{
    let mut n: usize = s.len();
    assert(s@.take(n as int) =~= s@);
    loop
        invariant
            n <= s@.len(),
            last_occurrence(s@.take(n as int), p@) == last_occurrence(s@, p@),
        decreases n,
    {
        let ghost t = s@.take(n as int);
        if n < p.len() {
            return None;
        }
        let sub = sub_chars(s, n - p.len(), n);
        assert(t.subrange(t.len() - p@.len(), t.len() as int) =~= sub@);
        if crate::text::chars_eq(sub.as_slice(), p) {
            return Some(n - p.len());
        }
        if n == 0 {
            return None;
        }
        assert(t.drop_last() =~= s@.take(n - 1));
        n = n - 1;
    }
}

/// Reads the file name out of a Content-Disposition header value.
pub fn filename_from_disposition(cd: &str) -> (r: Option<String>)
    ensures
        match r {
            Some(n) => disposition_filename(cd@) == Some(n@),
            None => disposition_filename(cd@) is None,
        },
{
    let c = chars_of(cd);
    let lower = lower_ascii(c.as_slice());
    let star_key = chars_of("filename*=");
    let plain_key = chars_of("filename=");
    let found = find_text(lower.as_slice(), star_key.as_slice(), 0);
    proof {
        lemma_find_from_bounds(lower@, star_key@, 0);
        reveal_strlit("filename*=");
        reveal_strlit("filename=");
    }
    assert(lower@.len() == c@.len());
    match found {
        Some(pos) => {
            assert(star_key@.len() == 10);
            assert(pos + 10 <= c.len());
            let val = param_value_at(c.as_slice(), pos + 10);
            let quotes = chars_of("''");
            proof {
                reveal_strlit("''");
                lemma_last_occurrence_bounds(val@, "''"@);
            }
            let encoded = match last_occurrence_in(val.as_slice(), quotes.as_slice()) {
                Some(i) => {
                    assert(i + 2 <= val@.len());
                    assert(i + 2 <= val.len());
                    sub_chars(val.as_slice(), i + 2, val.len())
                },
                None => crate::text::copy_chars(val.as_slice()),
            };
            assert(encoded@ == after_last(val@, "''"@)) by {
                match last_occurrence(val@, "''"@) {
                    Some(i) => {
                        lemma_last_occurrence_bounds(val@, "''"@);
                        assert(val@.skip(i + 2) =~= encoded@);
                    },
                    None => {},
                }
            }
            let e = string_from_chars(encoded.as_slice());
            let decoded = percent_decode(e.as_str());
            if decoded.as_str().unicode_len() > 0 {
                return Some(decoded);
            }
        },
        None => {},
    }
    let found = find_text(lower.as_slice(), plain_key.as_slice(), 0);
    proof {
        lemma_find_from_bounds(lower@, plain_key@, 0);
        reveal_strlit("filename=");
    }
    match found {
        Some(pos) => {
            assert(plain_key@.len() == 9);
            assert(pos + 9 <= c.len());
            let val = param_value_at(c.as_slice(), pos + 9);
            if val.len() > 0 {
                return Some(string_from_chars(val.as_slice()));
            }
            None
        },
        None => None,
    }
}

proof fn lemma_last_occurrence_bounds(s: Seq<char>, p: Seq<char>)
    ensures
        last_occurrence(s, p) matches Some(i) ==> 0 <= i && i + p.len() <= s.len(),
    decreases s.len(),
{
    if s.len() >= p.len() && s.subrange(s.len() - p.len(), s.len() as int) != p && s.len() > 0 {
        lemma_last_occurrence_bounds(s.drop_last(), p);
    }
}

// ---------------------------------------------------------------- saving

pub open spec fn is_path_sep(c: char) -> bool {
    c == '/' || c == '\\'
}

pub open spec fn name_char_ok() -> spec_fn(char) -> bool {
    |c: char| !forbidden_in_name(c)
}

pub open spec fn forbidden_in_name(c: char) -> bool {
    c == '<' || c == '>' || c == ':' || c == '"' || c == '|' || c == '?' || c == '*' || c == '\0'
}

/// What follows the last `/` or `\` of `s`.
pub open spec fn last_component(s: Seq<char>) -> Seq<char>
    decreases s.len(),
{
    if s.len() == 0 {
        s
    } else if is_path_sep(s.last()) {
        Seq::empty()
    } else {
        last_component(s.drop_last()).push(s.last())
    }
}

pub open spec fn dot_or_ws(c: char) -> bool {
    c == '.' || is_ws(c)
}

pub open spec fn strip_start_dw(s: Seq<char>) -> Seq<char>
    decreases s.len(),
{
    if s.len() > 0 && dot_or_ws(s[0]) {
        strip_start_dw(s.drop_first())
    } else {
        s
    }
}

pub open spec fn strip_end_dw(s: Seq<char>) -> Seq<char>
    decreases s.len(),
{
    if s.len() > 0 && dot_or_ws(s.last()) {
        strip_end_dw(s.drop_last())
    } else {
        s
    }
}

/// `s` with dots and white space trimmed off both ends until neither is left
/// at either end.
pub open spec fn trim_dots_ws(s: Seq<char>) -> Seq<char> {
    strip_end_dw(strip_start_dw(s))
}

/// A safe base name for a downloaded file: the last path component of the
/// suggested name, trimmed, without `<>:"|?*` and NUL, and with dots and
/// white space trimmed off both ends until neither is left there;
/// `<file_id>.bin` where nothing is left.
pub open spec fn safe_download_name(name: Seq<char>, file_id: Seq<char>) -> Seq<char> {
    let base = trim(last_component(name));
    let cleaned = base.filter(name_char_ok());
    let result = trim_dots_ws(cleaned);
    if result.len() == 0 {
        file_id + ".bin"@
    } else {
        result
    }
}

/// Whether a name holds no path separator and none of `<>:"|?*` and NUL.
pub open spec fn no_unsafe_chars(s: Seq<char>) -> bool {
    forall|i: int| 0 <= i < s.len() ==> !is_path_sep(#[trigger] s[i]) && !forbidden_in_name(s[i])
}

proof fn lemma_strip_start_dw(s: Seq<char>, a: int)
    requires
        0 <= a <= s.len(),
        forall|i: int| 0 <= i < a ==> dot_or_ws(#[trigger] s[i]),
        a == s.len() || !dot_or_ws(s[a]),
    ensures
        strip_start_dw(s) == s.skip(a),
    decreases a,
{
    if a == 0 {
        assert(s.skip(0) =~= s);
    } else {
        let t = s.drop_first();
        assert forall|i: int| 0 <= i < a - 1 implies dot_or_ws(#[trigger] t[i]) by {
            assert(t[i] == s[i + 1]);
        }
        if a - 1 < t.len() {
            assert(t[a - 1] == s[a]);
        }
        lemma_strip_start_dw(t, a - 1);
        assert(t.skip(a - 1) =~= s.skip(a));
    }
}

proof fn lemma_strip_end_dw(s: Seq<char>, b: int)
    requires
        0 <= b <= s.len(),
        forall|i: int| b <= i < s.len() ==> dot_or_ws(#[trigger] s[i]),
        b == 0 || !dot_or_ws(s[b - 1]),
    ensures
        strip_end_dw(s) == s.take(b),
    decreases s.len() - b,
{
    if b == s.len() {
        assert(s.take(b) =~= s);
    } else {
        let t = s.drop_last();
        assert forall|i: int| b <= i < t.len() implies dot_or_ws(#[trigger] t[i]) by {
            assert(t[i] == s[i]);
        }
        if b > 0 {
            assert(t[b - 1] == s[b - 1]);
        }
        lemma_strip_end_dw(t, b);
        assert(t.take(b) =~= s.take(b));
    }
}

/// `s` with dots and white space trimmed off both ends.
fn trimmed_dots_ws(s: &[char]) -> (r: Vec<char>)
    ensures
        r@ == trim_dots_ws(s@),
        r@.len() > 0 ==> !dot_or_ws(r@[0]) && !dot_or_ws(r@.last()),
        forall|i: int| 0 <= i < r@.len() ==> s@.contains(#[trigger] r@[i]),
{
    let n = s.len();
    let mut a: usize = 0;
    while a < n && (s[a] == '.' || is_whitespace(s[a]))
        invariant
            a <= n,
            n == s@.len(),
            forall|i: int| 0 <= i < a ==> dot_or_ws(#[trigger] s@[i]),
        decreases n - a,
    {
        a = a + 1;
    }
    proof {
        lemma_strip_start_dw(s@, a as int);
    }
    let ghost t = s@.skip(a as int);
    let mut b: usize = n;
    while b > a && (s[b - 1] == '.' || is_whitespace(s[b - 1]))
        invariant
            a <= b <= n,
            n == s@.len(),
            forall|i: int| b <= i < n ==> dot_or_ws(#[trigger] s@[i]),
        decreases b,
    {
        b = b - 1;
    }
    proof {
        assert forall|i: int| b - a <= i < t.len() implies dot_or_ws(#[trigger] t[i]) by {
            assert(t[i] == s@[i + a]);
        }
        if b > a {
            assert(t[b - a - 1] == s@[b - 1]);
        }
        lemma_strip_end_dw(t, b - a);
        assert(t.take(b - a) =~= s@.subrange(a as int, b as int));
    }
    let r = sub_chars(s, a, b);
    proof {
        assert forall|i: int| 0 <= i < r@.len() implies s@.contains(#[trigger] r@[i]) by {
            assert(r@[i] == s@[a + i]);
        }
        if r@.len() > 0 {
            assert(r@[0] == s@[a as int]);
            assert(r@.last() == s@[b - 1]);
        }
    }
    r
}

proof fn lemma_last_component_safe(s: Seq<char>)
    ensures
        forall|i: int| 0 <= i < last_component(s).len() ==> !is_path_sep(#[trigger] last_component(s)[i]),
    decreases s.len(),
{
    if s.len() > 0 && !is_path_sep(s.last()) {
        lemma_last_component_safe(s.drop_last());
        let p = last_component(s.drop_last());
        assert forall|i: int| 0 <= i < last_component(s).len() implies !is_path_sep(
            #[trigger] last_component(s)[i],
        ) by {
            if i < p.len() {
                assert(last_component(s)[i] == p[i]);
            }
        }
    }
}

/// Reduces a suggested file name to a safe base name, falling back to the
/// file id: never empty, never `.` or `..`, and free of path separators and
/// of `<>:"|?*` and NUL where the file id is.
pub fn sanitize_filename(name: Option<String>, file_id: &str) -> (r: String)
    ensures
        r@ == safe_download_name(
            match name {
                Some(n) => n@,
                None => Seq::<char>::empty(),
            },
            file_id@,
        ),
        r@.len() > 0,
        r@ != "."@,
        r@ != ".."@,
        no_unsafe_chars(file_id@) ==> no_unsafe_chars(r@),
{
    let raw = match &name {
        Some(n) => chars_of(n.as_str()),
        None => Vec::new(),
    };
    let mut comp: Vec<char> = Vec::new();
    let mut i: usize = 0;
    while i < raw.len()
        invariant
            i <= raw@.len(),
            comp@ == last_component(raw@.take(i as int)),
        decreases raw@.len() - i,
    {
        assert(raw@.take(i + 1).drop_last() =~= raw@.take(i as int));
        if raw[i] == '/' || raw[i] == '\\' {
            comp = Vec::new();
            assert(comp@ =~= Seq::<char>::empty());
        } else {
            comp.push(raw[i]);
        }
        i = i + 1;
    }
    assert(raw@.take(raw@.len() as int) =~= raw@);
    let base = trimmed(comp.as_slice());
    let mut cleaned: Vec<char> = Vec::new();
    let mut k: usize = 0;
    while k < base.len()
        invariant
            k <= base@.len(),
            cleaned@ == base@.take(k as int).filter(name_char_ok()),
        decreases base@.len() - k,
    {
        let ch = base[k];
        assert(base@.take(k + 1).drop_last() =~= base@.take(k as int));
        assert(base@.take(k + 1).last() == ch);
        proof {
            reveal(Seq::filter);
        }
        assert(base@.take(k + 1).filter(name_char_ok()) == if name_char_ok()(ch) {
            base@.take(k as int).filter(name_char_ok()).push(ch)
        } else {
            base@.take(k as int).filter(name_char_ok())
        });
        if !(ch == '<' || ch == '>' || ch == ':' || ch == '"' || ch == '|' || ch == '?' || ch == '*'
            || ch == '\0') {
            cleaned.push(ch);
        }
        k = k + 1;
    }
    assert(base@.take(base@.len() as int) =~= base@);
    let result = trimmed_dots_ws(cleaned.as_slice());
    proof {
        reveal_strlit(".");
        reveal_strlit("..");
        reveal_strlit(".bin");
    }
    if result.len() == 0 {
        let mut v = chars_of(file_id);
        push_str(&mut v, ".bin");
        proof {
            let r = file_id@ + ".bin"@;
            assert(v@ == r);
            assert(r.last() == 'n');
            if no_unsafe_chars(file_id@) {
                assert forall|q: int| 0 <= q < r.len() implies !is_path_sep(#[trigger] r[q]) && !forbidden_in_name(
                    r[q],
                ) by {
                    if q < file_id@.len() {
                        assert(r[q] == file_id@[q]);
                    } else {
                        assert(r[q] == ".bin"@[q - file_id@.len()]);
                    }
                }
            }
        }
        return string_from_chars(v.as_slice());
    }
    proof {
        let comp_v = last_component(raw@);
        lemma_last_component_safe(raw@);
        let (a1, b1) = crate::song_ini_read_back::lemma_trim_range(comp_v);
        let bv = base@;
        let cv = cleaned@;
        assert forall|q: int| 0 <= q < result@.len() implies !is_path_sep(#[trigger] result@[q])
            && !forbidden_in_name(result@[q]) by {
            let x = result@[q];
            assert(cv.contains(x));
            bv.lemma_filter_contains_rev(name_char_ok(), x);
            let w = choose|w: int| 0 <= w < cv.len() && cv[w] == x;
            bv.lemma_filter_pred(name_char_ok(), w);
            let u = choose|u: int| 0 <= u < bv.len() && bv[u] == x;
            assert(bv[u] == comp_v[a1 + u]);
        }
        assert(result@.last() != '.');
    }
    string_from_chars(result.as_slice())
}

/// ASCII white space as `u8::is_ascii_whitespace` tests it.
pub open spec fn ascii_ws(b: u8) -> bool {
    b == 32 || b == 9 || b == 10 || b == 12 || b == 13
}

/// Whether a payload looks like an HTML page rather than a file: within its
/// first 512 bytes the first non-blank byte is `<`, and the text there,
/// ASCII-lower-cased, holds `<!doctype`, `<html`, `<head` or `<body`.
pub open spec fn html_like(bytes: Seq<u8>) -> bool {
    let head = bytes.take(if bytes.len() < 512 {
        bytes.len() as int
    } else {
        512
    });
    let first = first_non_blank(head, 0);
    &&& first < head.len()
    &&& head[first] == 60
    &&& {
        let s = ascii_lower(utf8_lossy(head));
        ||| contains_text(s, "<!doctype"@)
        ||| contains_text(s, "<html"@)
        ||| contains_text(s, "<head"@)
        ||| contains_text(s, "<body"@)
    }
}

pub open spec fn first_non_blank(b: Seq<u8>, i: int) -> int
    decreases b.len() - i,
{
    if i < 0 || i >= b.len() {
        b.len() as int
    } else if !ascii_ws(b[i]) {
        i
    } else {
        first_non_blank(b, i + 1)
    }
}

fn has_text(s: &[char], lit: &str) -> (b: bool)
    ensures
        b == contains_text(s@, lit@),
{
    let p = chars_of(lit);
    find_text(s, p.as_slice(), 0).is_some()
}

/// Whether a payload looks like an HTML page (a sign-in wall, say) rather
/// than the file asked for.
pub fn looks_like_html(bytes: &[u8]) -> (b: bool)
    ensures
        b == html_like(bytes@),
{
    let n: usize = if bytes.len() < 512 {
        bytes.len()
    } else {
        512
    };
    let head = crate::stfs::bytes::copy_bytes(bytes, 0, n);
    assert(head@ =~= bytes@.take(n as int));
    let mut i: usize = 0;
    while i < n && (head[i] == 32 || head[i] == 9 || head[i] == 10 || head[i] == 12 || head[i] == 13)
        invariant
            n == head@.len(),
            i <= n,
            first_non_blank(head@, i as int) == first_non_blank(head@, 0),
        decreases n - i,
    {
        i = i + 1;
    }
    if i >= n || head[i] != 60 {
        return false;
    }
    let text = from_utf8_lossy(head.as_slice());
    let c = chars_of(text.as_str());
    let lower = lower_ascii(c.as_slice());
    has_text(lower.as_slice(), "<!doctype") || has_text(lower.as_slice(), "<html") || has_text(
        lower.as_slice(),
        "<head",
    ) || has_text(lower.as_slice(), "<body")
}


// ---------------------------------------------------------------- what a download holds

/// What a downloaded payload is: a zip archive to extract, or a file to
/// save as it is (a CON package, a `.sng` file, ...).
#[derive(Debug, Clone, Copy, PartialEq, Eq, Structural)]
pub enum PayloadKind {
    Zip,
    Raw,
}

pub open spec fn sign_in_error() -> Seq<char> {
    "RhythmVerse returned a web page instead of a file — this download may require signing in."@
}

/// What a payload is: a zip where it opens with `PK`; a web page (likely a
/// sign-in wall) is refused; anything else is a raw file.
pub open spec fn payload_kind_of(b: Seq<u8>) -> Result<PayloadKind, Seq<char>> {
    if b.len() >= 2 && b[0] == 0x50 && b[1] == 0x4B {
        Ok(PayloadKind::Zip)
    } else if html_like(b) {
        Err(sign_in_error())
    } else {
        Ok(PayloadKind::Raw)
    }
}

/// Tells what a downloaded payload is.
pub fn payload_kind(bytes: &[u8]) -> (r: Result<PayloadKind, String>)
    ensures
        match r {
            Ok(k) => payload_kind_of(bytes@) == Ok::<PayloadKind, Seq<char>>(k),
            Err(e) => payload_kind_of(bytes@) == Err::<PayloadKind, Seq<char>>(e@),
        },
{
    if bytes.len() >= 2 && bytes[0] == 0x50 && bytes[1] == 0x4B {
        Ok(PayloadKind::Zip)
    } else if looks_like_html(bytes) {
        Err(String::from_str(
            "RhythmVerse returned a web page instead of a file — this download may require signing in.",
        ))
    } else {
        Ok(PayloadKind::Raw)
    }
}

/// An off-site link to open in the browser: trimmed, and only where it is a
/// web link.
pub open spec fn web_link(u: Seq<char>) -> Result<Seq<char>, Seq<char>> {
    let t = trim(u);
    if starts_with(t, "http://"@) || starts_with(t, "https://"@) {
        Ok(t)
    } else {
        Err("Refusing to open a non-web link"@)
    }
}

/// Checks an off-site link before it is opened.
pub fn external_link(url: &str) -> (r: Result<String, String>)
    ensures
        match r {
            Ok(u) => web_link(url@) == Ok::<Seq<char>, Seq<char>>(u@),
            Err(e) => web_link(url@) == Err::<Seq<char>, Seq<char>>(e@),
        },
{
    let c = chars_of(url);
    let t = trimmed(c.as_slice());
    let http = chars_of("http://");
    let https = chars_of("https://");
    if chars_starts_with(t.as_slice(), http.as_slice()) || chars_starts_with(t.as_slice(), https.as_slice()) {
        Ok(string_from_chars(t.as_slice()))
    } else {
        Err(String::from_str("Refusing to open a non-web link"))
    }
}

/// The file id a song is linked to: trimmed, and not empty.
pub fn link_file_id(file_id: &str) -> (r: Result<String, String>)
    ensures
        match r {
            Ok(f) => trim(file_id@).len() > 0 && f@ == trim(file_id@),
            Err(e) => trim(file_id@).len() == 0 && e@ == "Empty RhythmVerse file id"@,
        },
{
    let c = chars_of(file_id);
    let t = trimmed(c.as_slice());
    if t.len() == 0 {
        Err(String::from_str("Empty RhythmVerse file id"))
    } else {
        Ok(string_from_chars(t.as_slice()))
    }
}


// ---------------------------------------------------------------- extracting a downloaded zip

/// One entry of a zip archive as extraction sees it: the components of its
/// enclosed name (none where the name would leave the destination) and
/// whether it is a folder.
pub struct ZipEntryInfo {
    pub components: Option<Vec<String>>,
    pub is_dir: bool,
}

/// What extraction does with one entry.
pub enum ExtractAction {
    Skip,
    Dir(Vec<String>),
    File(Vec<String>),
}

pub open spec fn strings_view(v: Seq<String>) -> Seq<Seq<char>> {
    v.map_values(|s: String| s@)
}

/// An action as a kind (0 skip, 1 folder, 2 file) and its components.
pub open spec fn action_view(a: ExtractAction) -> (int, Seq<Seq<char>>) {
    match a {
        ExtractAction::Skip => (0, Seq::empty()),
        ExtractAction::Dir(cs) => (1, strings_view(cs@)),
        ExtractAction::File(cs) => (2, strings_view(cs@)),
    }
}

pub open spec fn opt_view(o: Option<String>) -> Option<Seq<char>> {
    match o {
        Some(s) => Some(s@),
        None => None,
    }
}

/// The action for an entry with enclosed components `cs` (if any) and the
/// top-level folder after it: the first component of the first enclosed
/// entry that has one.
pub open spec fn step_of(cs: Option<Seq<Seq<char>>>, is_dir: bool, top: Option<Seq<char>>) -> (
    (int, Seq<Seq<char>>),
    Option<Seq<char>>,
) {
    match cs {
        None => ((0, Seq::empty()), top),
        Some(c) => (
            (if is_dir { 1 } else { 2 }, c),
            if top is None && c.len() > 0 { Some(c[0]) } else { top },
        ),
    }
}

/// Whether no component holds a path separator.
pub open spec fn components_plain(cs: Seq<Seq<char>>) -> bool {
    forall|k: int, j: int| 0 <= k < cs.len() && 0 <= j < cs[k].len() ==> !is_path_sep(#[trigger] cs[k][j])
}

/// What `zip::ZipArchive::new` and `len` make of the archive bytes: the
/// number of entries, or the crate's error text.
pub uninterp spec fn zip_len_of(bytes: Seq<u8>) -> Result<int, Seq<char>>;

/// What reading entry `i` of the archive bytes to its end gives: the
/// decompressed bytes, or the crate's error text.
pub uninterp spec fn zip_data_of(bytes: Seq<u8>, i: int) -> Result<Seq<u8>, Seq<char>>;

/// `zip::ZipArchive::new` over the bytes and `len`; the result is named
/// `zip_len_of`.
#[verifier::external_body]
fn zip_len(bytes: &[u8]) -> (r: Result<usize, String>)
    ensures
        match r {
            Ok(n) => zip_len_of(bytes@) == Ok::<int, Seq<char>>(n as int),
            Err(e) => zip_len_of(bytes@) == Err::<int, Seq<char>>(e@),
        },
{
    zip::ZipArchive::new(std::io::Cursor::new(bytes)).map(|a| a.len()).map_err(|e| e.to_string())
}

/// `zip::ZipArchive::by_index`, `ZipFile::enclosed_name` (split into its
/// components) and `ZipFile::is_dir`. Which names `enclosed_name` refuses
/// depends on the platform (Windows refuses more), so its result is not
/// named here; on every platform each component it keeps holds neither `/`
/// nor `\`. The error is the crate's text.
#[verifier::external_body]
fn zip_entry(bytes: &[u8], i: usize) -> (r: Result<ZipEntryInfo, String>)
    ensures
        match r {
            Ok(info) => match info.components {
                Some(cs) => components_plain(strings_view(cs@)),
                None => true,
            },
            Err(_) => true,
        },
{
    let mut a = zip::ZipArchive::new(std::io::Cursor::new(bytes)).map_err(|e| e.to_string())?;
    let f = a.by_index(i).map_err(|e| e.to_string())?;
    let components = f.enclosed_name().map(
        |p| p.components().map(|c| c.as_os_str().to_string_lossy().into_owned()).collect(),
    );
    Ok(ZipEntryInfo { components, is_dir: f.is_dir() })
}

/// `zip::ZipArchive::by_index` and `Read::read_to_end` on the entry; the
/// result is named `zip_data_of`.
#[verifier::external_body]
fn zip_data(bytes: &[u8], i: usize) -> (r: Result<Vec<u8>, String>)
    ensures
        match r {
            Ok(d) => zip_data_of(bytes@, i as int) == Ok::<Seq<u8>, Seq<char>>(d@),
            Err(e) => zip_data_of(bytes@, i as int) == Err::<Seq<u8>, Seq<char>>(e@),
        },
{
    let mut a = zip::ZipArchive::new(std::io::Cursor::new(bytes)).map_err(|e| e.to_string())?;
    let mut f = a.by_index(i).map_err(|e| e.to_string())?;
    let mut out = Vec::new();
    std::io::Read::read_to_end(&mut f, &mut out).map_err(|e| e.to_string())?;
    Ok(out)
}

fn copy_strings(v: &Vec<String>) -> (r: Vec<String>)
    ensures
        strings_view(r@) == strings_view(v@),
{
    let mut r: Vec<String> = Vec::new();
    let mut i: usize = 0;
    while i < v.len()
        invariant
            i <= v@.len(),
            strings_view(r@) == strings_view(v@.take(i as int)),
        decreases v@.len() - i,
    {
        let c = chars_of(v[i].as_str());
        let x = string_from_chars(c.as_slice());
        let ghost pre = r@;
        r.push(x);
        assert(r@ == pre.push(x));
        assert(x@ == v@[i as int]@);
        assert(v@.take(i + 1) =~= v@.take(i as int).push(v@[i as int]));
        assert(strings_view(pre.push(x)) =~= strings_view(pre).push(x@));
        assert(strings_view(v@.take(i as int).push(v@[i as int])) =~= strings_view(v@.take(i as int)).push(
            v@[i as int]@,
        ));
        assert(strings_view(r@) =~= strings_view(v@.take(i + 1)));
        i = i + 1;
    }
    assert(v@.take(v@.len() as int) =~= v@);
    r
}

/// The number of entries of a downloaded archive, or `Invalid zip: ` and
/// the crate's error.
pub fn zip_entry_count(bytes: &[u8]) -> (r: Result<usize, String>)
    ensures
        match r {
            Ok(n) => zip_len_of(bytes@) == Ok::<int, Seq<char>>(n as int),
            Err(e) => zip_len_of(bytes@) matches Err(t) && e@ == "Invalid zip: "@ + t,
        },
{
    match zip_len(bytes) {
        Ok(n) => Ok(n),
        Err(e) => {
            let mut v = chars_of("Invalid zip: ");
            let c = chars_of(e.as_str());
            extend_chars(&mut v, c.as_slice());
            Err(string_from_chars(v.as_slice()))
        },
    }
}

/// What extraction does with an entry: one without an enclosed name is
/// skipped; else it is a folder or a file at its components. The first
/// enclosed entry with a component names the top-level folder.
pub fn extraction_step(info: &ZipEntryInfo, top: Option<String>) -> (r: (ExtractAction, Option<String>))
    ensures
        (action_view(r.0), opt_view(r.1)) == step_of(
            match info.components {
                Some(cs) => Some(strings_view(cs@)),
                None => None,
            },
            info.is_dir,
            opt_view(top),
        ),
{
    match &info.components {
        None => (ExtractAction::Skip, top),
        Some(cs) => {
            let new_top = match top {
                None => {
                    if cs.len() > 0 {
                        let c = chars_of(cs[0].as_str());
                        Some(string_from_chars(c.as_slice()))
                    } else {
                        None
                    }
                },
                Some(t) => Some(t),
            };
            let parts = copy_strings(cs);
            if info.is_dir {
                (ExtractAction::Dir(parts), new_top)
            } else {
                (ExtractAction::File(parts), new_top)
            }
        },
    }
}

/// Reads entry `i` of a downloaded archive and decides what to do with it
/// (see `extraction_step`); whatever the platform's checks of entry names
/// give, the components acted on hold no path separator. A failure to read
/// the entry gives `Zip read error: ` and the crate's error.
pub fn zip_extract_step(bytes: &[u8], i: usize, top: Option<String>) -> (r: Result<
    (ExtractAction, Option<String>),
    String,
>)
    ensures
        match r {
            Ok((a, t)) => exists|cs: Option<Seq<Seq<char>>>, d: bool|
                (action_view(a), opt_view(t)) == #[trigger] step_of(cs, d, opt_view(top)) && (cs matches Some(c)
                    ==> components_plain(c)),
            Err(e) => exists|x: Seq<char>| e@ == "Zip read error: "@ + x,
        },
{
    match zip_entry(bytes, i) {
        Ok(info) => {
            let r = extraction_step(&info, top);
            let ghost cs = match info.components {
                Some(c) => Some(strings_view(c@)),
                None => None,
            };
            assert((action_view(r.0), opt_view(r.1)) == step_of(cs, info.is_dir, opt_view(top)));
            Ok(r)
        },
        Err(e) => {
            let mut v = chars_of("Zip read error: ");
            let c = chars_of(e.as_str());
            extend_chars(&mut v, c.as_slice());
            Err(string_from_chars(v.as_slice()))
        },
    }
}

/// The bytes of entry `i` of a downloaded archive, or `extract failed: `
/// and the crate's error.
pub fn zip_entry_data(bytes: &[u8], i: usize) -> (r: Result<Vec<u8>, String>)
    ensures
        match r {
            Ok(d) => zip_data_of(bytes@, i as int) == Ok::<Seq<u8>, Seq<char>>(d@),
            Err(e) => zip_data_of(bytes@, i as int) matches Err(t) && e@ == "extract failed: "@ + t,
        },
{
    match zip_data(bytes, i) {
        Ok(d) => Ok(d),
        Err(e) => {
            let mut v = chars_of("extract failed: ");
            let c = chars_of(e.as_str());
            extend_chars(&mut v, c.as_slice());
            Err(string_from_chars(v.as_slice()))
        },
    }
}

} // verus!
