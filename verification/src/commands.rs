//! What the editor's commands compute: display names, file names, field
//! values, duplicate groups and validation tallies, and the records they
//! return. Reading and writing files is left to the caller.
use vstd::prelude::*;
use crate::dta::types::{MetaSpec, SongMetadata, SongSummary, ValidationIssue, ValidationLevel};
use crate::text::{
    chars_of, extend_chars, int_to_dec, i64_to_dec, is_whitespace, is_ws, lowercase,
    str_to_lowercase, string_from_chars, starts_with, chars_starts_with, dec_digits, u64_to_dec,
    hex_digits, u64_to_hex,
};

verus! {

/// An album-art search hit.
pub struct ArtResult {
    pub url: String,
    pub source: String,
    pub thumbnail_url: String,
}

/// What the Cover Art Archive lists for one image of a release.
pub struct CoverImage {
    pub front: Option<bool>,
    pub image: Option<String>,
    pub small: Option<String>,
    pub size_250: Option<String>,
}

pub open spec fn art_view(a: ArtResult) -> (Seq<char>, Seq<char>, Seq<char>) {
    (a.url@, a.source@, a.thumbnail_url@)
}

/// An iTunes hit, from its 100-pixel artwork URL: the full picture is the
/// same URL asking for 600 pixels.
pub fn itunes_result(thumb: &str) -> (r: ArtResult)
    ensures
        art_view(r) == (crate::text::replace_all(thumb@, "100x100bb"@, "600x600bb"@), "iTunes"@, thumb@),
{
    let t = chars_of(thumb);
    let from = chars_of("100x100bb");
    let to = chars_of("600x600bb");
    proof {
        reveal_strlit("100x100bb");
    }
    let full = crate::text::replace_text(t.as_slice(), from.as_slice(), to.as_slice());
    ArtResult {
        url: string_from_chars(full.as_slice()),
        source: String::from_str("iTunes"),
        thumbnail_url: String::from_str(thumb),
    }
}

/// The hit a release gives: its first front image, where that image has a
/// URL; its small (else 250-pixel) thumbnail, else the image itself, as
/// preview.
pub open spec fn cover_hit(images: Seq<CoverImage>) -> Option<(Seq<char>, Seq<char>, Seq<char>)>
    decreases images.len(),
{
    if images.len() == 0 {
        None
    } else if images[0].front != Some(true) {
        cover_hit(images.drop_first())
    } else {
        match images[0].image {
            Some(full) => Some((full@, "MusicBrainz"@, match images[0].small {
                Some(t) => t@,
                None => match images[0].size_250 {
                    Some(t) => t@,
                    None => full@,
                },
            })),
            None => None,
        }
    }
}

fn copy_text(s: &String) -> (r: String)
    ensures
        r@ == s@,
{
    s.clone()
}

/// Picks the hit of one release from its Cover Art Archive images.
pub fn cover_art_result(images: &Vec<CoverImage>) -> (r: Option<ArtResult>)
    ensures
        match r {
            Some(a) => cover_hit(images@) == Some(art_view(a)),
            None => cover_hit(images@) is None,
        },
{
    let mut i: usize = 0;
    assert(images@.skip(0) =~= images@);
    while i < images.len()
        invariant
            i <= images@.len(),
            cover_hit(images@) == cover_hit(images@.skip(i as int)),
        decreases images@.len() - i,
    {
        let img = &images[i];
        assert(images@.skip(i as int)[0] == images@[i as int]);
        let front = match img.front {
            Some(f) => f,
            None => false,
        };
        if front {
            return match &img.image {
                Some(full) => {
                    let thumb = match &img.small {
                        Some(t) => copy_text(t),
                        None => match &img.size_250 {
                            Some(t) => copy_text(t),
                            None => copy_text(full),
                        },
                    };
                    Some(ArtResult { url: copy_text(full), source: String::from_str("MusicBrainz"), thumbnail_url: thumb })
                },
                None => None,
            };
        }
        assert(images@.skip(i as int).drop_first() =~= images@.skip(i + 1));
        i = i + 1;
    }
    None
}

/// A downloaded picture as a `data:` URL, typed PNG where the server's
/// content type mentions `png`, else JPEG.
pub open spec fn downloaded_art(content_type: Seq<char>, b: Seq<u8>) -> Seq<char> {
    "data:"@ + (if crate::text::contains_text(content_type, "png"@) {
        "image/png"@
    } else {
        "image/jpeg"@
    }) + ";base64,"@ + crate::library::base64_std(b)
}

/// Makes a downloaded picture into a `data:` URL.
pub fn downloaded_art_url(content_type: &str, bytes: &[u8]) -> (r: String)
    ensures
        r@ == downloaded_art(content_type@, bytes@),
{
    let ct = chars_of(content_type);
    let png = chars_of("png");
    let mut v = chars_of("data:");
    match crate::text::find_text(ct.as_slice(), png.as_slice(), 0) {
        Some(_) => push_str(&mut v, "image/png"),
        None => push_str(&mut v, "image/jpeg"),
    }
    push_str(&mut v, ";base64,");
    let b = crate::library::base64_of(bytes);
    let c = chars_of(b.as_str());
    extend_chars(&mut v, c.as_slice());
    string_from_chars(v.as_slice())
}

pub struct ScoreFileInfo {
    pub exists: bool,
    pub path: String,
    pub size: u64,
    pub last_modified: String,
}

pub struct ScoreInfo {
    pub stable: ScoreFileInfo,
    pub nightly: ScoreFileInfo,
}

pub struct DuplicateEntry {
    pub path: String,
    pub display_name: String,
    pub description: String,
    pub file_size: u64,
    pub has_drums: bool,
    pub has_guitar: bool,
    pub has_bass: bool,
    pub has_vocals: bool,
    pub has_keys: bool,
}

pub struct DuplicateGroup {
    pub shortname: String,
    pub display_name: String,
    pub entries: Vec<DuplicateEntry>,
}

pub struct BatchDecryptResult {
    pub total: usize,
    pub decrypted: usize,
    pub already_decrypted: usize,
    pub no_mogg: usize,
    pub errors: Vec<String>,
}

pub struct RenamePreview {
    pub path: String,
    pub current_name: String,
    pub new_name: String,
    /// "rename", "skip_same" or "skip_no_metadata".
    pub status: String,
}

pub struct RenameRequest {
    pub old_path: String,
    pub new_path: String,
}

pub struct RenameResult {
    pub old_path: String,
    pub new_path: String,
    pub success: bool,
    pub error: String,
}

pub struct SongFieldPreview {
    pub path: String,
    pub filename: String,
    pub current_value: String,
    pub metadata: SongMetadata,
}

pub struct OrganizePreview {
    pub path: String,
    pub filename: String,
    pub artist: String,
    pub album: String,
    pub target_folder: String,
    pub target_path: String,
    /// "move", "skip_same" or "skip_no_metadata".
    pub status: String,
}

pub struct OrganizeRequest {
    pub old_path: String,
    pub new_path: String,
}

pub struct SongValidationResult {
    pub path: String,
    pub display_name: String,
    pub issues: Vec<ValidationIssue>,
}

pub struct BatchValidateResult {
    pub total_songs: usize,
    pub songs_with_errors: usize,
    pub songs_with_warnings: usize,
    pub songs_clean: usize,
    pub parse_failures: usize,
    pub results: Vec<SongValidationResult>,
}

/// A remembered scan result of one file, keyed by its modification time and
/// size; `None` for a file known not to be a song.
pub struct CacheRow {
    pub mtime: i64,
    pub size: i64,
    pub summary: Option<SongSummary>,
}

// ---------------------------------------------------------------- score names

pub open spec fn instrument_label(id: i64) -> Seq<char> {
    if id == 0 {
        "Guitar"@
    } else if id == 1 {
        "Bass"@
    } else if id == 2 {
        "Rhythm"@
    } else if id == 3 {
        "Co-op Guitar"@
    } else if id == 4 {
        "Keys"@
    } else if id == 10 {
        "Guitar (6-fret)"@
    } else if id == 11 {
        "Bass (6-fret)"@
    } else if id == 12 {
        "Rhythm (6-fret)"@
    } else if id == 13 {
        "Co-op Guitar (6-fret)"@
    } else if id == 20 {
        "Drums"@
    } else if id == 21 {
        "Pro Drums"@
    } else if id == 22 {
        "5-Lane Drums"@
    } else if id == 23 {
        "Elite Drums"@
    } else if id == 30 {
        "Pro Guitar (17)"@
    } else if id == 31 {
        "Pro Guitar (22)"@
    } else if id == 32 {
        "Pro Bass (17)"@
    } else if id == 33 {
        "Pro Bass (22)"@
    } else if id == 34 {
        "Pro Keys"@
    } else if id == 40 {
        "Vocals"@
    } else if id == 41 {
        "Harmony"@
    } else if id == 255 {
        "Band"@
    } else {
        "Unknown"@
    }
}

/// The name of a YARG instrument id (ids are spaced in tens by family).
pub fn instrument_name(id: i64) -> (s: &'static str)
    ensures
        s@ == instrument_label(id),
{
    if id == 0 {
        "Guitar"
    } else if id == 1 {
        "Bass"
    } else if id == 2 {
        "Rhythm"
    } else if id == 3 {
        "Co-op Guitar"
    } else if id == 4 {
        "Keys"
    } else if id == 10 {
        "Guitar (6-fret)"
    } else if id == 11 {
        "Bass (6-fret)"
    } else if id == 12 {
        "Rhythm (6-fret)"
    } else if id == 13 {
        "Co-op Guitar (6-fret)"
    } else if id == 20 {
        "Drums"
    } else if id == 21 {
        "Pro Drums"
    } else if id == 22 {
        "5-Lane Drums"
    } else if id == 23 {
        "Elite Drums"
    } else if id == 30 {
        "Pro Guitar (17)"
    } else if id == 31 {
        "Pro Guitar (22)"
    } else if id == 32 {
        "Pro Bass (17)"
    } else if id == 33 {
        "Pro Bass (22)"
    } else if id == 34 {
        "Pro Keys"
    } else if id == 40 {
        "Vocals"
    } else if id == 41 {
        "Harmony"
    } else if id == 255 {
        "Band"
    } else {
        "Unknown"
    }
}

pub open spec fn difficulty_label(id: i64) -> Seq<char> {
    if id == 0 {
        "Beginner"@
    } else if id == 1 {
        "Easy"@
    } else if id == 2 {
        "Medium"@
    } else if id == 3 {
        "Hard"@
    } else if id == 4 {
        "Expert"@
    } else if id == 5 {
        "Expert+"@
    } else {
        "Unknown"@
    }
}

/// The name of a YARG difficulty id (Beginner is 0).
pub fn difficulty_name(id: i64) -> (s: &'static str)
    ensures
        s@ == difficulty_label(id),
{
    if id == 0 {
        "Beginner"
    } else if id == 1 {
        "Easy"
    } else if id == 2 {
        "Medium"
    } else if id == 3 {
        "Hard"
    } else if id == 4 {
        "Expert"
    } else if id == 5 {
        "Expert+"
    } else {
        "Unknown"
    }
}

// ---------------------------------------------------------------- names

/// Whether `char::is_alphanumeric` holds of `c` (Unicode Alphabetic or
/// Numeric).
pub uninterp spec fn alphanumeric(c: char) -> bool;

pub open spec fn ascii_alnum(c: char) -> bool {
    ('0' <= c <= '9') || ('a' <= c <= 'z') || ('A' <= c <= 'Z')
}

/// `char::is_alphanumeric`. Its result is named `alphanumeric`; ASCII
/// letters and digits are alphanumeric and other ASCII characters are not,
/// as the standard library documents.
#[verifier::external_body]
fn is_alphanumeric(c: char) -> (b: bool)
    ensures
        b == alphanumeric(c),
        (c as u32) < 128 ==> (b <==> ascii_alnum(c)),
{
    c.is_alphanumeric()
}

pub open spec fn alnum_p() -> spec_fn(char) -> bool {
    |c: char| alphanumeric(c)
}

/// A title or artist made comparable: lower-cased, letters and digits only.
pub open spec fn title_key(s: Seq<char>) -> Seq<char> {
    lowercase(s).filter(alnum_p())
}

/// Lower-cases `s` and keeps only its letters and digits, so that titles
/// compare across case, spacing and punctuation.
pub fn norm_title(s: &str) -> (r: String)
    ensures
        r@ == title_key(s@),
{
    let l = str_to_lowercase(s);
    let c = chars_of(l.as_str());
    let mut out: Vec<char> = Vec::new();
    let mut i: usize = 0;
    while i < c.len()
        invariant
            i <= c@.len(),
            out@ == c@.take(i as int).filter(alnum_p()),
        decreases c@.len() - i,
    {
        let ch = c[i];
        proof {
            reveal(Seq::filter);
        }
        assert(c@.take(i + 1).drop_last() =~= c@.take(i as int));
        assert(c@.take(i + 1).last() == ch);
        if is_alphanumeric(ch) {
            out.push(ch);
        }
        i = i + 1;
    }
    assert(c@.take(c@.len() as int) =~= c@);
    string_from_chars(out.as_slice())
}

/// The words of `s` (its maximal runs of non-white-space) joined by single
/// spaces, with whether a space is owed before the next word.
pub open spec fn squash(s: Seq<char>) -> (Seq<char>, bool)
    decreases s.len(),
{
    if s.len() == 0 {
        (Seq::empty(), false)
    } else {
        let (out, pending) = squash(s.drop_last());
        let c = s.last();
        if is_ws(c) {
            (out, out.len() > 0)
        } else if pending {
            (out.push(' ').push(c), false)
        } else {
            (out.push(c), false)
        }
    }
}

/// The words of `s` joined by single spaces, as
/// `split_whitespace().collect::<Vec<_>>().join(" ")` gives them.
pub open spec fn words_joined(s: Seq<char>) -> Seq<char> {
    squash(s).0
}

fn join_words(s: &[char]) -> (r: Vec<char>)
    ensures
        r@ == words_joined(s@),
{
    let mut out: Vec<char> = Vec::new();
    let mut pending = false;
    let mut i: usize = 0;
    while i < s.len()
        invariant
            i <= s@.len(),
            (out@, pending) == squash(s@.take(i as int)),
        decreases s@.len() - i,
    {
        let c = s[i];
        assert(s@.take(i + 1).drop_last() =~= s@.take(i as int));
        assert(s@.take(i + 1).last() == c);
        if is_whitespace(c) {
            pending = out.len() > 0;
        } else {
            if pending {
                out.push(' ');
            }
            out.push(c);
            pending = false;
        }
        i = i + 1;
    }
    assert(s@.take(s@.len() as int) =~= s@);
    out
}

/// A display name made comparable: lower-cased, its words joined by single
/// spaces.
pub open spec fn name_key(s: Seq<char>) -> Seq<char> {
    words_joined(lowercase(s))
}

/// Lower-cases `s` and collapses its white space, for grouping songs by
/// name.
pub fn normalize_name(s: &str) -> (r: String)
    ensures
        r@ == name_key(s@),
{
    let l = str_to_lowercase(s);
    let c = chars_of(l.as_str());
    let w = join_words(c.as_slice());
    string_from_chars(w.as_slice())
}

pub open spec fn forbidden_in_path(c: char) -> bool {
    c == '<' || c == '>' || c == ':' || c == '"' || c == '/' || c == '\\' || c == '|' || c == '?'
        || c == '*'
}

pub open spec fn path_char_ok() -> spec_fn(char) -> bool {
    |c: char| !forbidden_in_path(c)
}

/// `s` without trailing dots and spaces.
pub open spec fn strip_trailing_dots(s: Seq<char>) -> Seq<char>
    decreases s.len(),
{
    if s.len() > 0 && (s.last() == '.' || s.last() == ' ') {
        strip_trailing_dots(s.drop_last())
    } else {
        s
    }
}

/// A name made safe as a Windows path component: without `<>:"/\|?*`, its
/// words joined by single spaces, and without trailing dots or spaces.
pub open spec fn safe_component(s: Seq<char>) -> Seq<char> {
    strip_trailing_dots(words_joined(s.filter(path_char_ok())))
}

/// Makes `s` safe as a Windows file or folder name.
pub fn sanitize_filename(s: &str) -> (r: String)
    ensures
        r@ == safe_component(s@),
{
    let c = chars_of(s);
    let mut kept: Vec<char> = Vec::new();
    let mut i: usize = 0;
    while i < c.len()
        invariant
            i <= c@.len(),
            kept@ == c@.take(i as int).filter(path_char_ok()),
        decreases c@.len() - i,
    {
        let ch = c[i];
        proof {
            reveal(Seq::filter);
        }
        assert(c@.take(i + 1).drop_last() =~= c@.take(i as int));
        assert(c@.take(i + 1).last() == ch);
        if !(ch == '<' || ch == '>' || ch == ':' || ch == '"' || ch == '/' || ch == '\\' || ch
            == '|' || ch == '?' || ch == '*') {
            kept.push(ch);
        }
        i = i + 1;
    }
    assert(c@.take(c@.len() as int) =~= c@);
    let w = join_words(kept.as_slice());
    let mut n = w.len();
    assert(w@.take(n as int) =~= w@);
    while n > 0 && (w[n - 1] == '.' || w[n - 1] == ' ')
        invariant
            n <= w@.len(),
            strip_trailing_dots(w@.take(n as int)) == strip_trailing_dots(w@),
        decreases n,
    {
        assert(w@.take(n as int).drop_last() =~= w@.take(n - 1));
        n = n - 1;
    }
    let r = crate::text::sub_chars(w.as_slice(), 0, n);
    assert(w@.take(n as int) =~= r@);
    assert(w@.take(w@.len() as int) =~= w@);
    string_from_chars(r.as_slice())
}

/// Whether `t` is words joined by single spaces: no white space but `' '`,
/// no space at either end, no two spaces in a row.
pub open spec fn single_spaced(t: Seq<char>) -> bool {
    &&& forall|i: int| 0 <= i < t.len() && is_ws(#[trigger] t[i]) ==> t[i] == ' '
    &&& t.len() > 0 ==> t[0] != ' ' && t.last() != ' '
    &&& forall|i: int| 1 <= i < t.len() ==> (#[trigger] t[i] == ' ' ==> t[i - 1] != ' ')
}

proof fn lemma_squash_shape(s: Seq<char>)
    ensures
        single_spaced(squash(s).0),
        squash(s).1 ==> squash(s).0.len() > 0,
        (forall|j: int| 0 <= j < s.len() ==> !forbidden_in_path(#[trigger] s[j])) ==> forall|i: int|
            0 <= i < squash(s).0.len() ==> !forbidden_in_path(#[trigger] squash(s).0[i]),
    decreases s.len(),
{
    if s.len() > 0 {
        let init = s.drop_last();
        lemma_squash_shape(init);
        let (out, pending) = squash(init);
        let c = s.last();
        assert(is_ws(' '));
        assert(forall|j: int| 0 <= j < init.len() ==> init[j] == s[j]);
        if !is_ws(c) {
            let r = squash(s).0;
            if pending {
                assert(r == out.push(' ').push(c));
                assert(r[out.len() as int] == ' ');
                assert(r[out.len() as int + 1] == c);
                assert forall|i: int| 0 <= i < out.len() implies #[trigger] r[i] == out[i] by {}
                assert(out.last() == out[out.len() - 1]);
            } else {
                assert(r == out.push(c));
                assert(r[out.len() as int] == c);
                assert forall|i: int| 0 <= i < out.len() implies #[trigger] r[i] == out[i] by {}
                if out.len() > 0 {
                    assert(out.last() == out[out.len() - 1]);
                }
            }
            assert(c == s[s.len() - 1]);
        }
    }
}

proof fn lemma_squash_prefix(t: Seq<char>, i: int)
    requires
        single_spaced(t),
        0 <= i <= t.len(),
    ensures
        squash(t.take(i)) == (if i > 0 && t[i - 1] == ' ' {
            (t.take(i - 1), true)
        } else {
            (t.take(i), false)
        }),
    decreases i,
{
    assert(is_ws(' '));
    if i > 0 {
        lemma_squash_prefix(t, i - 1);
        assert(t.take(i).drop_last() =~= t.take(i - 1));
        assert(t.take(i).last() == t[i - 1]);
        let c = t[i - 1];
        if is_ws(c) {
            assert(c == ' ');
            assert(i - 1 > 0);
            assert(t[i - 2] != ' ');
        } else if i - 1 > 0 && t[i - 2] == ' ' {
            assert(t.take(i - 1) =~= t.take(i - 2).push(' '));
            assert(t.take(i - 2).push(' ').push(c) =~= t.take(i));
        } else {
            assert(t.take(i - 1).push(c) =~= t.take(i));
        }
    } else {
        assert(t.take(0) =~= Seq::<char>::empty());
    }
}

proof fn lemma_strip_dots_prefix(s: Seq<char>) -> (n: int)
    ensures
        0 <= n <= s.len(),
        strip_trailing_dots(s) == s.take(n),
        n > 0 ==> s[n - 1] != '.' && s[n - 1] != ' ',
    decreases s.len(),
{
    if s.len() > 0 && (s.last() == '.' || s.last() == ' ') {
        let n = lemma_strip_dots_prefix(s.drop_last());
        assert(s.drop_last().take(n) =~= s.take(n));
        n
    } else {
        assert(s.take(s.len() as int) =~= s);
        if s.len() > 0 {
            assert(s.last() == s[s.len() - 1]);
        }
        s.len() as int
    }
}

proof fn lemma_filter_keeps_all(s: Seq<char>)
    requires
        forall|j: int| 0 <= j < s.len() ==> !forbidden_in_path(#[trigger] s[j]),
    ensures
        s.filter(path_char_ok()) == s,
    decreases s.len(),
{
    reveal(Seq::filter);
    if s.len() > 0 {
        assert forall|j: int| 0 <= j < s.drop_last().len() implies !forbidden_in_path(#[trigger] s.drop_last()[j]) by {
            assert(s.drop_last()[j] == s[j]);
        }
        lemma_filter_keeps_all(s.drop_last());
        assert(s.last() == s[s.len() - 1]);
        assert(s.drop_last().push(s.last()) =~= s);
    }
}

/// A name made safe has none of `<>:"/\|?*`, holds its words joined by
/// single spaces (no other white space, none at either end), does not end
/// with a dot, and stays as it is when made safe again.
pub proof fn lemma_safe_component_stable(s: Seq<char>)
    ensures
        ({
            let r = safe_component(s);
            &&& forall|i: int| 0 <= i < r.len() ==> !forbidden_in_path(#[trigger] r[i])
            &&& single_spaced(r)
            &&& r.len() > 0 ==> r.last() != '.'
            &&& safe_component(r) == r
        }),
{
    let kept = s.filter(path_char_ok());
    assert forall|j: int| 0 <= j < kept.len() implies !forbidden_in_path(#[trigger] kept[j]) by {
        s.lemma_filter_pred(path_char_ok(), j);
    }
    lemma_squash_shape(kept);
    let w = words_joined(kept);
    let n = lemma_strip_dots_prefix(w);
    let r = w.take(n);
    assert(safe_component(s) == r);
    assert forall|i: int| 0 <= i < r.len() implies #[trigger] r[i] == w[i] by {}
    assert(single_spaced(r)) by {
        if r.len() > 0 {
            assert(r.last() == w[n - 1]);
        }
    }
    lemma_filter_keeps_all(r);
    lemma_squash_prefix(r, r.len() as int);
    assert(r.take(r.len() as int) =~= r);
    if r.len() > 0 {
        assert(r.last() == r[r.len() - 1]);
    }
    assert(words_joined(r) == r);
    let n2 = lemma_strip_dots_prefix(r);
    if n2 < r.len() {
        assert(strip_trailing_dots(r) == r);
    }
}

fn push_str(v: &mut Vec<char>, lit: &str)
    ensures
        final(v)@ == old(v)@ + lit@,
{
    let c = chars_of(lit);
    extend_chars(v, c.as_slice());
}

/// The Windows extended-length form (`\\?\` prefix, `/` made `\`) of a path
/// on Windows, where it has no such prefix yet.
pub open spec fn long_path(path: Seq<char>, on_windows: bool) -> Seq<char> {
    if on_windows && !starts_with(path, "\\\\?\\"@) {
        "\\\\?\\"@ + path.map_values(|c: char| if c == '/' { '\\' } else { c })
    } else {
        path
    }
}

/// Converts a path to the Windows extended-length form (`\\?\`), which lifts
/// the MAX_PATH limit; elsewhere, or where it has the prefix, the path is
/// returned as it is. `on_windows` tells which platform the path is for.
pub fn to_win_long_path(path: &str, on_windows: bool) -> (r: String)
    ensures
        r@ == long_path(path@, on_windows),
{
    let c = chars_of(path);
    let prefix = chars_of("\\\\?\\");
    if on_windows && !chars_starts_with(c.as_slice(), prefix.as_slice()) {
        let mut v = chars_of("\\\\?\\");
        let mut i: usize = 0;
        let ghost start = v@;
        while i < c.len()
            invariant
                i <= c@.len(),
                v@ == start + c@.take(i as int).map_values(
                    |ch: char|
                        if ch == '/' {
                            '\\'
                        } else {
                            ch
                        },
                ),
            decreases c@.len() - i,
        {
            let ch = c[i];
            v.push(
                if ch == '/' {
                    '\\'
                } else {
                    ch
                },
            );
            i = i + 1;
            assert(v@ =~= start + c@.take(i as int).map_values(
                |ch: char|
                    if ch == '/' {
                        '\\'
                    } else {
                        ch
                    },
            ));
        }
        assert(c@.take(c@.len() as int) =~= c@);
        return string_from_chars(v.as_slice());
    }
    string_from_chars(c.as_slice())
}

pub open spec fn copy_name(stem: Seq<char>, counter: u64) -> Seq<char> {
    stem + " ("@ + dec_digits(counter as nat) + ")"@
}

/// The name tried for the `counter`-th copy of `stem` when the target is
/// taken: `stem (counter)`.
pub fn collision_name(stem: &str, counter: u64) -> (r: String)
    ensures
        r@ == copy_name(stem@, counter),
{
    let mut v = chars_of(stem);
    push_str(&mut v, " (");
    let d = u64_to_dec(counter);
    extend_chars(&mut v, d.as_slice());
    push_str(&mut v, ")");
    string_from_chars(v.as_slice())
}

// ---------------------------------------------------------------- metadata fields

pub open spec fn opt_number(v: Option<i32>) -> Seq<char> {
    match v {
        Some(n) => int_to_dec(n as int),
        None => Seq::empty(),
    }
}

/// The value of the metadata field named `field` as the batch editor shows
/// it; empty for a field it does not edit.
pub open spec fn field_text(m: MetaSpec, field: Seq<char>) -> Seq<char> {
    if field == "author"@ {
        m.author
    } else if field == "genre"@ {
        m.genre
    } else if field == "sub_genre"@ {
        m.sub_genre
    } else if field == "vocal_gender"@ {
        m.vocal_gender
    } else if field == "game_origin"@ {
        m.game_origin
    } else if field == "rating"@ {
        opt_number(m.rating)
    } else if field == "year_released"@ {
        opt_number(m.year_released)
    } else {
        Seq::empty()
    }
}

fn number_text(v: Option<i32>) -> (s: String)
    ensures
        s@ == opt_number(v),
{
    match v {
        Some(n) => {
            let d = i64_to_dec(n as i64);
            string_from_chars(d.as_slice())
        },
        None => String::new(),
    }
}

/// The current value of one metadata field, for the batch editor.
pub fn field_value(meta: &SongMetadata, field: &str) -> (s: String)
    ensures
        s@ == field_text(meta@, field@),
{
    let f = chars_of(field);
    let fs = f.as_slice();
    if crate::text::chars_eq_str(fs, "author") {
        meta.author.clone()
    } else if crate::text::chars_eq_str(fs, "genre") {
        meta.genre.clone()
    } else if crate::text::chars_eq_str(fs, "sub_genre") {
        meta.sub_genre.clone()
    } else if crate::text::chars_eq_str(fs, "vocal_gender") {
        meta.vocal_gender.clone()
    } else if crate::text::chars_eq_str(fs, "game_origin") {
        meta.game_origin.clone()
    } else if crate::text::chars_eq_str(fs, "rating") {
        number_text(meta.rating)
    } else if crate::text::chars_eq_str(fs, "year_released") {
        number_text(meta.year_released)
    } else {
        String::new()
    }
}

pub open spec fn or_default(s: Seq<char>, d: Seq<char>) -> Seq<char> {
    if s.len() > 0 {
        s
    } else {
        d
    }
}

/// Artist and song name for renaming; `None` where both are empty, and
/// "Unknown Artist" or "Unknown Song" for the one that is.
pub open spec fn artist_name_of(m: MetaSpec) -> Option<(Seq<char>, Seq<char>)> {
    if m.artist.len() == 0 && m.name.len() == 0 {
        None
    } else {
        Some((or_default(m.artist, "Unknown Artist"@), or_default(m.name, "Unknown Song"@)))
    }
}

/// Artist, song name and album for organizing; `None` where all three are
/// empty, and "Unknown ..." for each one that is.
pub open spec fn artist_name_album_of(m: MetaSpec) -> Option<(Seq<char>, Seq<char>, Seq<char>)> {
    if m.artist.len() == 0 && m.name.len() == 0 && m.album_name.len() == 0 {
        None
    } else {
        Some(
            (
                or_default(m.artist, "Unknown Artist"@),
                or_default(m.name, "Unknown Song"@),
                or_default(m.album_name, "Unknown Album"@),
            ),
        )
    }
}

fn text_or(s: &String, d: &str) -> (r: String)
    ensures
        r@ == or_default(s@, d@),
{
    if s.as_str().unicode_len() > 0 {
        s.clone()
    } else {
        String::from_str(d)
    }
}

/// Artist and song name of a song, for renaming its file.
pub fn artist_and_name(meta: &SongMetadata) -> (r: Option<(String, String)>)
    ensures
        match r {
            Some((a, n)) => artist_name_of(meta@) == Some((a@, n@)),
            None => artist_name_of(meta@) is None,
        },
{
    if meta.artist.as_str().unicode_len() == 0 && meta.name.as_str().unicode_len() == 0 {
        return None;
    }
    Some((text_or(&meta.artist, "Unknown Artist"), text_or(&meta.name, "Unknown Song")))
}

/// Artist, song name and album of a song, for organizing it into folders.
pub fn artist_name_album(meta: &SongMetadata) -> (r: Option<(String, String, String)>)
    ensures
        match r {
            Some((a, n, al)) => artist_name_album_of(meta@) == Some((a@, n@, al@)),
            None => artist_name_album_of(meta@) is None,
        },
{
    if meta.artist.as_str().unicode_len() == 0 && meta.name.as_str().unicode_len() == 0
        && meta.album_name.as_str().unicode_len() == 0 {
        return None;
    }
    Some(
        (
            text_or(&meta.artist, "Unknown Artist"),
            text_or(&meta.name, "Unknown Song"),
            text_or(&meta.album_name, "Unknown Album"),
        ),
    )
}

// ---------------------------------------------------------------- renaming and organizing

/// The package file name a song is renamed to: `artist - name_rb3con`, made
/// safe.
pub open spec fn package_file_name(artist: Seq<char>, name: Seq<char>) -> Seq<char> {
    safe_component(artist + " - "@ + name + "_rb3con"@)
}

pub struct PreviewSpec {
    pub path: Seq<char>,
    pub current_name: Seq<char>,
    pub new_name: Seq<char>,
    pub status: Seq<char>,
}

pub open spec fn preview_view(p: RenamePreview) -> PreviewSpec {
    PreviewSpec { path: p.path@, current_name: p.current_name@, new_name: p.new_name@, status: p.status@ }
}

/// The rename planned for a package: to its artist-and-name file name, or
/// skipped where that is its name already or where it has no metadata.
pub open spec fn rename_plan(path: Seq<char>, current: Seq<char>, an: Option<(Seq<char>, Seq<char>)>) -> PreviewSpec {
    match an {
        Some((a, n)) => {
            let new_name = package_file_name(a, n);
            PreviewSpec {
                path,
                current_name: current,
                new_name,
                status: if new_name == current {
                    "skip_same"@
                } else {
                    "rename"@
                },
            }
        },
        None => PreviewSpec { path, current_name: current, new_name: Seq::empty(), status: "skip_no_metadata"@ },
    }
}

/// Plans the rename of one package file.
pub fn rename_preview(path: String, current_name: String, artist_name: Option<(String, String)>) -> (r:
    RenamePreview)
    ensures
        preview_view(r) == rename_plan(
            path@,
            current_name@,
            match artist_name {
                Some((a, n)) => Some((a@, n@)),
                None => None,
            },
        ),
{
    match artist_name {
        Some((a, n)) => {
            let mut v = chars_of(a.as_str());
            push_str(&mut v, " - ");
            let nc = chars_of(n.as_str());
            extend_chars(&mut v, nc.as_slice());
            push_str(&mut v, "_rb3con");
            let joined = string_from_chars(v.as_slice());
            let new_name = sanitize_filename(joined.as_str());
            let a1 = chars_of(new_name.as_str());
            let same = crate::text::chars_eq_str(a1.as_slice(), current_name.as_str());
            let status = if same {
                String::from_str("skip_same")
            } else {
                String::from_str("rename")
            };
            RenamePreview { path, current_name, new_name, status }
        },
        None => RenamePreview {
            path,
            current_name,
            new_name: String::new(),
            status: String::from_str("skip_no_metadata"),
        },
    }
}

/// The folders a song is organized into: its artist and its album, each
/// made safe, and `artist/album`.
pub open spec fn organize_folders_of(artist: Seq<char>, album: Seq<char>) -> (Seq<char>, Seq<char>, Seq<char>) {
    let a = safe_component(artist);
    let b = safe_component(album);
    (a, b, a + "/"@ + b)
}

/// The safe artist folder, the safe album folder and `artist/album` of a song.
pub fn organize_folders(artist: &str, album: &str) -> (r: (String, String, String))
    ensures
        (r.0@, r.1@, r.2@) == organize_folders_of(artist@, album@),
{
    let a = sanitize_filename(artist);
    let b = sanitize_filename(album);
    let mut v = chars_of(a.as_str());
    push_str(&mut v, "/");
    let bc = chars_of(b.as_str());
    extend_chars(&mut v, bc.as_slice());
    (a, b, string_from_chars(v.as_slice()))
}

// ---------------------------------------------------------------- MOGG audio

/// How a MOGG file stands before decrypting.
#[derive(Debug, Clone, Copy, PartialEq, Eq, Structural)]
pub enum MoggState {
    /// Version 0x0A: not encrypted.
    AlreadyDecrypted,
    /// Versions 0x0B to 0x11: encrypted, to be decrypted.
    Encrypted,
}

/// How a decryption of one song went.
#[derive(Debug, Clone, Copy, PartialEq, Eq, Structural)]
pub enum DecryptStatus {
    Decrypted,
    AlreadyDecrypted,
    NoMogg,
}

/// The MOGG version from the file's first four bytes (little-endian).
pub open spec fn mogg_version(b: Seq<u8>) -> int {
    b[0] as int + b[1] as int * 256 + b[2] as int * 65536 + b[3] as int * 16777216
}

/// `n` as `{:02X}` prints it: upper-case hex, at least two digits.
pub open spec fn hex2(n: nat) -> Seq<char> {
    if n < 16 {
        seq!['0'] + hex_digits(n)
    } else {
        hex_digits(n)
    }
}

/// The state of a MOGG file from its first bytes, or the error.
pub open spec fn mogg_state_of(b: Seq<u8>) -> Result<MoggState, Seq<char>> {
    if b.len() < 4 {
        Err("MOGG file too small"@)
    } else {
        let v = mogg_version(b);
        if v == 0x0A {
            Ok(MoggState::AlreadyDecrypted)
        } else if v < 0x0B || v > 0x11 {
            Err("Unsupported MOGG version: 0x"@ + hex2(v as nat))
        } else {
            Ok(MoggState::Encrypted)
        }
    }
}

/// Reads the version of a MOGG file from its first bytes.
pub fn mogg_state(head: &[u8]) -> (r: Result<MoggState, String>)
    ensures
        match r {
            Ok(s) => mogg_state_of(head@) == Ok::<MoggState, Seq<char>>(s),
            Err(e) => mogg_state_of(head@) == Err::<MoggState, Seq<char>>(e@),
        },
{
    if head.len() < 4 {
        return Err(String::from_str("MOGG file too small"));
    }
    let v: u32 = head[0] as u32 + head[1] as u32 * 256 + head[2] as u32 * 65536 + head[3] as u32
        * 16777216;
    if v == 0x0A {
        Ok(MoggState::AlreadyDecrypted)
    } else if v < 0x0B || v > 0x11 {
        let mut s = chars_of("Unsupported MOGG version: 0x");
        if v < 16 {
            s.push('0');
        }
        let h = u64_to_hex(v as u64);
        extend_chars(&mut s, h.as_slice());
        proof {
            if v < 16 {
                assert(s@ =~= "Unsupported MOGG version: 0x"@ + hex2(v as nat));
            }
        }
        Err(string_from_chars(s.as_slice()))
    } else {
        Ok(MoggState::Encrypted)
    }
}

/// The state of the MOGG file inside a package, from the package bytes and
/// the offsets of the MOGG's blocks: its version is read from the start of
/// its first block.
pub open spec fn packed_mogg_state_of(data: Seq<u8>, offsets: Seq<u64>) -> Result<MoggState, Seq<char>> {
    if offsets.len() == 0 {
        Err("MOGG file has no blocks"@)
    } else if offsets[0] + 4 > data.len() {
        Err("MOGG data offset out of bounds"@)
    } else {
        mogg_state_of(data.subrange(offsets[0] as int, offsets[0] + 4))
    }
}

/// Reads the version of the MOGG file inside a package.
pub fn packed_mogg_state(data: &[u8], offsets: &[u64]) -> (r: Result<MoggState, String>)
    ensures
        match r {
            Ok(s) => packed_mogg_state_of(data@, offsets@) == Ok::<MoggState, Seq<char>>(s),
            Err(e) => packed_mogg_state_of(data@, offsets@) == Err::<MoggState, Seq<char>>(e@),
        },
{
    if offsets.len() == 0 {
        return Err(String::from_str("MOGG file has no blocks"));
    }
    let first = offsets[0];
    if first > data.len() as u64 || data.len() as u64 - first < 4 {
        return Err(String::from_str("MOGG data offset out of bounds"));
    }
    let f = first as usize;
    let head = crate::stfs::bytes::copy_bytes(data, f, f + 4);
    assert(head@ =~= data@.subrange(first as int, first + 4));
    mogg_state(head.as_slice())
}

pub open spec fn decrypt_counts(outcomes: Seq<Result<DecryptStatus, Seq<char>>>, s: DecryptStatus) -> int
    decreases outcomes.len(),
{
    if outcomes.len() == 0 {
        0
    } else {
        decrypt_counts(outcomes.drop_last(), s) + if outcomes.last() == Ok::<DecryptStatus, Seq<char>>(s) {
            1int
        } else {
            0
        }
    }
}

/// The error lines of a batch: `file: error` for each song that failed.
pub open spec fn decrypt_errors(names: Seq<Seq<char>>, outcomes: Seq<Result<DecryptStatus, Seq<char>>>) -> Seq<
    Seq<char>,
>
    decreases outcomes.len(),
{
    if outcomes.len() == 0 || names.len() != outcomes.len() {
        Seq::empty()
    } else {
        let prev = decrypt_errors(names.drop_last(), outcomes.drop_last());
        match outcomes.last() {
            Err(e) => prev.push(names.last() + ": "@ + e),
            Ok(_) => prev,
        }
    }
}

pub open spec fn outcome_text(o: Result<DecryptStatus, String>) -> Result<DecryptStatus, Seq<char>> {
    match o {
        Ok(s) => Ok(s),
        Err(e) => Err(e@),
    }
}

/// Tallies a batch of decryptions, one outcome per song with its file name.
pub fn tally_decrypts(names: &Vec<String>, outcomes: &Vec<Result<DecryptStatus, String>>) -> (r:
    BatchDecryptResult)
    requires
        names@.len() == outcomes@.len(),
    ensures
        ({
            let os = outcomes@.map_values(|o: Result<DecryptStatus, String>| outcome_text(o));
            &&& r.total == outcomes@.len()
            &&& r.decrypted == decrypt_counts(os, DecryptStatus::Decrypted)
            &&& r.already_decrypted == decrypt_counts(os, DecryptStatus::AlreadyDecrypted)
            &&& r.no_mogg == decrypt_counts(os, DecryptStatus::NoMogg)
            &&& r.errors@.map_values(|e: String| e@) == decrypt_errors(names@.map_values(|n: String| n@), os)
        }),
{
    let ghost os = outcomes@.map_values(|o: Result<DecryptStatus, String>| outcome_text(o));
    let ghost ns = names@.map_values(|n: String| n@);
    let mut decrypted: usize = 0;
    let mut already: usize = 0;
    let mut no_mogg: usize = 0;
    let mut errors: Vec<String> = Vec::new();
    let mut i: usize = 0;
    while i < outcomes.len()
        invariant
            names@.len() == outcomes@.len(),
            os == outcomes@.map_values(|o: Result<DecryptStatus, String>| outcome_text(o)),
            ns == names@.map_values(|n: String| n@),
            i <= outcomes@.len(),
            decrypted == decrypt_counts(os.take(i as int), DecryptStatus::Decrypted),
            already == decrypt_counts(os.take(i as int), DecryptStatus::AlreadyDecrypted),
            no_mogg == decrypt_counts(os.take(i as int), DecryptStatus::NoMogg),
            decrypted + already + no_mogg <= i,
            errors@.map_values(|e: String| e@) == decrypt_errors(ns.take(i as int), os.take(i as int)),
        decreases outcomes@.len() - i,
    {
        assert(os.take(i + 1).drop_last() =~= os.take(i as int));
        assert(ns.take(i + 1).drop_last() =~= ns.take(i as int));
        assert(os.take(i + 1).last() == outcome_text(outcomes@[i as int]));
        assert(ns.take(i + 1).last() == names@[i as int]@);
        let ghost before = errors@.map_values(|e: String| e@);
        match &outcomes[i] {
            Ok(DecryptStatus::Decrypted) => {
                decrypted = decrypted + 1;
            },
            Ok(DecryptStatus::AlreadyDecrypted) => {
                already = already + 1;
            },
            Ok(DecryptStatus::NoMogg) => {
                no_mogg = no_mogg + 1;
            },
            Err(e) => {
                let mut v = chars_of(names[i].as_str());
                push_str(&mut v, ": ");
                let ec = chars_of(e.as_str());
                extend_chars(&mut v, ec.as_slice());
                let line = string_from_chars(v.as_slice());
                errors.push(line);
                assert(errors@.map_values(|e: String| e@) =~= before.push(line@));
            },
        }
        i = i + 1;
    }
    assert(os.take(outcomes@.len() as int) =~= os);
    assert(ns.take(outcomes@.len() as int) =~= ns);
    BatchDecryptResult {
        total: outcomes.len(),
        decrypted,
        already_decrypted: already,
        no_mogg,
        errors,
    }
}

// ---------------------------------------------------------------- duplicates

/// A song found by name: its path, display name, description and file size.
pub struct NameEntry {
    pub path: String,
    pub display_name: String,
    pub description: String,
    pub file_size: u64,
}

/// What a candidate's metadata says: its short name (empty where unknown)
/// and whether it charts drums, guitar, bass, vocals and keys (`None` where
/// its metadata could not be read).
pub struct DtaFacts {
    pub shortname: String,
    pub instruments: Option<(bool, bool, bool, bool, bool)>,
}

/// The indices below `n` whose key is `k`, in order.
pub open spec fn indices_upto(keys: Seq<Seq<char>>, k: Seq<char>, n: int) -> Seq<int>
    decreases n,
{
    if n <= 0 {
        Seq::empty()
    } else {
        let prev = indices_upto(keys, k, n - 1);
        if keys[n - 1] == k {
            prev.push(n - 1)
        } else {
            prev
        }
    }
}

/// The groups of indices that share a key, for the keys that occur at least
/// twice, in the order each key first occurs, starting with index `i`.
pub open spec fn groups_from(keys: Seq<Seq<char>>, i: int) -> Seq<Seq<int>>
    decreases keys.len() - i,
{
    if i < 0 || i >= keys.len() {
        Seq::empty()
    } else {
        let rest = groups_from(keys, i + 1);
        let all = indices_upto(keys, keys[i], keys.len() as int);
        if indices_upto(keys, keys[i], i).len() == 0 && all.len() >= 2 {
            seq![all] + rest
        } else {
            rest
        }
    }
}

pub open spec fn flatten(gs: Seq<Seq<int>>) -> Seq<int>
    decreases gs.len(),
{
    if gs.len() == 0 {
        Seq::empty()
    } else {
        gs[0] + flatten(gs.drop_first())
    }
}

/// The indices of `keys` with key `keys[k]`, and how many come before `upto`.
fn matching_indices(keys: &Vec<Vec<char>>, k: usize) -> (r: (Vec<usize>, usize))
    requires
        k < keys@.len(),
    ensures
        r.0@.map_values(|j: usize| j as int) == indices_upto(
            keys@.map_values(|v: Vec<char>| v@),
            keys@[k as int]@,
            keys@.len() as int,
        ),
        r.1 == indices_upto(keys@.map_values(|v: Vec<char>| v@), keys@[k as int]@, k as int).len(),
{
    let ghost ks = keys@.map_values(|v: Vec<char>| v@);
    let ghost key = keys@[k as int]@;
    let mut out: Vec<usize> = Vec::new();
    let mut before: usize = 0;
    let mut j: usize = 0;
    while j < keys.len()
        invariant
            ks == keys@.map_values(|v: Vec<char>| v@),
            key == keys@[k as int]@,
            k < keys@.len(),
            j <= keys@.len(),
            out@.map_values(|x: usize| x as int) == indices_upto(ks, key, j as int),
            before == if j <= k {
                indices_upto(ks, key, j as int).len()
            } else {
                indices_upto(ks, key, k as int).len()
            },
            out@.len() <= j,
        decreases keys@.len() - j,
    {
        let ghost o = out@.map_values(|x: usize| x as int);
        if crate::text::chars_eq(keys[j].as_slice(), keys[k].as_slice()) {
            out.push(j);
            assert(out@.map_values(|x: usize| x as int) =~= o.push(j as int));
            if j < k {
                before = before + 1;
            }
        }
        j = j + 1;
    }
    (out, before)
}

/// The groups of `keys` (indices sharing a key that occurs at least twice),
/// in the order their keys first occur.
fn key_groups(keys: &Vec<Vec<char>>) -> (r: Vec<Vec<usize>>)
    ensures
        r@.map_values(|g: Vec<usize>| g@.map_values(|j: usize| j as int)) == groups_from(
            keys@.map_values(|v: Vec<char>| v@),
            0,
        ),
        forall|g: int, m: int|
            0 <= g < r@.len() && 0 <= m < r@[g]@.len() ==> #[trigger] r@[g]@[m] < keys@.len(),
{
    let ghost ks = keys@.map_values(|v: Vec<char>| v@);
    let n = keys.len();
    let mut i: usize = n;
    let mut acc: Vec<Vec<usize>> = Vec::new();
    while i > 0
        invariant
            ks == keys@.map_values(|v: Vec<char>| v@),
            n == keys@.len(),
            i <= n,
            acc@.map_values(|g: Vec<usize>| g@.map_values(|j: usize| j as int)) == groups_from(ks, i as int),
            forall|g: int, m: int|
                0 <= g < acc@.len() && 0 <= m < acc@[g]@.len() ==> #[trigger] acc@[g]@[m] < n,
        decreases i,
    {
        i = i - 1;
        let (all, before) = matching_indices(keys, i);
        proof {
            lemma_indices_bound(ks, ks[i as int], n as int);
        }
        assert(forall|m: int| 0 <= m < all@.len() ==> all@[m] < n) by {
            assert forall|m: int| 0 <= m < all@.len() implies all@[m] < n by {
                assert(all@.map_values(|j: usize| j as int)[m] == all@[m] as int);
            }
        }
        if before == 0 && all.len() >= 2 {
            let ghost old_acc = acc@.map_values(|g: Vec<usize>| g@.map_values(|j: usize| j as int));
            let ghost g = all@.map_values(|j: usize| j as int);
            acc.insert(0, all);
            assert(acc@.map_values(|g: Vec<usize>| g@.map_values(|j: usize| j as int)) =~= seq![g]
                + old_acc);
        }
    }
    acc
}

proof fn lemma_indices_bound(keys: Seq<Seq<char>>, k: Seq<char>, n: int)
    ensures
        forall|m: int| 0 <= m < indices_upto(keys, k, n).len() ==> 0 <= #[trigger] indices_upto(keys, k, n)[m] < n,
    decreases n,
{
    if n > 0 {
        lemma_indices_bound(keys, k, n - 1);
        let prev = indices_upto(keys, k, n - 1);
        assert forall|m: int| 0 <= m < indices_upto(keys, k, n).len() implies 0 <= #[trigger] indices_upto(
            keys,
            k,
            n,
        )[m] < n by {
            if m < prev.len() {
                assert(indices_upto(keys, k, n)[m] == prev[m]);
            }
        }
    }
}

pub open spec fn name_keys(entries: Seq<NameEntry>) -> Seq<Seq<char>> {
    entries.map_values(|e: NameEntry| name_key(e.display_name@))
}

pub open spec fn int_indices(v: Seq<usize>) -> Seq<int> {
    v.map_values(|j: usize| j as int)
}

/// The songs that may be duplicates: those whose display names, lower-cased
/// and with white space collapsed, are shared by at least two songs; group
/// by group in the order the names first occur.
pub fn duplicate_candidates(entries: &Vec<NameEntry>) -> (r: Vec<usize>)
    ensures
        int_indices(r@) == flatten(groups_from(name_keys(entries@), 0)),
{
    let mut keys: Vec<Vec<char>> = Vec::new();
    let mut i: usize = 0;
    while i < entries.len()
        invariant
            i <= entries@.len(),
            keys@.len() == i,
            forall|j: int| 0 <= j < i ==> (#[trigger] keys@[j])@ == name_key(entries@[j].display_name@),
        decreases entries@.len() - i,
    {
        let k = normalize_name(entries[i].display_name.as_str());
        keys.push(chars_of(k.as_str()));
        i = i + 1;
    }
    assert(keys@.map_values(|v: Vec<char>| v@) =~= name_keys(entries@));
    let groups = key_groups(&keys);
    let ghost gs = groups@.map_values(|g: Vec<usize>| g@.map_values(|j: usize| j as int));
    let mut out: Vec<usize> = Vec::new();
    let mut g: usize = 0;
    assert(gs.skip(0) =~= gs);
    while g < groups.len()
        invariant
            gs == groups@.map_values(|g: Vec<usize>| g@.map_values(|j: usize| j as int)),
            g <= groups@.len(),
            int_indices(out@) + flatten(gs.skip(g as int)) == flatten(gs),
        decreases groups@.len() - g,
    {
        let ghost before = int_indices(out@);
        let mut m: usize = 0;
        while m < groups[g].len()
            invariant
                g < groups@.len(),
                m <= groups@[g as int]@.len(),
                int_indices(out@) == before + int_indices(groups@[g as int]@.take(m as int)),
            decreases groups@[g as int]@.len() - m,
        {
            let ghost prev = out@;
            let x = groups[g][m];
            out.push(x);
            proof {
                let grp = groups@[g as int]@;
                assert(grp.take(m + 1) =~= grp.take(m as int).push(x));
                assert(int_indices(grp.take(m + 1)) =~= int_indices(grp.take(m as int)).push(x as int));
                assert(int_indices(out@) =~= int_indices(prev).push(x as int));
            }
            m = m + 1;
            assert(int_indices(out@) =~= before + int_indices(groups@[g as int]@.take(m as int)));
        }
        assert(groups@[g as int]@.take(m as int) =~= groups@[g as int]@);
        assert(gs.skip(g as int).drop_first() =~= gs.skip(g + 1));
        assert(gs.skip(g as int)[0] == int_indices(groups@[g as int]@));
        assert(before + (int_indices(groups@[g as int]@) + flatten(gs.skip(g + 1))) =~= int_indices(out@)
            + flatten(gs.skip(g + 1)));
        g = g + 1;
    }
    assert(gs.skip(g as int) =~= Seq::<Seq<int>>::empty());
    assert(int_indices(out@) + Seq::<int>::empty() =~= int_indices(out@));
    out
}

/// The key a folder song is matched by: its name lower-cased, spaces removed.
pub open spec fn folder_key(name: Seq<char>) -> Seq<char> {
    lowercase(name).filter(|c: char| c != ' ')
}

pub open spec fn charted(r: Option<i32>) -> bool {
    match r {
        Some(v) => v > 0,
        None => false,
    }
}

pub open spec fn instruments_of(m: MetaSpec) -> (bool, bool, bool, bool, bool) {
    (charted(m.rank_drum), charted(m.rank_guitar), charted(m.rank_bass), charted(m.rank_vocals), charted(m.rank_keys))
}

fn is_charted(r: Option<i32>) -> (b: bool)
    ensures
        b == charted(r),
{
    match r {
        Some(v) => v > 0,
        None => false,
    }
}

/// Whether the song charts drums, guitar, bass, vocals and keys.
pub fn instrument_flags(meta: &SongMetadata) -> (r: (bool, bool, bool, bool, bool))
    ensures
        r == instruments_of(meta@),
{
    (
        is_charted(meta.rank_drum),
        is_charted(meta.rank_guitar),
        is_charted(meta.rank_bass),
        is_charted(meta.rank_vocals),
        is_charted(meta.rank_keys),
    )
}

pub open spec fn facts_view(f: DtaFacts) -> (Seq<char>, Option<(bool, bool, bool, bool, bool)>) {
    (f.shortname@, f.instruments)
}

pub open spec fn folder_facts_of(m: MetaSpec) -> (Seq<char>, Option<(bool, bool, bool, bool, bool)>) {
    (if m.name.len() > 0 {
        folder_key(m.name)
    } else {
        Seq::empty()
    }, Some(instruments_of(m)))
}

/// What a song folder's `song.ini` says for matching duplicates: its name as
/// key (lower-cased, without spaces) and its instruments.
pub fn folder_facts(meta: &SongMetadata) -> (r: DtaFacts)
    ensures
        facts_view(r) == folder_facts_of(meta@),
{
    let shortname = if meta.name.as_str().unicode_len() > 0 {
        let l = str_to_lowercase(meta.name.as_str());
        let c = chars_of(l.as_str());
        let mut out: Vec<char> = Vec::new();
        let mut i: usize = 0;
        while i < c.len()
            invariant
                i <= c@.len(),
                out@ == c@.take(i as int).filter(|ch: char| ch != ' '),
            decreases c@.len() - i,
        {
            proof {
                reveal(Seq::filter);
            }
            assert(c@.take(i + 1).drop_last() =~= c@.take(i as int));
            assert(c@.take(i + 1).last() == c@[i as int]);
            if c[i] != ' ' {
                out.push(c[i]);
            }
            i = i + 1;
        }
        assert(c@.take(c@.len() as int) =~= c@);
        string_from_chars(out.as_slice())
    } else {
        String::new()
    };
    DtaFacts { shortname, instruments: Some(instrument_flags(meta)) }
}

/// What a package's metadata says for matching duplicates: its short name
/// and its instruments.
pub fn package_facts(meta: &SongMetadata) -> (r: DtaFacts)
    ensures
        facts_view(r) == (meta@.shortname, Some(instruments_of(meta@))),
{
    DtaFacts { shortname: meta.shortname.clone(), instruments: Some(instrument_flags(meta)) }
}


// ------------------------------------------------------- grouping duplicates

/// Whether `a` sorts before `b` as strings do: code point by code point, a
/// proper prefix first.
pub open spec fn lex_lt(a: Seq<char>, b: Seq<char>) -> bool
    decreases a.len(),
{
    if a.len() == 0 {
        b.len() > 0
    } else if b.len() == 0 {
        false
    } else if a[0] != b[0] {
        (a[0] as u32) < (b[0] as u32)
    } else {
        lex_lt(a.drop_first(), b.drop_first())
    }
}

/// Whether `a` sorts before `b`.
pub fn chars_lt(a: &[char], b: &[char]) -> (r: bool)
    ensures
        r == lex_lt(a@, b@),
{
    let mut i: usize = 0;
    assert(a@.skip(0) =~= a@);
    assert(b@.skip(0) =~= b@);
    while i < a.len() && i < b.len()
        invariant
            i <= a@.len(),
            i <= b@.len(),
            lex_lt(a@, b@) == lex_lt(a@.skip(i as int), b@.skip(i as int)),
        decreases a@.len() - i,
    {
        assert(a@.skip(i as int)[0] == a@[i as int]);
        assert(b@.skip(i as int)[0] == b@[i as int]);
        if a[i] != b[i] {
            return (a[i] as u32) < (b[i] as u32);
        }
        assert(a@.skip(i as int).drop_first() =~= a@.skip(i + 1));
        assert(b@.skip(i as int).drop_first() =~= b@.skip(i + 1));
        i = i + 1;
    }
    assert(a@.skip(i as int).len() == a@.len() - i);
    assert(b@.skip(i as int).len() == b@.len() - i);
    i < b.len()
}

/// `n` placed after every index of `sorted` whose key does not sort after
/// the key of `n`.
pub open spec fn insert_by_key(sorted: Seq<int>, n: int, keys: Seq<Seq<char>>) -> Seq<int>
    decreases sorted.len(),
{
    if sorted.len() == 0 || !lex_lt(keys[n], keys[sorted.last()]) {
        sorted.push(n)
    } else {
        insert_by_key(sorted.drop_last(), n, keys).push(sorted.last())
    }
}

/// The indices sorted by their keys, indices with equal keys kept in their
/// order: what a stable sort gives.
pub open spec fn sort_by_key(s: Seq<int>, keys: Seq<Seq<char>>) -> Seq<int>
    decreases s.len(),
{
    if s.len() == 0 {
        Seq::empty()
    } else {
        insert_by_key(sort_by_key(s.drop_last(), keys), s.last(), keys)
    }
}

fn insert_index(out: &mut Vec<usize>, n: usize, keys: &Vec<Vec<char>>)
    requires
        n < keys@.len(),
        forall|j: int| 0 <= j < old(out)@.len() ==> #[trigger] old(out)@[j] < keys@.len(),
    ensures
        int_indices(final(out)@) == insert_by_key(
            int_indices(old(out)@),
            n as int,
            keys@.map_values(|v: Vec<char>| v@),
        ),
        forall|j: int| 0 <= j < final(out)@.len() ==> #[trigger] final(out)@[j] < keys@.len(),
{
    let ghost ks = keys@.map_values(|v: Vec<char>| v@);
    let ghost s = int_indices(out@);
    let mut p: usize = out.len();
    assert(s.take(p as int) =~= s);
    assert(s.skip(p as int) =~= Seq::<int>::empty());
    assert(insert_by_key(s, n as int, ks) + Seq::<int>::empty() =~= insert_by_key(s, n as int, ks));
    while p > 0 && chars_lt(keys[n].as_slice(), keys[out[p - 1]].as_slice())
        invariant
            ks == keys@.map_values(|v: Vec<char>| v@),
            s == int_indices(out@),
            n < keys@.len(),
            p <= out@.len(),
            forall|j: int| 0 <= j < out@.len() ==> #[trigger] out@[j] < keys@.len(),
            insert_by_key(s, n as int, ks) == insert_by_key(s.take(p as int), n as int, ks) + s.skip(p as int),
        decreases p,
    {
        let ghost t = s.take(p as int);
        assert(t.drop_last() =~= s.take(p - 1));
        assert(t.last() == s[p - 1]);
        assert(s[p - 1] == out@[p - 1] as int);
        assert(ks[n as int] == keys@[n as int]@);
        assert(ks[s[p - 1]] == keys@[out@[p - 1] as int]@);
        assert(insert_by_key(t, n as int, ks) == insert_by_key(s.take(p - 1), n as int, ks).push(s[p - 1]));
        assert(insert_by_key(s.take(p - 1), n as int, ks).push(s[p - 1]) + s.skip(p as int)
            =~= insert_by_key(s.take(p - 1), n as int, ks) + s.skip(p - 1));
        p = p - 1;
    }
    proof {
        if p > 0 {
            assert(s.take(p as int).last() == out@[p - 1] as int);
            assert(ks[n as int] == keys@[n as int]@);
            assert(ks[out@[p - 1] as int] == keys@[out@[p - 1] as int]@);
        }
        assert(insert_by_key(s.take(p as int), n as int, ks) == s.take(p as int).push(n as int));
    }
    out.insert(p, n);
    assert(int_indices(out@) =~= s.take(p as int).push(n as int) + s.skip(p as int));
}

proof fn lemma_lex_irreflexive(a: Seq<char>)
    ensures
        !lex_lt(a, a),
    decreases a.len(),
{
    if a.len() > 0 {
        lemma_lex_irreflexive(a.drop_first());
    }
}

proof fn lemma_lex_asymmetric(a: Seq<char>, b: Seq<char>)
    ensures
        lex_lt(a, b) ==> !lex_lt(b, a),
    decreases a.len(),
{
    if a.len() > 0 && b.len() > 0 && a[0] == b[0] {
        lemma_lex_asymmetric(a.drop_first(), b.drop_first());
    }
}

proof fn lemma_lex_transitive(a: Seq<char>, b: Seq<char>, c: Seq<char>)
    ensures
        lex_lt(a, b) && lex_lt(b, c) ==> lex_lt(a, c),
    decreases a.len(),
{
    if a.len() > 0 && b.len() > 0 && c.len() > 0 {
        lemma_lex_transitive(a.drop_first(), b.drop_first(), c.drop_first());
    }
}

proof fn lemma_lex_total(a: Seq<char>, b: Seq<char>)
    ensures
        a != b ==> lex_lt(a, b) || lex_lt(b, a),
    decreases a.len(),
{
    if a.len() > 0 && b.len() > 0 {
        if a[0] == b[0] {
            lemma_lex_total(a.drop_first(), b.drop_first());
            if a.drop_first() == b.drop_first() {
                assert(a =~= seq![a[0]] + a.drop_first());
                assert(b =~= seq![b[0]] + b.drop_first());
            }
        } else {
            vstd::utf8::char_u32_cast(a[0], a[0] as u32);
            vstd::utf8::char_u32_cast(b[0], b[0] as u32);
        }
    } else if a.len() == 0 && b.len() == 0 {
        assert(a =~= b);
    }
}

/// Not sorting before is transitive.
proof fn lemma_lex_not_lt_transitive(a: Seq<char>, b: Seq<char>, c: Seq<char>)
    ensures
        !lex_lt(b, a) && !lex_lt(c, b) ==> !lex_lt(c, a),
{
    lemma_lex_total(a, b);
    lemma_lex_transitive(c, a, b);
}

/// Whether the indices of `s` come in the order of their keys.
pub open spec fn keys_in_order(s: Seq<int>, keys: Seq<Seq<char>>) -> bool {
    forall|i: int, j: int| 0 <= i < j < s.len() ==> !lex_lt(#[trigger] keys[s[j]], #[trigger] keys[s[i]])
}

proof fn lemma_insert_in_order(s: Seq<int>, n: int, keys: Seq<Seq<char>>)
    requires
        keys_in_order(s, keys),
    ensures
        keys_in_order(insert_by_key(s, n, keys), keys),
    decreases s.len(),
{
    let r = insert_by_key(s, n, keys);
    if s.len() == 0 {
    } else if !lex_lt(keys[n], keys[s.last()]) {
        assert forall|i: int, j: int| 0 <= i < j < r.len() implies !lex_lt(#[trigger] keys[r[j]], #[trigger] keys[r[i]]) by {
            if j == s.len() {
                if i < s.len() - 1 {
                    lemma_lex_not_lt_transitive(keys[s[i]], keys[s.last()], keys[n]);
                }
            } else {
                assert(r[i] == s[i] && r[j] == s[j]);
            }
        }
    } else {
        let init = s.drop_last();
        assert(keys_in_order(init, keys)) by {
            assert forall|i: int, j: int| 0 <= i < j < init.len() implies !lex_lt(#[trigger] keys[init[j]], #[trigger] keys[init[i]]) by {
                assert(init[i] == s[i] && init[j] == s[j]);
            }
        }
        lemma_insert_in_order(init, n, keys);
        lemma_insert_len(init, n, keys);
        let m = insert_by_key(init, n, keys);
        assert forall|i: int, j: int| 0 <= i < j < r.len() implies !lex_lt(#[trigger] keys[r[j]], #[trigger] keys[r[i]]) by {
            if j == m.len() {
                assert(r[j] == s.last());
                assert(r[i] == m[i]);
                if m[i] == n {
                    lemma_lex_asymmetric(keys[n], keys[s.last()]);
                } else {
                    assert(m[i] == n || init.contains(m[i]));
                    let k = choose|k: int| 0 <= k < init.len() && init[k] == m[i];
                    assert(s[k] == m[i]);
                    assert(!lex_lt(keys[s[s.len() - 1]], keys[s[k]]));
                }
            } else {
                assert(r[i] == m[i] && r[j] == m[j]);
            }
        }
    }
}

/// A stable sort by key leaves the keys in order.
pub proof fn lemma_sort_in_order(s: Seq<int>, keys: Seq<Seq<char>>)
    ensures
        keys_in_order(sort_by_key(s, keys), keys),
    decreases s.len(),
{
    if s.len() > 0 {
        lemma_sort_in_order(s.drop_last(), keys);
        lemma_insert_in_order(sort_by_key(s.drop_last(), keys), s.last(), keys);
    }
}

proof fn lemma_insert_permutes(sorted: Seq<int>, n: int, keys: Seq<Seq<char>>)
    ensures
        insert_by_key(sorted, n, keys).to_multiset() =~= sorted.to_multiset().insert(n),
    decreases sorted.len(),
{
    broadcast use vstd::seq_lib::group_to_multiset_ensures;
    if sorted.len() > 0 && lex_lt(keys[n], keys[sorted.last()]) {
        let init = sorted.drop_last();
        lemma_insert_permutes(init, n, keys);
        assert(sorted =~= init.push(sorted.last()));
    }
}

/// Sorting by key keeps every item, each as often as it was there.
pub proof fn lemma_sort_permutes(s: Seq<int>, keys: Seq<Seq<char>>)
    ensures
        sort_by_key(s, keys).to_multiset() =~= s.to_multiset(),
    decreases s.len(),
{
    broadcast use vstd::seq_lib::group_to_multiset_ensures;
    if s.len() > 0 {
        let init = s.drop_last();
        lemma_sort_permutes(init, keys);
        lemma_insert_permutes(sort_by_key(init, keys), s.last(), keys);
        assert(s =~= init.push(s.last()));
    } else {
        assert(s.to_multiset() =~= vstd::multiset::Multiset::empty());
        assert(sort_by_key(s, keys).to_multiset() =~= vstd::multiset::Multiset::empty());
    }
}

pub open spec fn iota(n: int) -> Seq<int> {
    Seq::new(n as nat, |i: int| i)
}

/// The positions of `keys` in the order a stable sort by key puts them.
pub fn sorted_order(keys: &Vec<Vec<char>>) -> (r: Vec<usize>)
    ensures
        int_indices(r@) == sort_by_key(iota(keys@.len() as int), keys@.map_values(|v: Vec<char>| v@)),
        r@.len() == keys@.len(),
        forall|j: int| 0 <= j < r@.len() ==> #[trigger] r@[j] < keys@.len(),
{
    let ghost ks = keys@.map_values(|v: Vec<char>| v@);
    let ghost all = iota(keys@.len() as int);
    let mut order: Vec<usize> = Vec::new();
    let mut g: usize = 0;
    while g < keys.len()
        invariant
            ks == keys@.map_values(|v: Vec<char>| v@),
            all == iota(keys@.len() as int),
            g <= keys@.len(),
            int_indices(order@) == sort_by_key(all.take(g as int), ks),
            forall|j: int| 0 <= j < order@.len() ==> #[trigger] order@[j] < keys@.len(),
        decreases keys@.len() - g,
    {
        assert(all.take(g + 1).drop_last() =~= all.take(g as int));
        assert(all.take(g + 1).last() == g as int);
        insert_index(&mut order, g, keys);
        g = g + 1;
    }
    assert(all.take(keys@.len() as int) =~= all);
    proof {
        lemma_sort_len(all, ks);
    }
    order
}

/// The key a candidate is finally grouped by: its short name where known,
/// else its display name made comparable.
pub open spec fn final_key(e: NameEntry, f: DtaFacts) -> Seq<char> {
    if f.shortname@.len() > 0 {
        f.shortname@
    } else {
        name_key(e.display_name@)
    }
}

pub open spec fn candidate_keys(cands: Seq<NameEntry>, facts: Seq<DtaFacts>) -> Seq<Seq<char>> {
    Seq::new(cands.len(), |i: int| final_key(cands[i], facts[i]))
}

/// What a duplicate entry holds: path, display name, description, size and
/// the five instrument flags.
pub open spec fn dup_entry_view(d: DuplicateEntry) -> (Seq<char>, Seq<char>, Seq<char>, u64, (bool, bool, bool, bool, bool)) {
    (d.path@, d.display_name@, d.description@, d.file_size, (d.has_drums, d.has_guitar, d.has_bass, d.has_vocals, d.has_keys))
}

/// The entry a candidate becomes; unknown instruments read as absent.
pub open spec fn entry_of(e: NameEntry, f: DtaFacts) -> (Seq<char>, Seq<char>, Seq<char>, u64, (bool, bool, bool, bool, bool)) {
    (e.path@, e.display_name@, e.description@, e.file_size, match f.instruments {
        Some(t) => t,
        None => (false, false, false, false, false),
    })
}

/// Whether `r` is the group made of the candidates at positions `grp`: named
/// by the key and display name of the first, holding an entry for each.
pub open spec fn group_matches(r: DuplicateGroup, cands: Seq<NameEntry>, facts: Seq<DtaFacts>, grp: Seq<int>) -> bool {
    &&& r.shortname@ == final_key(cands[grp[0]], facts[grp[0]])
    &&& r.display_name@ == cands[grp[0]].display_name@
    &&& r.entries@.len() == grp.len()
    &&& forall|j: int| 0 <= j < grp.len() ==> #[trigger] dup_entry_view(r.entries@[j]) == entry_of(cands[grp[j]], facts[grp[j]])
}

/// The final groups: candidates sharing a key, for keys shared by at least
/// two, in the order the keys first occur.
pub open spec fn final_groups(cands: Seq<NameEntry>, facts: Seq<DtaFacts>) -> Seq<Seq<int>> {
    groups_from(candidate_keys(cands, facts), 0)
}

/// The lower-cased display name of each group's first candidate.
pub open spec fn group_sort_keys(cands: Seq<NameEntry>, gs: Seq<Seq<int>>) -> Seq<Seq<char>> {
    Seq::new(gs.len(), |g: int| lowercase(cands[gs[g][0]].display_name@))
}

/// The order in which the groups are returned.
pub open spec fn group_order(cands: Seq<NameEntry>, facts: Seq<DtaFacts>) -> Seq<int> {
    let gs = final_groups(cands, facts);
    sort_by_key(iota(gs.len() as int), group_sort_keys(cands, gs))
}

proof fn lemma_groups_shape(keys: Seq<Seq<char>>, i: int)
    ensures
        forall|g: int| 0 <= g < groups_from(keys, i).len() ==> #[trigger] groups_from(keys, i)[g].len() >= 2,
    decreases keys.len() - i,
{
    if 0 <= i < keys.len() {
        lemma_groups_shape(keys, i + 1);
        let rest = groups_from(keys, i + 1);
        let all = indices_upto(keys, keys[i], keys.len() as int);
        if indices_upto(keys, keys[i], i).len() == 0 && all.len() >= 2 {
            assert forall|g: int| 0 <= g < groups_from(keys, i).len() implies #[trigger] groups_from(keys, i)[g].len() >= 2 by {
                if g > 0 {
                    assert(groups_from(keys, i)[g] == rest[g - 1]);
                }
            }
        }
    }
}

proof fn lemma_sort_len(s: Seq<int>, keys: Seq<Seq<char>>)
    ensures
        sort_by_key(s, keys).len() == s.len(),
    decreases s.len(),
{
    if s.len() > 0 {
        lemma_sort_len(s.drop_last(), keys);
        lemma_insert_len(sort_by_key(s.drop_last(), keys), s.last(), keys);
    }
}

proof fn lemma_insert_len(s: Seq<int>, n: int, keys: Seq<Seq<char>>)
    ensures
        insert_by_key(s, n, keys).len() == s.len() + 1,
        forall|j: int| 0 <= j < s.len() + 1 ==> (#[trigger] insert_by_key(s, n, keys)[j] == n || s.contains(insert_by_key(s, n, keys)[j])),
    decreases s.len(),
{
    if s.len() > 0 && lex_lt(keys[n], keys[s.last()]) {
        lemma_insert_len(s.drop_last(), n, keys);
        let r = insert_by_key(s, n, keys);
        assert forall|j: int| 0 <= j < s.len() + 1 implies (#[trigger] r[j] == n || s.contains(r[j])) by {
            if j < s.len() {
                let x = insert_by_key(s.drop_last(), n, keys)[j];
                if x != n {
                    let k = choose|k: int| 0 <= k < s.drop_last().len() && s.drop_last()[k] == x;
                    assert(s[k] == x);
                }
            } else {
                assert(s[s.len() - 1] == r[j]);
            }
        }
    } else {
        let r = insert_by_key(s, n, keys);
        assert forall|j: int| 0 <= j < s.len() + 1 implies (#[trigger] r[j] == n || s.contains(r[j])) by {
            if j < s.len() {
                assert(s[j] == r[j]);
            }
        }
    }
}

/// The duplicate groups among the candidates, given what each candidate's
/// metadata says: candidates regrouped by short name (or, where it is
/// unknown, by display name), groups of one dropped, sorted by the
/// lower-cased display name of their first entry.
pub fn duplicate_groups(cands: &Vec<NameEntry>, facts: &Vec<DtaFacts>) -> (r: Vec<DuplicateGroup>)
    requires
        facts@.len() == cands@.len(),
    ensures
        r@.len() == final_groups(cands@, facts@).len(),
        forall|i: int| 0 <= i < r@.len() ==> group_matches(
            #[trigger] r@[i],
            cands@,
            facts@,
            final_groups(cands@, facts@)[group_order(cands@, facts@)[i]],
        ),
        forall|i: int| 0 <= i < r@.len() ==> (#[trigger] r@[i]).entries@.len() >= 2,
        forall|i: int, j: int|
            0 <= i < j < r@.len() ==> !lex_lt(lowercase(#[trigger] r@[j].display_name@), lowercase(#[trigger] r@[i].display_name@)),
{
    let ghost ck = candidate_keys(cands@, facts@);
    let mut keys: Vec<Vec<char>> = Vec::new();
    let mut i: usize = 0;
    while i < cands.len()
        invariant
            facts@.len() == cands@.len(),
            ck == candidate_keys(cands@, facts@),
            i <= cands@.len(),
            keys@.len() == i,
            forall|j: int| 0 <= j < i ==> (#[trigger] keys@[j])@ == ck[j],
        decreases cands@.len() - i,
    {
        let k = if facts[i].shortname.as_str().unicode_len() > 0 {
            chars_of(facts[i].shortname.as_str())
        } else {
            let nk = normalize_name(cands[i].display_name.as_str());
            chars_of(nk.as_str())
        };
        keys.push(k);
        i = i + 1;
    }
    assert(keys@.map_values(|v: Vec<char>| v@) =~= ck);
    let groups = key_groups(&keys);
    let ghost gs = final_groups(cands@, facts@);
    proof {
        lemma_groups_shape(ck, 0);
    }
    assert forall|g: int| 0 <= g < groups@.len() implies #[trigger] int_indices(groups@[g]@) == gs[g] by {
        assert(groups@.map_values(|g: Vec<usize>| g@.map_values(|j: usize| j as int))[g] == int_indices(groups@[g]@));
    }
    // the sort key of each group
    let ghost sk = group_sort_keys(cands@, gs);
    let mut gkeys: Vec<Vec<char>> = Vec::new();
    let mut g: usize = 0;
    while g < groups.len()
        invariant
            facts@.len() == cands@.len(),
            gs == final_groups(cands@, facts@),
            sk == group_sort_keys(cands@, gs),
            groups@.len() == gs.len(),
            forall|h: int| 0 <= h < groups@.len() ==> #[trigger] int_indices(groups@[h]@) == gs[h],
            forall|h: int| 0 <= h < gs.len() ==> #[trigger] gs[h].len() >= 2,
            forall|h: int, m: int| 0 <= h < groups@.len() && 0 <= m < groups@[h]@.len() ==> #[trigger] groups@[h]@[m] < keys@.len(),
            keys@.len() == cands@.len(),
            g <= groups@.len(),
            gkeys@.len() == g,
            forall|h: int| 0 <= h < g ==> (#[trigger] gkeys@[h])@ == sk[h],
        decreases groups@.len() - g,
    {
        assert(int_indices(groups@[g as int]@)[0] == groups@[g as int]@[0] as int);
        assert(gs[g as int].len() >= 2);
        let first = groups[g][0];
        let l = str_to_lowercase(cands[first].display_name.as_str());
        gkeys.push(chars_of(l.as_str()));
        g = g + 1;
    }
    // a stable sort of the group indices by those keys
    assert(gkeys@.map_values(|v: Vec<char>| v@) =~= sk);
    let order = sorted_order(&gkeys);
    // the groups in that order
    let mut out: Vec<DuplicateGroup> = Vec::new();
    let mut o: usize = 0;
    while o < order.len()
        invariant
            facts@.len() == cands@.len(),
            ck == candidate_keys(cands@, facts@),
            keys@.len() == cands@.len(),
            forall|j: int| 0 <= j < cands@.len() ==> (#[trigger] keys@[j])@ == ck[j],
            gs == final_groups(cands@, facts@),
            groups@.len() == gs.len(),
            forall|h: int| 0 <= h < groups@.len() ==> #[trigger] int_indices(groups@[h]@) == gs[h],
            forall|h: int| 0 <= h < gs.len() ==> #[trigger] gs[h].len() >= 2,
            forall|h: int, m: int| 0 <= h < groups@.len() && 0 <= m < groups@[h]@.len() ==> #[trigger] groups@[h]@[m] < keys@.len(),
            int_indices(order@) == group_order(cands@, facts@),
            forall|j: int| 0 <= j < order@.len() ==> #[trigger] order@[j] < groups@.len(),
            o <= order@.len(),
            out@.len() == o,
            forall|j: int| 0 <= j < o ==> group_matches(#[trigger] out@[j], cands@, facts@, gs[group_order(cands@, facts@)[j]]),
            forall|j: int| 0 <= j < o ==> (#[trigger] out@[j]).entries@.len() >= 2,
        decreases order@.len() - o,
    {
        let h = order[o];
        assert(int_indices(order@)[o as int] == h as int);
        assert(int_indices(groups@[h as int]@).len() == groups@[h as int]@.len());
        let grp = build_group(cands, facts, &keys, &groups[h]);
        out.push(grp);
        o = o + 1;
    }
    proof {
        let ord = group_order(cands@, facts@);
        lemma_sort_in_order(iota(gs.len() as int), sk);
        assert forall|i: int, j: int| 0 <= i < j < out@.len() implies !lex_lt(
            lowercase(#[trigger] out@[j].display_name@),
            lowercase(#[trigger] out@[i].display_name@),
        ) by {
            assert(int_indices(order@)[i] == order@[i] as int);
            assert(int_indices(order@)[j] == order@[j] as int);
            assert(group_matches(out@[i], cands@, facts@, gs[ord[i]]));
            assert(group_matches(out@[j], cands@, facts@, gs[ord[j]]));
            assert(sk[ord[i]] == lowercase(out@[i].display_name@));
            assert(sk[ord[j]] == lowercase(out@[j].display_name@));
        }
    }
    out
}

/// The group of the candidates at positions `grp`.
fn build_group(cands: &Vec<NameEntry>, facts: &Vec<DtaFacts>, keys: &Vec<Vec<char>>, grp: &Vec<usize>) -> (r: DuplicateGroup)
    requires
        facts@.len() == cands@.len(),
        keys@.len() == cands@.len(),
        forall|j: int| 0 <= j < cands@.len() ==> (#[trigger] keys@[j])@ == final_key(cands@[j], facts@[j]),
        grp@.len() >= 1,
        forall|m: int| 0 <= m < grp@.len() ==> #[trigger] grp@[m] < cands@.len(),
    ensures
        group_matches(r, cands@, facts@, int_indices(grp@)),
{
    let first = grp[0];
    let shortname = string_from_chars(keys[first].as_slice());
    let display_name = cands[first].display_name.clone();
    let mut entries: Vec<DuplicateEntry> = Vec::new();
    let mut m: usize = 0;
    while m < grp.len()
        invariant
            facts@.len() == cands@.len(),
            forall|q: int| 0 <= q < grp@.len() ==> #[trigger] grp@[q] < cands@.len(),
            m <= grp@.len(),
            entries@.len() == m,
            forall|j: int| 0 <= j < m ==> #[trigger] dup_entry_view(entries@[j]) == entry_of(cands@[grp@[j] as int], facts@[grp@[j] as int]),
        decreases grp@.len() - m,
    {
        let p = grp[m];
        let e = &cands[p];
        let (d, gt, b, v, k) = match facts[p].instruments {
            Some(t) => t,
            None => (false, false, false, false, false),
        };
        entries.push(DuplicateEntry {
            path: e.path.clone(),
            display_name: e.display_name.clone(),
            description: e.description.clone(),
            file_size: e.file_size,
            has_drums: d,
            has_guitar: gt,
            has_bass: b,
            has_vocals: v,
            has_keys: k,
        });
        m = m + 1;
    }
    let r = DuplicateGroup { shortname, display_name, entries };
    assert forall|j: int| 0 <= j < grp@.len() implies #[trigger] dup_entry_view(r.entries@[j]) == entry_of(
        cands@[int_indices(grp@)[j]],
        facts@[int_indices(grp@)[j]],
    ) by {
        assert(int_indices(grp@)[j] == grp@[j] as int);
    }
    r
}


// ---------------------------------------------------------------- scores of a song

/// One play read from a scores database, as merging the plays sees it.
pub struct PlayKey {
    pub date: String,
    pub player_name: String,
    pub instrument: String,
    pub difficulty: String,
    pub score: i64,
    /// The build the play was read from.
    pub build: String,
    /// The song's artist, normalized.
    pub artist_norm: String,
}

/// One row of a song's scores: the play shown, the builds it was found in
/// and how many plays of its instrument and difficulty there were.
pub struct ScoreRow {
    pub play: usize,
    pub build: String,
    pub attempts: i64,
}

pub open spec fn both_builds() -> Seq<char> {
    "Stable + Nightly"@
}

/// What tells two plays apart: date, player, instrument, difficulty and
/// score, joined with `|`.
pub open spec fn play_key(p: PlayKey) -> Seq<char> {
    p.date@ + "|"@ + p.player_name@ + "|"@ + p.instrument@ + "|"@ + p.difficulty@ + "|"@ + int_to_dec(p.score as int)
}

/// Whether the artist narrows the plays: it is given and some play has it.
pub open spec fn artist_matters(ps: Seq<PlayKey>, a: Seq<char>) -> bool {
    a.len() > 0 && exists|i: int| 0 <= i < ps.len() && (#[trigger] ps[i]).artist_norm@ == a
}

/// The positions below `n` of the plays kept: all, or those of the artist.
pub open spec fn kept_plays(ps: Seq<PlayKey>, a: Seq<char>, by_artist: bool, n: int) -> Seq<int>
    decreases n,
{
    if n <= 0 {
        Seq::empty()
    } else {
        let prev = kept_plays(ps, a, by_artist, n - 1);
        if !by_artist || ps[n - 1].artist_norm@ == a {
            prev.push(n - 1)
        } else {
            prev
        }
    }
}

/// The index of the first row whose play has key `k`, or `rows.len()`.
pub open spec fn row_with_key(ps: Seq<PlayKey>, rows: Seq<(int, Seq<char>)>, k: Seq<char>, i: int) -> int
    decreases rows.len() - i,
{
    if i < 0 || i >= rows.len() {
        rows.len() as int
    } else if play_key(ps[rows[i].0]) == k {
        i
    } else {
        row_with_key(ps, rows, k, i + 1)
    }
}

/// The plays at `order`, a play found again (in the other build) merged into
/// the first: each row is a play and the builds it was found in.
pub open spec fn merged_plays(ps: Seq<PlayKey>, order: Seq<int>) -> Seq<(int, Seq<char>)>
    decreases order.len(),
{
    if order.len() == 0 {
        Seq::empty()
    } else {
        let m = merged_plays(ps, order.drop_last());
        let p = order.last();
        let j = row_with_key(ps, m, play_key(ps[p]), 0);
        if j < m.len() {
            if m[j].1 != ps[p].build@ && m[j].1 != both_builds() {
                m.update(j, (m[j].0, both_builds()))
            } else {
                m
            }
        } else {
            m.push((p, ps[p].build@))
        }
    }
}

/// The index of the first collapsed row for instrument `ins` and
/// difficulty `dif`, or `rows.len()`.
pub open spec fn row_for_part(ps: Seq<PlayKey>, rows: Seq<(int, Seq<char>, int)>, ins: Seq<char>, dif: Seq<char>, i: int) -> int
    decreases rows.len() - i,
{
    if i < 0 || i >= rows.len() {
        rows.len() as int
    } else if ps[rows[i].0].instrument@ == ins && ps[rows[i].0].difficulty@ == dif {
        i
    } else {
        row_for_part(ps, rows, ins, dif, i + 1)
    }
}

/// The merged rows collapsed to the best (first highest-scoring) play of
/// each instrument and difficulty, counting the plays of each.
pub open spec fn best_plays(ps: Seq<PlayKey>, rows: Seq<(int, Seq<char>)>) -> Seq<(int, Seq<char>, int)>
    decreases rows.len(),
{
    if rows.len() == 0 {
        Seq::empty()
    } else {
        let c = best_plays(ps, rows.drop_last());
        let (p, b) = rows.last();
        let j = row_for_part(ps, c, ps[p].instrument@, ps[p].difficulty@, 0);
        if j < c.len() {
            if ps[p].score > ps[c[j].0].score {
                c.update(j, (p, b, c[j].2 + 1))
            } else {
                c.update(j, (c[j].0, c[j].1, c[j].2 + 1))
            }
        } else {
            c.push((p, b, 1int))
        }
    }
}

/// `r` placed after every row of `sorted` whose score is not lower.
pub open spec fn insert_by_score(ps: Seq<PlayKey>, sorted: Seq<(int, Seq<char>, int)>, r: (int, Seq<char>, int)) -> Seq<(int, Seq<char>, int)>
    decreases sorted.len(),
{
    if sorted.len() == 0 || ps[sorted.last().0].score >= ps[r.0].score {
        sorted.push(r)
    } else {
        insert_by_score(ps, sorted.drop_last(), r).push(sorted.last())
    }
}

/// The rows from the highest score down, rows of equal score kept in their
/// order.
pub open spec fn by_score(ps: Seq<PlayKey>, rows: Seq<(int, Seq<char>, int)>) -> Seq<(int, Seq<char>, int)>
    decreases rows.len(),
{
    if rows.len() == 0 {
        Seq::empty()
    } else {
        insert_by_score(ps, by_score(ps, rows.drop_last()), rows.last())
    }
}

/// A song's scores from its plays: the plays narrowed to the artist where
/// some play has it, plays found in both builds merged, the best play of
/// each instrument and difficulty, highest score first.
pub open spec fn song_scores(ps: Seq<PlayKey>, a: Seq<char>) -> Seq<(int, Seq<char>, int)> {
    let kept = kept_plays(ps, a, artist_matters(ps, a), ps.len() as int);
    by_score(ps, best_plays(ps, merged_plays(ps, kept)))
}

pub open spec fn score_row_view(r: ScoreRow) -> (int, Seq<char>, int) {
    (r.play as int, r.build@, r.attempts as int)
}

fn key_of_play(p: &PlayKey) -> (r: Vec<char>)
    ensures
        r@ == play_key(*p),
{
    let mut v = chars_of(p.date.as_str());
    push_str(&mut v, "|");
    let c = chars_of(p.player_name.as_str());
    extend_chars(&mut v, c.as_slice());
    push_str(&mut v, "|");
    let c = chars_of(p.instrument.as_str());
    extend_chars(&mut v, c.as_slice());
    push_str(&mut v, "|");
    let c = chars_of(p.difficulty.as_str());
    extend_chars(&mut v, c.as_slice());
    push_str(&mut v, "|");
    let d = i64_to_dec(p.score);
    extend_chars(&mut v, d.as_slice());
    v
}

fn str_eq(a: &String, b: &String) -> (r: bool)
    ensures
        r == (a@ == b@),
{
    let x = chars_of(a.as_str());
    let y = chars_of(b.as_str());
    crate::text::chars_eq(x.as_slice(), y.as_slice())
}

pub open spec fn merged_view(v: Seq<(usize, String)>) -> Seq<(int, Seq<char>)> {
    v.map_values(|r: (usize, String)| (r.0 as int, r.1@))
}

pub open spec fn best_view(v: Seq<ScoreRow>) -> Seq<(int, Seq<char>, int)> {
    v.map_values(|r: ScoreRow| score_row_view(r))
}


fn artist_used(plays: &Vec<PlayKey>, a: &String) -> (r: bool)
    ensures
        r == artist_matters(plays@, a@),
{
    if a.as_str().unicode_len() == 0 {
        return false;
    }
    let mut i: usize = 0;
    while i < plays.len()
        invariant
            i <= plays@.len(),
            a@.len() > 0,
            forall|j: int| 0 <= j < i ==> (#[trigger] plays@[j]).artist_norm@ != a@,
        decreases plays@.len() - i,
    {
        if str_eq(&plays[i].artist_norm, a) {
            assert(plays@[i as int].artist_norm@ == a@);
            return true;
        }
        i = i + 1;
    }
    false
}

fn kept_positions(plays: &Vec<PlayKey>, a: &String, by_artist: bool) -> (r: Vec<usize>)
    ensures
        int_indices(r@) == kept_plays(plays@, a@, by_artist, plays@.len() as int),
        forall|j: int| 0 <= j < r@.len() ==> #[trigger] r@[j] < plays@.len(),
{
    let mut out: Vec<usize> = Vec::new();
    let mut i: usize = 0;
    while i < plays.len()
        invariant
            i <= plays@.len(),
            int_indices(out@) == kept_plays(plays@, a@, by_artist, i as int),
            forall|j: int| 0 <= j < out@.len() ==> #[trigger] out@[j] < plays@.len(),
        decreases plays@.len() - i,
    {
        if !by_artist || str_eq(&plays[i].artist_norm, a) {
            let ghost before = out@;
            out.push(i);
            assert(int_indices(out@) =~= int_indices(before).push(i as int));
        }
        i = i + 1;
    }
    out
}

fn merge_found_again(plays: &Vec<PlayKey>, order: &Vec<usize>) -> (r: Vec<(usize, String)>)
    requires
        forall|j: int| 0 <= j < order@.len() ==> #[trigger] order@[j] < plays@.len(),
    ensures
        merged_view(r@) == merged_plays(plays@, int_indices(order@)),
        forall|j: int| 0 <= j < r@.len() ==> #[trigger] r@[j].0 < plays@.len(),
        r@.len() <= order@.len(),
{
    let ghost ps = plays@;
    let ghost ord = int_indices(order@);
    let mut m: Vec<(usize, String)> = Vec::new();
    let mut i: usize = 0;
    while i < order.len()
        invariant
            ps == plays@,
            ord == int_indices(order@),
            forall|j: int| 0 <= j < order@.len() ==> #[trigger] order@[j] < plays@.len(),
            i <= order@.len(),
            merged_view(m@) == merged_plays(ps, ord.take(i as int)),
            forall|j: int| 0 <= j < m@.len() ==> #[trigger] m@[j].0 < plays@.len(),
            m@.len() <= i,
        decreases order@.len() - i,
    {
        let ghost mv = merged_view(m@);
        assert(ord.take(i + 1).drop_last() =~= ord.take(i as int));
        assert(ord.take(i + 1).last() == order@[i as int] as int);
        let p = order[i];
        let key = key_of_play(&plays[p]);
        let mut j: usize = 0;
        while j < m.len()
            invariant
                ps == plays@,
                mv == merged_view(m@),
                key@ == play_key(ps[p as int]),
                forall|q: int| 0 <= q < m@.len() ==> #[trigger] m@[q].0 < plays@.len(),
                j <= m@.len(),
                row_with_key(ps, mv, key@, j as int) == row_with_key(ps, mv, key@, 0),
            ensures
                j <= m@.len(),
                row_with_key(ps, mv, key@, j as int) == row_with_key(ps, mv, key@, 0),
                j < m@.len() ==> play_key(ps[mv[j as int].0]) == key@,
            decreases m@.len() - j,
        {
            assert(mv[j as int].0 == m@[j as int].0 as int);
            let kj = key_of_play(&plays[m[j].0]);
            if crate::text::chars_eq(kj.as_slice(), key.as_slice()) {
                break;
            }
            j = j + 1;
        }
        assert(row_with_key(ps, mv, key@, j as int) == j as int);
        if j < m.len() {
            let same = str_eq(&m[j].1, &plays[p].build);
            let both = String::from_str("Stable + Nightly");
            let already = str_eq(&m[j].1, &both);
            if !same && !already {
                let q = m[j].0;
                m.set(j, (q, both));
                assert(merged_view(m@) =~= mv.update(j as int, (mv[j as int].0, both_builds())));
            }
        } else {
            m.push((p, plays[p].build.clone()));
            assert(merged_view(m@) =~= mv.push((p as int, ps[p as int].build@)));
        }
        i = i + 1;
    }
    assert(ord.take(order@.len() as int) =~= ord);
    m
}

fn collapse_to_best(plays: &Vec<PlayKey>, rows: &Vec<(usize, String)>) -> (r: Vec<ScoreRow>)
    requires
        forall|j: int| 0 <= j < rows@.len() ==> #[trigger] rows@[j].0 < plays@.len(),
        rows@.len() < 0x7FFF_FFFF_FFFF_FFFF,
    ensures
        best_view(r@) == best_plays(plays@, merged_view(rows@)),
        forall|j: int| 0 <= j < r@.len() ==> #[trigger] r@[j].play < plays@.len(),
{
    let ghost ps = plays@;
    let ghost rv = merged_view(rows@);
    let mut c: Vec<ScoreRow> = Vec::new();
    let mut i: usize = 0;
    while i < rows.len()
        invariant
            ps == plays@,
            rv == merged_view(rows@),
            forall|j: int| 0 <= j < rows@.len() ==> #[trigger] rows@[j].0 < plays@.len(),
            rows@.len() < 0x7FFF_FFFF_FFFF_FFFF,
            i <= rows@.len(),
            best_view(c@) == best_plays(ps, rv.take(i as int)),
            forall|j: int| 0 <= j < c@.len() ==> #[trigger] c@[j].play < plays@.len(),
            forall|j: int| 0 <= j < c@.len() ==> 1 <= #[trigger] c@[j].attempts <= i,
        decreases rows@.len() - i,
    {
        let ghost cv = best_view(c@);
        assert(rv.take(i + 1).drop_last() =~= rv.take(i as int));
        assert(rv.take(i + 1).last() == rv[i as int]);
        let p = rows[i].0;
        let mut j: usize = 0;
        while j < c.len()
            invariant
                ps == plays@,
                cv == best_view(c@),
                p < plays@.len(),
                forall|q: int| 0 <= q < c@.len() ==> #[trigger] c@[q].play < plays@.len(),
                j <= c@.len(),
                row_for_part(ps, cv, ps[p as int].instrument@, ps[p as int].difficulty@, j as int)
                    == row_for_part(ps, cv, ps[p as int].instrument@, ps[p as int].difficulty@, 0),
            ensures
                j <= c@.len(),
                row_for_part(ps, cv, ps[p as int].instrument@, ps[p as int].difficulty@, j as int)
                    == row_for_part(ps, cv, ps[p as int].instrument@, ps[p as int].difficulty@, 0),
                j < c@.len() ==> ps[cv[j as int].0].instrument@ == ps[p as int].instrument@
                    && ps[cv[j as int].0].difficulty@ == ps[p as int].difficulty@,
            decreases c@.len() - j,
        {
            assert(cv[j as int].0 == c@[j as int].play as int);
            let q = c[j].play;
            if str_eq(&plays[q].instrument, &plays[p].instrument) && str_eq(
                &plays[q].difficulty,
                &plays[p].difficulty,
            ) {
                break;
            }
            j = j + 1;
        }
        assert(row_for_part(ps, cv, ps[p as int].instrument@, ps[p as int].difficulty@, j as int) == j as int);
        if j < c.len() {
            let q = c[j].play;
            let att = c[j].attempts + 1;
            if plays[p].score > plays[q].score {
                c.set(j, ScoreRow { play: p, build: rows[i].1.clone(), attempts: att });
                assert(best_view(c@) =~= cv.update(j as int, (p as int, rv[i as int].1, cv[j as int].2 + 1)));
            } else {
                let b = c[j].build.clone();
                c.set(j, ScoreRow { play: q, build: b, attempts: att });
                assert(best_view(c@) =~= cv.update(j as int, (cv[j as int].0, cv[j as int].1, cv[j as int].2 + 1)));
            }
        } else {
            c.push(ScoreRow { play: p, build: rows[i].1.clone(), attempts: 1 });
            assert(best_view(c@) =~= cv.push((p as int, rv[i as int].1, 1int)));
        }
        i = i + 1;
    }
    assert(rv.take(rows@.len() as int) =~= rv);
    c
}

fn copy_row(r: &ScoreRow) -> (c: ScoreRow)
    ensures
        score_row_view(c) == score_row_view(*r),
        c.play == r.play,
{
    ScoreRow { play: r.play, build: r.build.clone(), attempts: r.attempts }
}

fn insert_row(plays: &Vec<PlayKey>, out: &mut Vec<ScoreRow>, r: ScoreRow)
    requires
        r.play < plays@.len(),
        forall|j: int| 0 <= j < old(out)@.len() ==> #[trigger] old(out)@[j].play < plays@.len(),
    ensures
        best_view(final(out)@) == insert_by_score(plays@, best_view(old(out)@), score_row_view(r)),
        forall|j: int| 0 <= j < final(out)@.len() ==> #[trigger] final(out)@[j].play < plays@.len(),
{
    let ghost ps = plays@;
    let ghost s = best_view(out@);
    let ghost x = score_row_view(r);
    let mut p: usize = out.len();
    assert(s.take(p as int) =~= s);
    assert(s.skip(p as int) =~= Seq::<(int, Seq<char>, int)>::empty());
    assert(insert_by_score(ps, s, x) + Seq::<(int, Seq<char>, int)>::empty() =~= insert_by_score(ps, s, x));
    while p > 0 && plays[out[p - 1].play].score < plays[r.play].score
        invariant
            ps == plays@,
            s == best_view(out@),
            x == score_row_view(r),
            r.play < plays@.len(),
            p <= out@.len(),
            forall|j: int| 0 <= j < out@.len() ==> #[trigger] out@[j].play < plays@.len(),
            insert_by_score(ps, s, x) == insert_by_score(ps, s.take(p as int), x) + s.skip(p as int),
        decreases p,
    {
        let ghost t = s.take(p as int);
        assert(t.drop_last() =~= s.take(p - 1));
        assert(t.last() == s[p - 1]);
        assert(s[p - 1].0 == out@[p - 1].play as int);
        assert(insert_by_score(ps, t, x) == insert_by_score(ps, s.take(p - 1), x).push(s[p - 1]));
        assert(insert_by_score(ps, s.take(p - 1), x).push(s[p - 1]) + s.skip(p as int)
            =~= insert_by_score(ps, s.take(p - 1), x) + s.skip(p - 1));
        p = p - 1;
    }
    proof {
        if p > 0 {
            assert(s.take(p as int).last() == s[p - 1]);
            assert(s[p - 1].0 == out@[p - 1].play as int);
        }
        assert(insert_by_score(ps, s.take(p as int), x) == s.take(p as int).push(x));
    }
    out.insert(p, r);
    assert(best_view(out@) =~= s.take(p as int).push(x) + s.skip(p as int));
}

fn sort_by_score(plays: &Vec<PlayKey>, rows: &Vec<ScoreRow>) -> (r: Vec<ScoreRow>)
    requires
        forall|j: int| 0 <= j < rows@.len() ==> #[trigger] rows@[j].play < plays@.len(),
    ensures
        best_view(r@) == by_score(plays@, best_view(rows@)),
{
    let ghost rv = best_view(rows@);
    let mut out: Vec<ScoreRow> = Vec::new();
    let mut i: usize = 0;
    while i < rows.len()
        invariant
            rv == best_view(rows@),
            forall|j: int| 0 <= j < rows@.len() ==> #[trigger] rows@[j].play < plays@.len(),
            i <= rows@.len(),
            best_view(out@) == by_score(plays@, rv.take(i as int)),
            forall|j: int| 0 <= j < out@.len() ==> #[trigger] out@[j].play < plays@.len(),
        decreases rows@.len() - i,
    {
        assert(rv.take(i + 1).drop_last() =~= rv.take(i as int));
        assert(rv.take(i + 1).last() == rv[i as int]);
        let c = copy_row(&rows[i]);
        insert_row(plays, &mut out, c);
        i = i + 1;
    }
    assert(rv.take(rows@.len() as int) =~= rv);
    out
}

/// A song's scores from the plays whose title matched: narrowed to the
/// plays of `artist_norm` where some play has that artist, a play found in
/// both builds shown once as "Stable + Nightly", only the best play of each
/// instrument and difficulty kept (with how many plays it was chosen from),
/// highest score first.
pub fn collapse_song_scores(plays: &Vec<PlayKey>, artist_norm: &String) -> (r: Vec<ScoreRow>)
    requires
        plays@.len() < 0x7FFF_FFFF_FFFF_FFFF,
    ensures
        best_view(r@) == song_scores(plays@, artist_norm@),
{
    let by_artist = artist_used(plays, artist_norm);
    let kept = kept_positions(plays, artist_norm, by_artist);
    proof {
        lemma_kept_len(plays@, artist_norm@, by_artist, plays@.len() as int);
    }
    let merged = merge_found_again(plays, &kept);
    let best = collapse_to_best(plays, &merged);
    sort_by_score(plays, &best)
}

proof fn lemma_kept_len(ps: Seq<PlayKey>, a: Seq<char>, by_artist: bool, n: int)
    ensures
        kept_plays(ps, a, by_artist, n).len() <= if n < 0 { 0 } else { n },
    decreases n,
{
    if n > 0 {
        lemma_kept_len(ps, a, by_artist, n - 1);
    }
}


// ---------------------------------------------------------------- what a song's scores look like

/// The instrument and difficulty of a score row.
pub open spec fn row_part(ps: Seq<PlayKey>, r: (int, Seq<char>, int)) -> (Seq<char>, Seq<char>) {
    (ps[r.0].instrument@, ps[r.0].difficulty@)
}

/// Whether no row of `rows` is for part `q`.
pub open spec fn no_part(ps: Seq<PlayKey>, rows: Seq<(int, Seq<char>, int)>, q: (Seq<char>, Seq<char>)) -> bool {
    forall|i: int| 0 <= i < rows.len() ==> row_part(ps, #[trigger] rows[i]) != q
}

/// Whether every row is for a part of its own.
pub open spec fn parts_distinct(ps: Seq<PlayKey>, rows: Seq<(int, Seq<char>, int)>) -> bool {
    forall|i: int, j: int| 0 <= i < j < rows.len() ==> row_part(ps, #[trigger] rows[i]) != row_part(ps, #[trigger] rows[j])
}

/// Whether no row scores lower than `v`.
pub open spec fn all_at_least(ps: Seq<PlayKey>, rows: Seq<(int, Seq<char>, int)>, v: int) -> bool {
    forall|i: int| 0 <= i < rows.len() ==> ps[(#[trigger] rows[i]).0].score >= v
}

/// Whether the rows go from the highest score down.
pub open spec fn scores_descending(ps: Seq<PlayKey>, rows: Seq<(int, Seq<char>, int)>) -> bool {
    forall|i: int, j: int| 0 <= i < j < rows.len() ==> ps[(#[trigger] rows[i]).0].score >= ps[(#[trigger] rows[j]).0].score
}

proof fn lemma_row_for_part(
    ps: Seq<PlayKey>,
    rows: Seq<(int, Seq<char>, int)>,
    ins: Seq<char>,
    dif: Seq<char>,
    i: int,
)
    requires
        0 <= i,
    ensures
        row_for_part(ps, rows, ins, dif, i) <= rows.len(),
        i <= row_for_part(ps, rows, ins, dif, i) || row_for_part(ps, rows, ins, dif, i) == rows.len(),
        row_for_part(ps, rows, ins, dif, i) < rows.len() ==> row_part(ps, rows[row_for_part(ps, rows, ins, dif, i)])
            == (ins, dif),
        forall|q: int| i <= q < row_for_part(ps, rows, ins, dif, i) ==> row_part(ps, #[trigger] rows[q]) != (ins, dif),
    decreases rows.len() - i,
{
    if i < rows.len() && !(ps[rows[i].0].instrument@ == ins && ps[rows[i].0].difficulty@ == dif) {
        lemma_row_for_part(ps, rows, ins, dif, i + 1);
    }
}

proof fn lemma_best_distinct(ps: Seq<PlayKey>, rows: Seq<(int, Seq<char>)>)
    ensures
        parts_distinct(ps, best_plays(ps, rows)),
    decreases rows.len(),
{
    if rows.len() > 0 {
        let c = best_plays(ps, rows.drop_last());
        lemma_best_distinct(ps, rows.drop_last());
        let (p, b) = rows.last();
        let q = (ps[p].instrument@, ps[p].difficulty@);
        lemma_row_for_part(ps, c, q.0, q.1, 0);
        let j = row_for_part(ps, c, q.0, q.1, 0);
        let r = best_plays(ps, rows);
        if j < c.len() {
            let nr = if ps[p].score > ps[c[j].0].score {
                (p, b, c[j].2 + 1)
            } else {
                (c[j].0, c[j].1, c[j].2 + 1)
            };
            assert(r == c.update(j, nr));
            assert(row_part(ps, nr) == row_part(ps, c[j]));
            assert forall|x: int, y: int| 0 <= x < y < r.len() implies row_part(ps, #[trigger] r[x]) != row_part(
                ps,
                #[trigger] r[y],
            ) by {
                if x == j {
                    assert(r[x] == nr);
                } else {
                    assert(r[x] == c[x]);
                }
                if y == j {
                    assert(r[y] == nr);
                } else {
                    assert(r[y] == c[y]);
                }
                assert(row_part(ps, c[x]) != row_part(ps, c[y]));
            }
        } else {
            assert forall|x: int, y: int| 0 <= x < y < r.len() implies row_part(ps, #[trigger] r[x]) != row_part(
                ps,
                #[trigger] r[y],
            ) by {
                if y == c.len() {
                    assert(r[x] == c[x]);
                } else {
                    assert(r[x] == c[x] && r[y] == c[y]);
                }
            }
        }
    }
}

proof fn lemma_insert_score_keeps(
    ps: Seq<PlayKey>,
    sorted: Seq<(int, Seq<char>, int)>,
    r: (int, Seq<char>, int),
    v: int,
    q: (Seq<char>, Seq<char>),
)
    ensures
        all_at_least(ps, sorted, v) && ps[r.0].score >= v ==> all_at_least(ps, insert_by_score(ps, sorted, r), v),
        no_part(ps, sorted, q) && row_part(ps, r) != q ==> no_part(ps, insert_by_score(ps, sorted, r), q),
    decreases sorted.len(),
{
    if sorted.len() > 0 && ps[sorted.last().0].score < ps[r.0].score {
        let init = sorted.drop_last();
        lemma_insert_score_keeps(ps, init, r, v, q);
        let t = insert_by_score(ps, init, r);
        let u = insert_by_score(ps, sorted, r);
        assert(u == t.push(sorted.last()));
        if all_at_least(ps, sorted, v) && ps[r.0].score >= v {
            assert(all_at_least(ps, init, v)) by {
                assert forall|i: int| 0 <= i < init.len() implies ps[(#[trigger] init[i]).0].score >= v by {
                    assert(init[i] == sorted[i]);
                }
            }
            assert forall|i: int| 0 <= i < u.len() implies ps[(#[trigger] u[i]).0].score >= v by {
                if i < t.len() {
                    assert(u[i] == t[i]);
                } else {
                    assert(u[i] == sorted[sorted.len() - 1]);
                }
            }
        }
        if no_part(ps, sorted, q) && row_part(ps, r) != q {
            assert(no_part(ps, init, q)) by {
                assert forall|i: int| 0 <= i < init.len() implies row_part(ps, #[trigger] init[i]) != q by {
                    assert(init[i] == sorted[i]);
                }
            }
            assert forall|i: int| 0 <= i < u.len() implies row_part(ps, #[trigger] u[i]) != q by {
                if i < t.len() {
                    assert(u[i] == t[i]);
                } else {
                    assert(u[i] == sorted[sorted.len() - 1]);
                }
            }
        }
    }
}

proof fn lemma_insert_score(ps: Seq<PlayKey>, sorted: Seq<(int, Seq<char>, int)>, r: (int, Seq<char>, int))
    ensures
        scores_descending(ps, sorted) ==> scores_descending(ps, insert_by_score(ps, sorted, r)),
        parts_distinct(ps, sorted) && no_part(ps, sorted, row_part(ps, r)) ==> parts_distinct(
            ps,
            insert_by_score(ps, sorted, r),
        ),
    decreases sorted.len(),
{
    let u = insert_by_score(ps, sorted, r);
    if sorted.len() == 0 || ps[sorted.last().0].score >= ps[r.0].score {
        assert(u == sorted.push(r));
        if scores_descending(ps, sorted) {
            assert forall|i: int, j: int| 0 <= i < j < u.len() implies ps[(#[trigger] u[i]).0].score >= ps[(
            #[trigger] u[j]).0].score by {
                assert(u[i] == sorted[i]);
                if j < sorted.len() {
                    assert(u[j] == sorted[j]);
                } else {
                    assert(ps[sorted[i].0].score >= ps[sorted[sorted.len() - 1].0].score);
                }
            }
        }
        if parts_distinct(ps, sorted) && no_part(ps, sorted, row_part(ps, r)) {
            assert forall|i: int, j: int| 0 <= i < j < u.len() implies row_part(ps, #[trigger] u[i]) != row_part(
                ps,
                #[trigger] u[j],
            ) by {
                assert(u[i] == sorted[i]);
                if j < sorted.len() {
                    assert(u[j] == sorted[j]);
                }
            }
        }
    } else {
        let init = sorted.drop_last();
        let last = sorted.last();
        lemma_insert_score(ps, init, r);
        let t = insert_by_score(ps, init, r);
        assert(u == t.push(last));
        if scores_descending(ps, sorted) {
            assert(scores_descending(ps, init)) by {
                assert forall|i: int, j: int| 0 <= i < j < init.len() implies ps[(#[trigger] init[i]).0].score >= ps[(
                #[trigger] init[j]).0].score by {
                    assert(init[i] == sorted[i] && init[j] == sorted[j]);
                }
            }
            assert(all_at_least(ps, init, ps[last.0].score as int)) by {
                assert forall|i: int| 0 <= i < init.len() implies ps[(#[trigger] init[i]).0].score >= ps[last.0].score by {
                    assert(init[i] == sorted[i]);
                    assert(sorted[sorted.len() - 1] == last);
                }
            }
            lemma_insert_score_keeps(ps, init, r, ps[last.0].score as int, row_part(ps, last));
            assert forall|i: int, j: int| 0 <= i < j < u.len() implies ps[(#[trigger] u[i]).0].score >= ps[(
            #[trigger] u[j]).0].score by {
                assert(u[i] == t[i]);
                if j < t.len() {
                    assert(u[j] == t[j]);
                } else {
                    assert(u[j] == last);
                }
            }
        }
        if parts_distinct(ps, sorted) && no_part(ps, sorted, row_part(ps, r)) {
            assert(parts_distinct(ps, init)) by {
                assert forall|i: int, j: int| 0 <= i < j < init.len() implies row_part(ps, #[trigger] init[i])
                    != row_part(ps, #[trigger] init[j]) by {
                    assert(init[i] == sorted[i] && init[j] == sorted[j]);
                }
            }
            assert(no_part(ps, init, row_part(ps, r))) by {
                assert forall|i: int| 0 <= i < init.len() implies row_part(ps, #[trigger] init[i]) != row_part(ps, r) by {
                    assert(init[i] == sorted[i]);
                }
            }
            assert(no_part(ps, init, row_part(ps, last))) by {
                assert forall|i: int| 0 <= i < init.len() implies row_part(ps, #[trigger] init[i]) != row_part(
                    ps,
                    last,
                ) by {
                    assert(init[i] == sorted[i]);
                    assert(sorted[sorted.len() - 1] == last);
                }
            }
            assert(row_part(ps, r) != row_part(ps, last)) by {
                assert(sorted[sorted.len() - 1] == last);
            }
            lemma_insert_score_keeps(ps, init, r, 0, row_part(ps, last));
            assert forall|i: int, j: int| 0 <= i < j < u.len() implies row_part(ps, #[trigger] u[i]) != row_part(
                ps,
                #[trigger] u[j],
            ) by {
                assert(u[i] == t[i]);
                if j < t.len() {
                    assert(u[j] == t[j]);
                } else {
                    assert(u[j] == last);
                }
            }
        }
    }
}

proof fn lemma_by_score_no_part(ps: Seq<PlayKey>, rows: Seq<(int, Seq<char>, int)>, q: (Seq<char>, Seq<char>))
    requires
        no_part(ps, rows, q),
    ensures
        no_part(ps, by_score(ps, rows), q),
    decreases rows.len(),
{
    if rows.len() > 0 {
        let init = rows.drop_last();
        assert(no_part(ps, init, q)) by {
            assert forall|i: int| 0 <= i < init.len() implies row_part(ps, #[trigger] init[i]) != q by {
                assert(init[i] == rows[i]);
            }
        }
        assert(row_part(ps, rows[rows.len() - 1]) != q);
        lemma_by_score_no_part(ps, init, q);
        lemma_insert_score_keeps(ps, by_score(ps, init), rows.last(), 0, q);
    }
}

proof fn lemma_by_score(ps: Seq<PlayKey>, rows: Seq<(int, Seq<char>, int)>)
    ensures
        scores_descending(ps, by_score(ps, rows)),
        parts_distinct(ps, rows) ==> parts_distinct(ps, by_score(ps, rows)),
    decreases rows.len(),
{
    if rows.len() > 0 {
        let init = rows.drop_last();
        let last = rows.last();
        lemma_by_score(ps, init);
        lemma_insert_score(ps, by_score(ps, init), last);
        if parts_distinct(ps, rows) {
            assert(parts_distinct(ps, init)) by {
                assert forall|i: int, j: int| 0 <= i < j < init.len() implies row_part(ps, #[trigger] init[i])
                    != row_part(ps, #[trigger] init[j]) by {
                    assert(init[i] == rows[i] && init[j] == rows[j]);
                }
            }
            assert(no_part(ps, init, row_part(ps, last))) by {
                assert forall|i: int| 0 <= i < init.len() implies row_part(ps, #[trigger] init[i]) != row_part(
                    ps,
                    last,
                ) by {
                    assert(init[i] == rows[i]);
                    assert(rows[rows.len() - 1] == last);
                }
            }
            lemma_by_score_no_part(ps, init, row_part(ps, last));
        }
    }
}

/// A song's scores show at most one row for each instrument and difficulty,
/// from the highest score down.
pub proof fn lemma_song_scores_shape(ps: Seq<PlayKey>, a: Seq<char>)
    ensures
        parts_distinct(ps, song_scores(ps, a)),
        scores_descending(ps, song_scores(ps, a)),
{
    let kept = kept_plays(ps, a, artist_matters(ps, a), ps.len() as int);
    let b = best_plays(ps, merged_plays(ps, kept));
    lemma_best_distinct(ps, merged_plays(ps, kept));
    lemma_by_score(ps, b);
}


// ---------------------------------------------------------------- dates of scores and files

/// What chrono prints for the UTC time `secs` seconds after the Unix epoch
/// with format `fmt`, or `None` where chrono has no such time.
pub uninterp spec fn utc_text(secs: i64, fmt: Seq<char>) -> Option<Seq<char>>;

pub open spec fn minutes_format() -> Seq<char> {
    "%Y-%m-%d %H:%M"@
}

pub open spec fn seconds_format() -> Seq<char> {
    "%Y-%m-%d %H:%M:%S"@
}

/// `chrono::DateTime::from_timestamp(secs, 0)` and `format(fmt).to_string()`;
/// the result is named `utc_text`. The format is one of the two valid ones
/// used here (an invalid one makes `to_string` panic).
#[verifier::external_body]
fn format_utc(secs: i64, fmt: &str) -> (r: Option<String>)
    requires
        fmt@ == minutes_format() || fmt@ == seconds_format(),
    ensures
        match r {
            Some(s) => utc_text(secs, fmt@) == Some(s@),
            None => utc_text(secs, fmt@) is None,
        },
{
    chrono::DateTime::from_timestamp(secs, 0).map(|d| d.format(fmt).to_string())
}

/// Ticks of .NET `DateTime` (100 ns since 0001-01-01) at the Unix epoch.
pub const DOTNET_EPOCH_TICKS: i64 = 621355968000000000;

/// The Unix seconds of a .NET tick count (the division rounding toward
/// zero, as `i64` division does), where the subtraction fits in an `i64`.
pub open spec fn ticks_secs(ticks: i64) -> Option<int> {
    let d = ticks - DOTNET_EPOCH_TICKS;
    if d < i64::MIN {
        None
    } else if d >= 0 {
        Some(d / 10_000_000)
    } else {
        Some(-((-d) / 10_000_000))
    }
}

/// The date of a play, `YYYY-MM-DD HH:MM` in UTC, from its .NET tick count;
/// empty where the time is out of chrono's range or before what the ticks
/// can count from.
pub fn score_date(ticks: i64) -> (r: String)
    ensures
        r@ == match ticks_secs(ticks) {
            Some(secs) => match utc_text(secs as i64, minutes_format()) {
                Some(t) => t,
                None => Seq::empty(),
            },
            None => Seq::empty(),
        },
{
    match ticks.checked_sub(DOTNET_EPOCH_TICKS) {
        Some(d) => {
            let secs: i64 = if d >= 0 {
                d / 10_000_000
            } else {
                let nd: u64 = ((0 - (d + 1)) as u64) + 1;
                assert(nd == -d);
                let q: u64 = nd / 10_000_000;
                assert(q <= 922_337_203_686) by (nonlinear_arith)
                    requires
                        q == nd / 10_000_000,
                        nd <= 9_223_372_036_854_775_808,
                ;
                -(q as i64)
            };
            match format_utc(secs, "%Y-%m-%d %H:%M") {
                Some(t) => t,
                None => String::new(),
            }
        },
        None => String::new(),
    }
}

/// When a file was last changed, `YYYY-MM-DD HH:MM:SS` in UTC, from its Unix
/// seconds (taken as an `i64`); the epoch's text where chrono has no such
/// time.
pub fn file_time_text(secs: u64) -> (r: String)
    ensures
        r@ == match utc_text(secs as i64, seconds_format()) {
            Some(t) => t,
            None => match utc_text(0, seconds_format()) {
                Some(t) => t,
                None => Seq::empty(),
            },
        },
{
    match format_utc(secs as i64, "%Y-%m-%d %H:%M:%S") {
        Some(t) => t,
        None => match format_utc(0, "%Y-%m-%d %H:%M:%S") {
            Some(t) => t,
            None => String::new(),
        },
    }
}

} // verus!
