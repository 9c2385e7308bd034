//! Checks a song's metadata for the problems that make YARG skip or mislabel it.
use vstd::prelude::*;
use crate::dta::types::{IssueSpec, MetaSpec, SongMetadata, ValidationIssue, ValidationLevel};
use crate::text::{chars_of, i64_to_dec, int_to_dec, string_from_chars, trim, trim_bounds};

verus! {

pub open spec fn issue(level: ValidationLevel, field: Seq<char>, message: Seq<char>) -> IssueSpec {
    IssueSpec { level, field, message }
}

pub open spec fn blank(s: Seq<char>) -> bool {
    trim(s).len() == 0
}

pub open spec fn rank_unset(r: Option<i32>) -> bool {
    r is None || r == Some(0i32)
}

/// Every difficulty rank is missing or zero.
pub open spec fn all_ranks_unset(m: MetaSpec) -> bool {
    &&& rank_unset(m.rank_drum)
    &&& rank_unset(m.rank_guitar)
    &&& rank_unset(m.rank_bass)
    &&& rank_unset(m.rank_vocals)
    &&& rank_unset(m.rank_keys)
    &&& rank_unset(m.rank_band)
    &&& rank_unset(m.rank_real_guitar)
    &&& rank_unset(m.rank_real_bass)
    &&& rank_unset(m.rank_real_keys)
}

pub open spec fn when(c: bool, i: IssueSpec) -> Seq<IssueSpec> {
    if c {
        seq![i]
    } else {
        Seq::empty()
    }
}

pub open spec fn year_message(y: i32) -> Seq<char> {
    "Year "@ + int_to_dec(y as int) + " looks invalid (expected 1900–2030)"@
}

/// The errors found in `m`, in the order they are checked.
pub open spec fn error_issues(m: MetaSpec) -> Seq<IssueSpec> {
    when(blank(m.name), issue(ValidationLevel::Error, "name"@, "Song title is empty"@)) + when(
        blank(m.artist),
        issue(ValidationLevel::Error, "artist"@, "Artist is empty"@),
    )
}

/// The warnings found in `m`, in the order they are checked.
pub open spec fn warning_issues(m: MetaSpec) -> Seq<IssueSpec> {
    when(blank(m.shortname), issue(ValidationLevel::Warning, "shortname"@, "Shortname is empty"@))
        + when(blank(m.genre), issue(ValidationLevel::Warning, "genre"@, "Genre is empty"@))
        + when(
        all_ranks_unset(m),
        issue(ValidationLevel::Warning, "ranks"@, "All difficulty ranks are missing or zero"@),
    ) + when(
        m.song_length is None,
        issue(ValidationLevel::Warning, "song_length"@, "Song length is not set"@),
    ) + when(
        m.song_length matches Some(len) && len <= 0,
        issue(ValidationLevel::Warning, "song_length"@, "Song length is zero or negative"@),
    ) + when(
        blank(m.author),
        issue(ValidationLevel::Warning, "author"@, "Charter/author is empty"@),
    ) + when(
        m.year_released is None,
        issue(ValidationLevel::Warning, "year_released"@, "Year released is not set"@),
    ) + when(
        m.year_released matches Some(y) && (y < 1900 || y > 2030),
        issue(ValidationLevel::Warning, "year_released"@, year_message(m.year_released->0)),
    ) + when(
        blank(m.album_name),
        issue(ValidationLevel::Warning, "album_name"@, "Album name is empty"@),
    ) + when(
        blank(m.game_origin) || m.game_origin == "ugc_plus"@,
        issue(
            ValidationLevel::Warning,
            "game_origin"@,
            if m.game_origin == "ugc_plus"@ {
                "Game origin is default 'ugc_plus'"@
            } else {
                "Game origin is empty"@
            },
        ),
    )
}

/// The notes found in `m`, in the order they are checked.
pub open spec fn info_issues(m: MetaSpec, has_thumbnail: bool) -> Seq<IssueSpec> {
    when(!has_thumbnail, issue(ValidationLevel::Info, "thumbnail"@, "No album art / thumbnail"@))
        + when(
        m.preview_start is None,
        issue(ValidationLevel::Info, "preview_start"@, "Preview start time is not set"@),
    ) + when(
        m.rating is None,
        issue(ValidationLevel::Info, "rating"@, "Content rating is not set"@),
    )
}

/// Everything `validate_metadata` reports, errors first, then warnings, then info.
pub open spec fn validation_issues(m: MetaSpec, has_thumbnail: bool) -> Seq<IssueSpec> {
    error_issues(m) + warning_issues(m) + info_issues(m, has_thumbnail)
}

pub open spec fn issue_views(v: Seq<ValidationIssue>) -> Seq<IssueSpec> {
    v.map_values(|i: ValidationIssue| i@)
}

fn make_issue(level: ValidationLevel, field: &str, message: &str) -> (r: ValidationIssue)
    ensures
        r@ == issue(level, field@, message@),
{
    ValidationIssue { level, field: String::from_str(field), message: String::from_str(message) }
}

fn is_blank(s: &String) -> (b: bool)
    ensures
        b == blank(s@),
{
    let c = chars_of(s.as_str());
    let (a, e) = trim_bounds(c.as_slice());
    a == e
}

fn push_if(v: &mut Vec<ValidationIssue>, c: bool, i: ValidationIssue)
    ensures
        issue_views(final(v)@) == issue_views(old(v)@) + when(c, i@),
{
    let ghost before = issue_views(v@);
    if c {
        v.push(i);
        assert(issue_views(v@) =~= before + when(c, i@));
    } else {
        assert(issue_views(v@) =~= before + when(c, i@));
    }
}

fn unset(r: Option<i32>) -> (b: bool)
    ensures
        b == rank_unset(r),
{
    match r {
        None => true,
        Some(v) => v == 0,
    }
}

fn error_list(m: &SongMetadata) -> (v: Vec<ValidationIssue>)
    ensures
        issue_views(v@) == error_issues(m@),
{
    let mut v: Vec<ValidationIssue> = Vec::new();
    assert(issue_views(v@) =~= Seq::<IssueSpec>::empty());
    push_if(&mut v, is_blank(&m.name), make_issue(ValidationLevel::Error, "name", "Song title is empty"));
    push_if(&mut v, is_blank(&m.artist), make_issue(ValidationLevel::Error, "artist", "Artist is empty"));
    assert(issue_views(v@) =~= error_issues(m@));
    v
}

fn year_issue(y: i32) -> (i: ValidationIssue)
    ensures
        i@ == issue(ValidationLevel::Warning, "year_released"@, year_message(y)),
{
    let mut msg = chars_of("Year ");
    let mut num = i64_to_dec(y as i64);
    msg.append(&mut num);
    let mut tail = chars_of(" looks invalid (expected 1900–2030)");
    msg.append(&mut tail);
    let text = string_from_chars(msg.as_slice());
    ValidationIssue { level: ValidationLevel::Warning, field: String::from_str("year_released"), message: text }
}

#[verifier::rlimit(40)]
fn warning_list(m: &SongMetadata) -> (v: Vec<ValidationIssue>)
    ensures
        issue_views(v@) == warning_issues(m@),
{
    let mut v: Vec<ValidationIssue> = Vec::new();
    let ghost w = m@;
    assert(issue_views(v@) =~= Seq::<IssueSpec>::empty());
    push_if(&mut v, is_blank(&m.shortname), make_issue(ValidationLevel::Warning, "shortname", "Shortname is empty"));
    push_if(&mut v, is_blank(&m.genre), make_issue(ValidationLevel::Warning, "genre", "Genre is empty"));
    let ranks_unset = unset(m.rank_drum) && unset(m.rank_guitar) && unset(m.rank_bass) && unset(m.rank_vocals)
        && unset(m.rank_keys) && unset(m.rank_band) && unset(m.rank_real_guitar) && unset(m.rank_real_bass)
        && unset(m.rank_real_keys);
    push_if(&mut v, ranks_unset, make_issue(ValidationLevel::Warning, "ranks", "All difficulty ranks are missing or zero"));
    push_if(&mut v, m.song_length.is_none(), make_issue(ValidationLevel::Warning, "song_length", "Song length is not set"));
    let short = match m.song_length {
        Some(len) => len <= 0,
        None => false,
    };
    push_if(&mut v, short, make_issue(ValidationLevel::Warning, "song_length", "Song length is zero or negative"));
    push_if(&mut v, is_blank(&m.author), make_issue(ValidationLevel::Warning, "author", "Charter/author is empty"));
    push_if(&mut v, m.year_released.is_none(), make_issue(ValidationLevel::Warning, "year_released", "Year released is not set"));
    let ghost mid = issue_views(v@);
    match m.year_released {
        Some(y) => {
            push_if(&mut v, y < 1900 || y > 2030, year_issue(y));
        },
        None => {
            push_if(&mut v, false, make_issue(ValidationLevel::Warning, "year_released", ""));
        },
    }
    push_if(&mut v, is_blank(&m.album_name), make_issue(ValidationLevel::Warning, "album_name", "Album name is empty"));
    let ugc = m.game_origin == String::from_str("ugc_plus");
    let origin_blank = is_blank(&m.game_origin);
    if ugc {
        push_if(&mut v, true, make_issue(ValidationLevel::Warning, "game_origin", "Game origin is default 'ugc_plus'"));
    } else {
        push_if(&mut v, origin_blank, make_issue(ValidationLevel::Warning, "game_origin", "Game origin is empty"));
    }
    assert(issue_views(v@) =~= warning_issues(m@));
    v
}

fn info_list(m: &SongMetadata, has_thumbnail: bool) -> (v: Vec<ValidationIssue>)
    ensures
        issue_views(v@) == info_issues(m@, has_thumbnail),
{
    let mut v: Vec<ValidationIssue> = Vec::new();
    assert(issue_views(v@) =~= Seq::<IssueSpec>::empty());
    push_if(&mut v, !has_thumbnail, make_issue(ValidationLevel::Info, "thumbnail", "No album art / thumbnail"));
    push_if(&mut v, m.preview_start.is_none(), make_issue(ValidationLevel::Info, "preview_start", "Preview start time is not set"));
    push_if(&mut v, m.rating.is_none(), make_issue(ValidationLevel::Info, "rating", "Content rating is not set"));
    assert(issue_views(v@) =~= info_issues(m@, has_thumbnail));
    v
}

/// Checks `meta` for missing or implausible fields. The issues come errors
/// first, then warnings, then info, each group in the order of the checks.
pub fn validate_metadata(meta: &SongMetadata, has_thumbnail: bool) -> (issues: Vec<ValidationIssue>)
    ensures
        issue_views(issues@) == validation_issues(meta@, has_thumbnail),
{
    let mut v = error_list(meta);
    let mut w = warning_list(meta);
    let mut i = info_list(meta, has_thumbnail);
    let ghost (a, b, c) = (v@, w@, i@);
    v.append(&mut w);
    v.append(&mut i);
    assert(v@ =~= a + b + c);
    assert(issue_views(v@) =~= issue_views(a) + issue_views(b) + issue_views(c));
    v
}


/// Whether every issue of `s` has level `l`.
pub open spec fn all_at(s: Seq<IssueSpec>, l: ValidationLevel) -> bool {
    forall|i: int| 0 <= i < s.len() ==> (#[trigger] s[i]).level == l
}

proof fn lemma_when_at(c: bool, i: IssueSpec, l: ValidationLevel)
    requires
        i.level == l,
    ensures
        all_at(when(c, i), l),
{
}

proof fn lemma_concat_at(a: Seq<IssueSpec>, b: Seq<IssueSpec>, l: ValidationLevel)
    requires
        all_at(a, l),
        all_at(b, l),
    ensures
        all_at(a + b, l),
{
    assert forall|i: int| 0 <= i < (a + b).len() implies (#[trigger] (a + b)[i]).level == l by {
        if i < a.len() {
            assert((a + b)[i] == a[i]);
        } else {
            assert((a + b)[i] == b[i - a.len()]);
        }
    }
}

proof fn lemma_warnings_at(m: MetaSpec)
    ensures
        all_at(warning_issues(m), ValidationLevel::Warning),
{
    let wa = ValidationLevel::Warning;
    lemma_when_at(blank(m.shortname), issue(ValidationLevel::Warning, "shortname"@, "Shortname is empty"@), wa);
    lemma_when_at(blank(m.genre), issue(ValidationLevel::Warning, "genre"@, "Genre is empty"@), wa);
    lemma_concat_at(when(blank(m.shortname), issue(ValidationLevel::Warning, "shortname"@, "Shortname is empty"@)), when(blank(m.genre), issue(ValidationLevel::Warning, "genre"@, "Genre is empty"@)), wa);
    lemma_when_at(all_ranks_unset(m), issue(ValidationLevel::Warning, "ranks"@, "All difficulty ranks are missing or zero"@), wa);
    lemma_concat_at(when(blank(m.shortname), issue(ValidationLevel::Warning, "shortname"@, "Shortname is empty"@)) + when(blank(m.genre), issue(ValidationLevel::Warning, "genre"@, "Genre is empty"@)), when(
        all_ranks_unset(m),
        issue(ValidationLevel::Warning, "ranks"@, "All difficulty ranks are missing or zero"@),
    ), wa);
    lemma_when_at(m.song_length is None, issue(ValidationLevel::Warning, "song_length"@, "Song length is not set"@), wa);
    lemma_concat_at(when(blank(m.shortname), issue(ValidationLevel::Warning, "shortname"@, "Shortname is empty"@)) + when(blank(m.genre), issue(ValidationLevel::Warning, "genre"@, "Genre is empty"@)) + when(
        all_ranks_unset(m),
        issue(ValidationLevel::Warning, "ranks"@, "All difficulty ranks are missing or zero"@),
    ), when(
        m.song_length is None,
        issue(ValidationLevel::Warning, "song_length"@, "Song length is not set"@),
    ), wa);
    lemma_when_at(m.song_length matches Some(len) && len <= 0, issue(ValidationLevel::Warning, "song_length"@, "Song length is zero or negative"@), wa);
    lemma_concat_at(when(blank(m.shortname), issue(ValidationLevel::Warning, "shortname"@, "Shortname is empty"@)) + when(blank(m.genre), issue(ValidationLevel::Warning, "genre"@, "Genre is empty"@)) + when(
        all_ranks_unset(m),
        issue(ValidationLevel::Warning, "ranks"@, "All difficulty ranks are missing or zero"@),
    ) + when(
        m.song_length is None,
        issue(ValidationLevel::Warning, "song_length"@, "Song length is not set"@),
    ), when(
        m.song_length matches Some(len) && len <= 0,
        issue(ValidationLevel::Warning, "song_length"@, "Song length is zero or negative"@),
    ), wa);
    lemma_when_at(blank(m.author), issue(ValidationLevel::Warning, "author"@, "Charter/author is empty"@), wa);
    lemma_concat_at(when(blank(m.shortname), issue(ValidationLevel::Warning, "shortname"@, "Shortname is empty"@)) + when(blank(m.genre), issue(ValidationLevel::Warning, "genre"@, "Genre is empty"@)) + when(
        all_ranks_unset(m),
        issue(ValidationLevel::Warning, "ranks"@, "All difficulty ranks are missing or zero"@),
    ) + when(
        m.song_length is None,
        issue(ValidationLevel::Warning, "song_length"@, "Song length is not set"@),
    ) + when(
        m.song_length matches Some(len) && len <= 0,
        issue(ValidationLevel::Warning, "song_length"@, "Song length is zero or negative"@),
    ), when(
        blank(m.author),
        issue(ValidationLevel::Warning, "author"@, "Charter/author is empty"@),
    ), wa);
    lemma_when_at(m.year_released is None, issue(ValidationLevel::Warning, "year_released"@, "Year released is not set"@), wa);
    lemma_concat_at(when(blank(m.shortname), issue(ValidationLevel::Warning, "shortname"@, "Shortname is empty"@)) + when(blank(m.genre), issue(ValidationLevel::Warning, "genre"@, "Genre is empty"@)) + when(
        all_ranks_unset(m),
        issue(ValidationLevel::Warning, "ranks"@, "All difficulty ranks are missing or zero"@),
    ) + when(
        m.song_length is None,
        issue(ValidationLevel::Warning, "song_length"@, "Song length is not set"@),
    ) + when(
        m.song_length matches Some(len) && len <= 0,
        issue(ValidationLevel::Warning, "song_length"@, "Song length is zero or negative"@),
    ) + when(
        blank(m.author),
        issue(ValidationLevel::Warning, "author"@, "Charter/author is empty"@),
    ), when(
        m.year_released is None,
        issue(ValidationLevel::Warning, "year_released"@, "Year released is not set"@),
    ), wa);
    lemma_when_at(m.year_released matches Some(y) && (y < 1900 || y > 2030), issue(ValidationLevel::Warning, "year_released"@, year_message(m.year_released->0)), wa);
    lemma_concat_at(when(blank(m.shortname), issue(ValidationLevel::Warning, "shortname"@, "Shortname is empty"@)) + when(blank(m.genre), issue(ValidationLevel::Warning, "genre"@, "Genre is empty"@)) + when(
        all_ranks_unset(m),
        issue(ValidationLevel::Warning, "ranks"@, "All difficulty ranks are missing or zero"@),
    ) + when(
        m.song_length is None,
        issue(ValidationLevel::Warning, "song_length"@, "Song length is not set"@),
    ) + when(
        m.song_length matches Some(len) && len <= 0,
        issue(ValidationLevel::Warning, "song_length"@, "Song length is zero or negative"@),
    ) + when(
        blank(m.author),
        issue(ValidationLevel::Warning, "author"@, "Charter/author is empty"@),
    ) + when(
        m.year_released is None,
        issue(ValidationLevel::Warning, "year_released"@, "Year released is not set"@),
    ), when(
        m.year_released matches Some(y) && (y < 1900 || y > 2030),
        issue(ValidationLevel::Warning, "year_released"@, year_message(m.year_released->0)),
    ), wa);
    lemma_when_at(blank(m.album_name), issue(ValidationLevel::Warning, "album_name"@, "Album name is empty"@), wa);
    lemma_concat_at(when(blank(m.shortname), issue(ValidationLevel::Warning, "shortname"@, "Shortname is empty"@)) + when(blank(m.genre), issue(ValidationLevel::Warning, "genre"@, "Genre is empty"@)) + when(
        all_ranks_unset(m),
        issue(ValidationLevel::Warning, "ranks"@, "All difficulty ranks are missing or zero"@),
    ) + when(
        m.song_length is None,
        issue(ValidationLevel::Warning, "song_length"@, "Song length is not set"@),
    ) + when(
        m.song_length matches Some(len) && len <= 0,
        issue(ValidationLevel::Warning, "song_length"@, "Song length is zero or negative"@),
    ) + when(
        blank(m.author),
        issue(ValidationLevel::Warning, "author"@, "Charter/author is empty"@),
    ) + when(
        m.year_released is None,
        issue(ValidationLevel::Warning, "year_released"@, "Year released is not set"@),
    ) + when(
        m.year_released matches Some(y) && (y < 1900 || y > 2030),
        issue(ValidationLevel::Warning, "year_released"@, year_message(m.year_released->0)),
    ), when(
        blank(m.album_name),
        issue(ValidationLevel::Warning, "album_name"@, "Album name is empty"@),
    ), wa);
    lemma_when_at(blank(m.game_origin) || m.game_origin == "ugc_plus"@, issue(
            ValidationLevel::Warning,
            "game_origin"@,
            if m.game_origin == "ugc_plus"@ {
                "Game origin is default 'ugc_plus'"@
            } else {
                "Game origin is empty"@
            },
        ), wa);
    lemma_concat_at(when(blank(m.shortname), issue(ValidationLevel::Warning, "shortname"@, "Shortname is empty"@)) + when(blank(m.genre), issue(ValidationLevel::Warning, "genre"@, "Genre is empty"@)) + when(
        all_ranks_unset(m),
        issue(ValidationLevel::Warning, "ranks"@, "All difficulty ranks are missing or zero"@),
    ) + when(
        m.song_length is None,
        issue(ValidationLevel::Warning, "song_length"@, "Song length is not set"@),
    ) + when(
        m.song_length matches Some(len) && len <= 0,
        issue(ValidationLevel::Warning, "song_length"@, "Song length is zero or negative"@),
    ) + when(
        blank(m.author),
        issue(ValidationLevel::Warning, "author"@, "Charter/author is empty"@),
    ) + when(
        m.year_released is None,
        issue(ValidationLevel::Warning, "year_released"@, "Year released is not set"@),
    ) + when(
        m.year_released matches Some(y) && (y < 1900 || y > 2030),
        issue(ValidationLevel::Warning, "year_released"@, year_message(m.year_released->0)),
    ) + when(
        blank(m.album_name),
        issue(ValidationLevel::Warning, "album_name"@, "Album name is empty"@),
    ), when(
        blank(m.game_origin) || m.game_origin == "ugc_plus"@,
        issue(
            ValidationLevel::Warning,
            "game_origin"@,
            if m.game_origin == "ugc_plus"@ {
                "Game origin is default 'ugc_plus'"@
            } else {
                "Game origin is empty"@
            },
        ),
    ), wa);
}

/// Whether some issue of `s` is about `field`.
pub open spec fn has_field(s: Seq<IssueSpec>, field: Seq<char>) -> bool {
    exists|i: int| 0 <= i < s.len() && (#[trigger] s[i]).field == field
}

proof fn lemma_has_field_add(a: Seq<IssueSpec>, b: Seq<IssueSpec>, field: Seq<char>)
    ensures
        has_field(a + b, field) == (has_field(a, field) || has_field(b, field)),
{
    if has_field(a + b, field) {
        let i = choose|i: int| 0 <= i < (a + b).len() && (#[trigger] (a + b)[i]).field == field;
        if i < a.len() {
            assert((a + b)[i] == a[i]);
        } else {
            assert((a + b)[i] == b[i - a.len()]);
        }
    }
    if has_field(a, field) {
        let i = choose|i: int| 0 <= i < a.len() && (#[trigger] a[i]).field == field;
        assert((a + b)[i] == a[i]);
    }
    if has_field(b, field) {
        let i = choose|i: int| 0 <= i < b.len() && (#[trigger] b[i]).field == field;
        assert((a + b)[i + a.len()] == b[i]);
    }
}

proof fn lemma_has_field_when(c: bool, x: IssueSpec, field: Seq<char>)
    ensures
        has_field(when(c, x), field) == (c && x.field == field),
{
    if c {
        assert(when(c, x)[0] == x);
    }
}

/// Whether every issue of `s` about `field` is `x`.
pub open spec fn only_as(s: Seq<IssueSpec>, field: Seq<char>, x: IssueSpec) -> bool {
    forall|i: int| 0 <= i < s.len() && (#[trigger] s[i]).field == field ==> s[i] == x
}

proof fn lemma_only_as_add(a: Seq<IssueSpec>, b: Seq<IssueSpec>, field: Seq<char>, x: IssueSpec)
    ensures
        only_as(a + b, field, x) == (only_as(a, field, x) && only_as(b, field, x)),
{
    if only_as(a + b, field, x) {
        assert forall|i: int| 0 <= i < a.len() && (#[trigger] a[i]).field == field implies a[i] == x by {
            assert((a + b)[i] == a[i]);
        }
        assert forall|i: int| 0 <= i < b.len() && (#[trigger] b[i]).field == field implies b[i] == x by {
            assert((a + b)[i + a.len()] == b[i]);
        }
    }
    if only_as(a, field, x) && only_as(b, field, x) {
        assert forall|i: int| 0 <= i < (a + b).len() && (#[trigger] (a + b)[i]).field == field implies (a + b)[i]
            == x by {
            if i < a.len() {
                assert((a + b)[i] == a[i]);
            } else {
                assert((a + b)[i] == b[i - a.len()]);
            }
        }
    }
}

/// A rank of zero counts as unset: the issues hold a `ranks` issue exactly
/// where every difficulty rank is missing or zero, and it is then the
/// warning that all difficulty ranks are missing or zero.
#[verifier::rlimit(40)]
pub proof fn lemma_ranks_warning(m: MetaSpec, has_thumbnail: bool)
    ensures
        has_field(validation_issues(m, has_thumbnail), "ranks"@) <==> {
            &&& (m.rank_drum is None || m.rank_drum == Some(0i32))
            &&& (m.rank_guitar is None || m.rank_guitar == Some(0i32))
            &&& (m.rank_bass is None || m.rank_bass == Some(0i32))
            &&& (m.rank_vocals is None || m.rank_vocals == Some(0i32))
            &&& (m.rank_keys is None || m.rank_keys == Some(0i32))
            &&& (m.rank_band is None || m.rank_band == Some(0i32))
            &&& (m.rank_real_guitar is None || m.rank_real_guitar == Some(0i32))
            &&& (m.rank_real_bass is None || m.rank_real_bass == Some(0i32))
            &&& (m.rank_real_keys is None || m.rank_real_keys == Some(0i32))
        },
        forall|i: int|
            0 <= i < validation_issues(m, has_thumbnail).len() && (#[trigger] validation_issues(m, has_thumbnail)[i]).field
                == "ranks"@ ==> validation_issues(m, has_thumbnail)[i] == issue(
                ValidationLevel::Warning,
                "ranks"@,
                "All difficulty ranks are missing or zero"@,
            ),
{
    reveal_strlit("ranks");
    reveal_strlit("name");
    reveal_strlit("artist");
    reveal_strlit("shortname");
    reveal_strlit("genre");
    reveal_strlit("song_length");
    reveal_strlit("author");
    reveal_strlit("year_released");
    reveal_strlit("album_name");
    reveal_strlit("game_origin");
    reveal_strlit("thumbnail");
    reveal_strlit("preview_start");
    reveal_strlit("rating");
    assert(forall|a: Seq<IssueSpec>, b: Seq<IssueSpec>, f: Seq<char>| #[trigger] has_field(a + b, f) == (has_field(a, f)
        || has_field(b, f))) by {
        assert forall|a: Seq<IssueSpec>, b: Seq<IssueSpec>, f: Seq<char>| #[trigger] has_field(a + b, f) == (
        has_field(a, f) || has_field(b, f)) by {
            lemma_has_field_add(a, b, f);
        }
    }
    assert(forall|c: bool, x: IssueSpec, f: Seq<char>| #[trigger] has_field(when(c, x), f) == (c && x.field == f)) by {
        assert forall|c: bool, x: IssueSpec, f: Seq<char>| #[trigger] has_field(when(c, x), f) == (c && x.field
            == f) by {
            lemma_has_field_when(c, x, f);
        }
    }
    assert("ranks"@.len() == 5 && "ranks"@[0] == 'r');
    assert("name"@.len() == 4);
    assert("artist"@.len() == 6);
    assert("shortname"@.len() == 9);
    assert("genre"@.len() == 5 && "genre"@[0] == 'g');
    assert("song_length"@.len() == 11);
    assert("author"@.len() == 6);
    assert("year_released"@.len() == 13);
    assert("album_name"@.len() == 10);
    assert("game_origin"@.len() == 11);
    assert("thumbnail"@.len() == 9);
    assert("preview_start"@.len() == 13);
    assert("rating"@.len() == 6);
    let s = validation_issues(m, has_thumbnail);
    assert(s == error_issues(m) + warning_issues(m) + info_issues(m, has_thumbnail));
    assert(!has_field(error_issues(m), "ranks"@));
    assert(has_field(warning_issues(m), "ranks"@) == all_ranks_unset(m));
    assert(!has_field(info_issues(m, has_thumbnail), "ranks"@));
    assert(has_field(s, "ranks"@) == all_ranks_unset(m));
    let w = issue(ValidationLevel::Warning, "ranks"@, "All difficulty ranks are missing or zero"@);
    assert(forall|a: Seq<IssueSpec>, b: Seq<IssueSpec>, f: Seq<char>, x: IssueSpec|
        #[trigger] only_as(a + b, f, x) == (only_as(a, f, x) && only_as(b, f, x))) by {
        assert forall|a: Seq<IssueSpec>, b: Seq<IssueSpec>, f: Seq<char>, x: IssueSpec|
            #[trigger] only_as(a + b, f, x) == (only_as(a, f, x) && only_as(b, f, x)) by {
            lemma_only_as_add(a, b, f, x);
        }
    }
    assert(forall|c: bool, y: IssueSpec, f: Seq<char>, x: IssueSpec|
        #[trigger] only_as(when(c, y), f, x) == (!c || y.field != f || y == x)) by {
        assert forall|c: bool, y: IssueSpec, f: Seq<char>, x: IssueSpec|
            #[trigger] only_as(when(c, y), f, x) == (!c || y.field != f || y == x) by {
            if c {
                assert(when(c, y)[0] == y);
            }
        }
    }
    assert(only_as(error_issues(m), "ranks"@, w));
    assert(only_as(warning_issues(m), "ranks"@, w));
    assert(only_as(info_issues(m, has_thumbnail), "ranks"@, w));
    assert(only_as(s, "ranks"@, w));
}

/// The issues come errors first, then warnings, then notes.
pub proof fn lemma_issues_ordered(m: MetaSpec, has_thumbnail: bool)
    ensures
        forall|i: int, j: int|
            0 <= i < j < validation_issues(m, has_thumbnail).len() ==> (#[trigger] validation_issues(
                m,
                has_thumbnail,
            )[i]).level.rank() <= (#[trigger] validation_issues(m, has_thumbnail)[j]).level.rank(),
{
    let e = error_issues(m);
    let w = warning_issues(m);
    let n = info_issues(m, has_thumbnail);
    let er = ValidationLevel::Error;
    let wa = ValidationLevel::Warning;
    let inf = ValidationLevel::Info;
    lemma_when_at(blank(m.name), issue(er, "name"@, "Song title is empty"@), er);
    lemma_when_at(blank(m.artist), issue(er, "artist"@, "Artist is empty"@), er);
    lemma_concat_at(
        when(blank(m.name), issue(er, "name"@, "Song title is empty"@)),
        when(blank(m.artist), issue(er, "artist"@, "Artist is empty"@)),
        er,
    );
    assert(all_at(e, er));
    lemma_warnings_at(m);
    lemma_when_at(!has_thumbnail, issue(inf, "thumbnail"@, "No album art / thumbnail"@), inf);
    lemma_when_at(m.preview_start is None, issue(inf, "preview_start"@, "Preview start time is not set"@), inf);
    lemma_when_at(m.rating is None, issue(inf, "rating"@, "Content rating is not set"@), inf);
    lemma_concat_at(
        when(!has_thumbnail, issue(inf, "thumbnail"@, "No album art / thumbnail"@)),
        when(m.preview_start is None, issue(inf, "preview_start"@, "Preview start time is not set"@)),
        inf,
    );
    lemma_concat_at(
        when(!has_thumbnail, issue(inf, "thumbnail"@, "No album art / thumbnail"@)) + when(
            m.preview_start is None,
            issue(inf, "preview_start"@, "Preview start time is not set"@),
        ),
        when(m.rating is None, issue(inf, "rating"@, "Content rating is not set"@)),
        inf,
    );
    assert(all_at(n, inf));
    let all = e + w + n;
    assert forall|i: int, j: int| 0 <= i < j < all.len() implies (#[trigger] all[i]).level.rank()
        <= (#[trigger] all[j]).level.rank() by {
        if i < e.len() {
            assert(all[i] == e[i]);
        } else if i < e.len() + w.len() {
            assert(all[i] == w[i - e.len()]);
        } else {
            assert(all[i] == n[i - e.len() - w.len()]);
        }
        if j < e.len() {
            assert(all[j] == e[j]);
        } else if j < e.len() + w.len() {
            assert(all[j] == w[j - e.len()]);
        } else {
            assert(all[j] == n[j - e.len() - w.len()]);
        }
    }
}

} // verus!
