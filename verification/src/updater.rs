//! Version comparison for the update check.
use vstd::prelude::*;
use crate::text::{ascii_lower, chars_eq_ignore_ascii_case, chars_ends_with, chars_starts_with, eq_ignore_ascii_case, ends_with, lower_ascii_char, starts_with, string_from_chars, sub_chars, chars_of, parse_u64, split_chars, split_on, trim, trimmed, views, digits_bounded, all_digits, digits_value, is_digit};

verus! {

pub struct UpdateInfo {
    pub version: String,
    pub url: String,
    pub notes: String,
    /// Direct download URL of the release's executable, if it ships one.
    pub download_url: Option<String>,
}

/// `s` without its leading `v`s and `V`s.
pub open spec fn strip_v(s: Seq<char>) -> Seq<char>
    decreases s.len(),
{
    if s.len() > 0 && (s[0] == 'v' || s[0] == 'V') {
        strip_v(s.drop_first())
    } else {
        s
    }
}

/// How many ASCII digits `s` starts with.
pub open spec fn digit_run(s: Seq<char>) -> int
    decreases s.len(),
{
    if s.len() > 0 && is_digit(s[0]) {
        1 + digit_run(s.drop_first())
    } else {
        0
    }
}

/// The number a version part starts with; 0 where it starts with no digit
/// or the number does not fit 64 bits.
pub open spec fn part_value(p: Seq<char>) -> u64 {
    match parse_u64(p.take(digit_run(p))) {
        Some(v) => v,
        None => 0,
    }
}

/// The numeric parts of a version such as "v1.2.3": trimmed, without
/// leading `v`/`V`, split at each `.`.
pub open spec fn version_parts(v: Seq<char>) -> Seq<u64> {
    split_on(strip_v(trim(v)), '.').map_values(|p: Seq<char>| part_value(p))
}

pub open spec fn part_at(p: Seq<u64>, i: int) -> u64 {
    if 0 <= i < p.len() {
        p[i]
    } else {
        0
    }
}

/// Whether `l` is ahead of `c` from part `i` on, missing parts counting as 0.
pub open spec fn ahead_from(l: Seq<u64>, c: Seq<u64>, i: int) -> bool
    decreases (if l.len() > c.len() { l.len() } else { c.len() }) - i,
{
    let n = if l.len() > c.len() {
        l.len()
    } else {
        c.len()
    };
    if i >= n || i < 0 {
        false
    } else if part_at(l, i) != part_at(c, i) {
        part_at(l, i) > part_at(c, i)
    } else {
        ahead_from(l, c, i + 1)
    }
}

fn strip_v_from(s: &[char]) -> (r: usize)
    ensures
        r <= s@.len(),
        s@.skip(r as int) == strip_v(s@),
{
    let mut i: usize = 0;
    assert(s@.skip(0) =~= s@);
    while i < s.len() && (s[i] == 'v' || s[i] == 'V')
        invariant
            i <= s@.len(),
            strip_v(s@.skip(i as int)) == strip_v(s@),
        decreases s@.len() - i,
    {
        assert(s@.skip(i as int).drop_first() =~= s@.skip(i + 1));
        i = i + 1;
    }
    i
}

fn part_number(p: &[char]) -> (r: u64)
    ensures
        r == part_value(p@),
{
    let mut k: usize = 0;
    assert(p@.skip(0) =~= p@);
    while k < p.len() && '0' <= p[k] && p[k] <= '9'
        invariant
            k <= p@.len(),
            forall|j: int| 0 <= j < k ==> is_digit(#[trigger] p@[j]),
            k + digit_run(p@.skip(k as int)) == digit_run(p@),
        decreases p@.len() - k,
    {
        assert(p@.skip(k as int).drop_first() =~= p@.skip(k + 1));
        k = k + 1;
    }
    assert(digit_run(p@.skip(k as int)) == 0);
    let ghost d = p@.take(k as int);
    assert(p@.subrange(0, k as int) =~= d);
    if k == 0 {
        return 0;
    }
    match digits_bounded(p, 0, k, u64::MAX) {
        Some(v) => v,
        None => 0,
    }
}

/// The numeric parts of a version string such as "v1.2.3".
pub fn parse_version(v: &str) -> (r: Vec<u64>)
    ensures
        r@ == version_parts(v@),
{
    let c = chars_of(v);
    let t = trimmed(c.as_slice());
    let start = strip_v_from(t.as_slice());
    let n = t.len();
    let rest = crate::text::sub_chars(t.as_slice(), start, n);
    assert(rest@ =~= t@.skip(start as int));
    let parts = split_chars(rest.as_slice(), '.');
    let mut r: Vec<u64> = Vec::new();
    let mut i: usize = 0;
    while i < parts.len()
        invariant
            i <= parts@.len(),
            r@.len() == i,
            forall|j: int| 0 <= j < i ==> #[trigger] r@[j] == part_value(parts@[j]@),
        decreases parts@.len() - i,
    {
        r.push(part_number(parts[i].as_slice()));
        i = i + 1;
    }
    assert(r@ =~= views(parts@).map_values(|p: Seq<char>| part_value(p)));
    r
}

/// Whether version `latest` is ahead of version `current`.
pub fn is_newer(latest: &str, current: &str) -> (b: bool)
    ensures
        b == ahead_from(version_parts(latest@), version_parts(current@), 0),
{
    let l = parse_version(latest);
    let c = parse_version(current);
    let n = if l.len() > c.len() {
        l.len()
    } else {
        c.len()
    };
    let mut i: usize = 0;
    while i < n
        invariant
            n == if l@.len() > c@.len() {
                l@.len()
            } else {
                c@.len()
            },
            i <= n,
            l@ == version_parts(latest@),
            c@ == version_parts(current@),
            ahead_from(l@, c@, i as int) == ahead_from(l@, c@, 0),
        decreases n - i,
    {
        let a = if i < l.len() {
            l[i]
        } else {
            0
        };
        let b = if i < c.len() {
            c[i]
        } else {
            0
        };
        assert(a == part_at(l@, i as int) && b == part_at(c@, i as int));
        if a != b {
            assert(ahead_from(l@, c@, i as int) == (a > b));
            return a > b;
        }
        i = i + 1;
    }
    false
}

proof fn lemma_ahead_irreflexive_from(l: Seq<u64>, i: int)
    ensures
        !ahead_from(l, l, i),
    decreases l.len() - i,
{
    if 0 <= i < l.len() {
        lemma_ahead_irreflexive_from(l, i + 1);
    }
}

proof fn lemma_ahead_asymmetric_from(l: Seq<u64>, c: Seq<u64>, i: int)
    ensures
        ahead_from(l, c, i) ==> !ahead_from(c, l, i),
    decreases (if l.len() > c.len() { l.len() } else { c.len() }) - i,
{
    let n = if l.len() > c.len() {
        l.len()
    } else {
        c.len()
    };
    if 0 <= i < n && part_at(l, i) == part_at(c, i) {
        lemma_ahead_asymmetric_from(l, c, i + 1);
    }
}

proof fn lemma_ahead_transitive_from(a: Seq<u64>, b: Seq<u64>, c: Seq<u64>, i: int)
    ensures
        ahead_from(a, b, i) && ahead_from(b, c, i) ==> ahead_from(a, c, i),
    decreases (if a.len() > b.len() { if a.len() > c.len() { a.len() } else { c.len() } } else { if b.len() > c.len() { b.len() } else { c.len() } }) - i,
{
    let m = if a.len() > b.len() {
        if a.len() > c.len() { a.len() } else { c.len() }
    } else {
        if b.len() > c.len() { b.len() } else { c.len() }
    };
    if 0 <= i < m {
        lemma_ahead_transitive_from(a, b, c, i + 1);
    }
}

/// Of three versions, one newer than a second that is newer than a third is
/// newer than the third.
pub proof fn lemma_is_newer_transitive(a: Seq<char>, b: Seq<char>, c: Seq<char>)
    ensures
        ahead_from(version_parts(a), version_parts(b), 0) && ahead_from(version_parts(b), version_parts(c), 0)
            ==> ahead_from(version_parts(a), version_parts(c), 0),
{
    lemma_ahead_transitive_from(version_parts(a), version_parts(b), version_parts(c), 0);
}

/// No version is newer than itself, and of two versions at most one is
/// newer than the other.
pub proof fn lemma_is_newer_order(a: Seq<char>, b: Seq<char>)
    ensures
        !ahead_from(version_parts(a), version_parts(a), 0),
        ahead_from(version_parts(a), version_parts(b), 0) ==> !ahead_from(
            version_parts(b),
            version_parts(a),
            0,
        ),
{
    lemma_ahead_irreflexive_from(version_parts(a), 0);
    lemma_ahead_asymmetric_from(version_parts(a), version_parts(b), 0);
}


// ---------------------------------------------------------------- releases

/// A downloadable file of a release.
pub struct ReleaseAsset {
    pub name: String,
    pub browser_download_url: String,
}

/// What the latest release says of itself.
pub struct Release {
    pub tag_name: String,
    pub html_url: String,
    pub name: String,
    pub body: Option<String>,
    pub draft: bool,
    pub prerelease: bool,
    pub assets: Vec<ReleaseAsset>,
}

/// The index of the first asset named `yargle.exe` (any ASCII case), from
/// `i` on; `assets.len()` where there is none.
pub open spec fn exact_asset(assets: Seq<ReleaseAsset>, i: int) -> int
    decreases assets.len() - i,
{
    if i < 0 || i >= assets.len() {
        assets.len() as int
    } else if eq_ignore_ascii_case(assets[i].name@, "yargle.exe"@) {
        i
    } else {
        exact_asset(assets, i + 1)
    }
}

/// The index of the first asset whose name ends with `.exe` (any ASCII
/// case), from `i` on; `assets.len()` where there is none.
pub open spec fn exe_asset(assets: Seq<ReleaseAsset>, i: int) -> int
    decreases assets.len() - i,
{
    if i < 0 || i >= assets.len() {
        assets.len() as int
    } else if ends_with(ascii_lower(assets[i].name@), ".exe"@) {
        i
    } else {
        exe_asset(assets, i + 1)
    }
}

/// The download offered for a release: the asset named `yargle.exe`, else
/// the first `.exe`, where its URL is a web URL.
pub open spec fn release_download(assets: Seq<ReleaseAsset>) -> Option<Seq<char>> {
    let e = exact_asset(assets, 0);
    let k = if e < assets.len() {
        e
    } else {
        exe_asset(assets, 0)
    };
    if k < assets.len() && starts_with(assets[k].browser_download_url@, "http"@) {
        Some(assets[k].browser_download_url@)
    } else {
        None
    }
}

fn lowered(s: &[char]) -> (r: Vec<char>)
    ensures
        r@ == ascii_lower(s@),
{
    let mut r: Vec<char> = Vec::new();
    let mut i: usize = 0;
    while i < s.len()
        invariant
            i <= s@.len(),
            r@ == ascii_lower(s@.take(i as int)),
        decreases s@.len() - i,
    {
        r.push(lower_ascii_char(s[i]));
        i = i + 1;
        assert(ascii_lower(s@.take(i as int)) =~= ascii_lower(s@.take(i - 1)).push(
            crate::text::ascii_lower_char(s@[i - 1]),
        ));
    }
    assert(s@.take(s@.len() as int) =~= s@);
    r
}

fn find_exact_asset(assets: &Vec<ReleaseAsset>) -> (r: usize)
    ensures
        r == exact_asset(assets@, 0),
{
    let want = chars_of("yargle.exe");
    let mut i: usize = 0;
    while i < assets.len()
        invariant
            i <= assets@.len(),
            want@ == "yargle.exe"@,
            exact_asset(assets@, i as int) == exact_asset(assets@, 0),
        decreases assets@.len() - i,
    {
        let n = chars_of(assets[i].name.as_str());
        if chars_eq_ignore_ascii_case(n.as_slice(), want.as_slice()) {
            return i;
        }
        i = i + 1;
    }
    i
}

fn find_exe_asset(assets: &Vec<ReleaseAsset>) -> (r: usize)
    ensures
        r == exe_asset(assets@, 0),
{
    let ext = chars_of(".exe");
    let mut i: usize = 0;
    while i < assets.len()
        invariant
            i <= assets@.len(),
            ext@ == ".exe"@,
            exe_asset(assets@, i as int) == exe_asset(assets@, 0),
        decreases assets@.len() - i,
    {
        let n = chars_of(assets[i].name.as_str());
        let l = lowered(n.as_slice());
        if chars_ends_with(l.as_slice(), ext.as_slice()) {
            return i;
        }
        i = i + 1;
    }
    i
}

fn strip_v_text(s: &str) -> (r: String)
    ensures
        r@ == strip_v(s@),
{
    let c = chars_of(s);
    let k = strip_v_from(c.as_slice());
    let rest = sub_chars(c.as_slice(), k, c.len());
    assert(rest@ =~= c@.skip(k as int));
    string_from_chars(rest.as_slice())
}

/// The update a release offers the running version `current`: none for a
/// draft, a pre-release or a release that is not newer.
pub fn update_from_release(release: &Release, current: &str) -> (r: Option<UpdateInfo>)
    ensures
        r is None <==> (release.draft || release.prerelease || !ahead_from(
            version_parts(release.tag_name@),
            version_parts(current@),
            0,
        )),
        r matches Some(u) ==> {
            &&& u.version@ == strip_v(release.tag_name@)
            &&& u.url@ == release.html_url@
            &&& u.notes@ == (match release.body {
                Some(b) => if b@.len() > 0 {
                    b@
                } else {
                    release.name@
                },
                None => release.name@,
            })
            &&& match u.download_url {
                Some(d) => release_download(release.assets@) == Some(d@),
                None => release_download(release.assets@) is None,
            }
        },
{
    if release.draft || release.prerelease || !is_newer(release.tag_name.as_str(), current) {
        return None;
    }
    let e = find_exact_asset(&release.assets);
    let k = if e < release.assets.len() {
        e
    } else {
        find_exe_asset(&release.assets)
    };
    let http = chars_of("http");
    let download_url = if k < release.assets.len() {
        let u = chars_of(release.assets[k].browser_download_url.as_str());
        if chars_starts_with(u.as_slice(), http.as_slice()) {
            Some(release.assets[k].browser_download_url.clone())
        } else {
            None
        }
    } else {
        None
    };
    let notes = match &release.body {
        Some(b) => if b.as_str().unicode_len() > 0 {
            b.clone()
        } else {
            release.name.clone()
        },
        None => release.name.clone(),
    };
    Some(UpdateInfo {
        version: strip_v_text(release.tag_name.as_str()),
        url: release.html_url.clone(),
        notes,
        download_url,
    })
}

/// Whether a downloaded update looks like a Windows program: it opens with
/// `MZ`.
pub fn looks_like_exe(head: &[u8]) -> (b: bool)
    ensures
        b == (head@.len() >= 2 && head@[0] == 0x4D && head@[1] == 0x5A),
{
    head.len() >= 2 && head[0] == 0x4D && head[1] == 0x5A
}

} // verus!
