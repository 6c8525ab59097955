//! Release checking: version parsing and ordering, choosing the installer
//! that fits this machine, and the update summary shown to the user.
//! Fetching the release and opening the installer happen in the
//! application; everything decided about them is here.
use vstd::prelude::*;
use crate::text::{
    after, after_chars, before, before_chars, chars_of, contains, contains_str, dec, ends_with,
    find_char2, first_pos2, lemma_trim_end_len, has_prefix_str, has_suffix_str, is_ws, lower, lower_chars, owned,
    parse_u64, parse_u64_spec, prefix, prefix_chars, push_chars, push_dec_u64, push_str,
    slice_chars, starts_with, string_of, trim, trim_chars, trim_end, trim_start,
    trim_start_either, trim_start_either_chars, trimmed,
};

verus! {

#[derive(Debug, Clone, Copy, PartialEq, Eq, PartialOrd, Ord, Structural)]
pub struct Version {
    pub major: u64,
    pub minor: u64,
    pub patch: u64,
}

#[derive(Debug, Clone, Copy, PartialEq, Eq, Structural)]
pub enum Os {
    Macos,
    Windows,
    Linux,
}

#[derive(Debug, Clone, Copy, PartialEq, Eq, Structural)]
pub enum Arch {
    Aarch64,
    X86_64,
}

#[derive(Debug, Clone, Copy, PartialEq, Eq, Structural)]
pub struct Platform {
    pub os: Os,
    pub arch: Arch,
}

#[derive(Debug, Clone)]
pub struct GitHubAsset {
    pub name: String,
    pub browser_download_url: String,
}

#[derive(Debug, Clone)]
pub struct GitHubRelease {
    pub tag_name: String,
    pub html_url: String,
    pub body: Option<String>,
    pub draft: bool,
    pub prerelease: bool,
    pub assets: Vec<GitHubAsset>,
}

#[derive(Debug, Clone, PartialEq, Eq)]
pub struct UpdateInfo {
    pub current_version: String,
    pub latest_version: String,
    pub available: bool,
    pub notes: String,
    pub html_url: String,
    pub asset_name: Option<String>,
    pub asset_url: Option<String>,
}

#[derive(Debug, Clone)]
pub struct UpdateEvent {
    pub stage: String,
    pub current: i64,
    pub total: i64,
}

#[derive(Debug)]
pub enum UpdateError {
    Network(String),
    RateLimited,
    Failed(String),
}

pub open spec fn update_error_text(e: UpdateError) -> Seq<char> {
    match e {
        UpdateError::Network(s) => "网络错误: "@ + s@,
        UpdateError::RateLimited => "GitHub 请求过于频繁，请稍后再试"@,
        UpdateError::Failed(s) => s@,
    }
}

impl UpdateError {
    /// The message shown to the user.
    pub fn message(&self) -> (r: String)
        ensures
            r@ == update_error_text(*self),
    {
        match self {
            UpdateError::Network(s) => {
                let mut v = chars_of("网络错误: ");
                let w = chars_of(s.as_str());
                push_chars(&mut v, &w);
                string_of(&v)
            },
            UpdateError::RateLimited => owned("GitHub 请求过于频繁，请稍后再试"),
            UpdateError::Failed(s) => s.clone(),
        }
    }
}

// ---------- addresses ----------

pub open spec fn download_prefix_spec() -> Seq<char> {
    "https://github.com/nikoart-liu/mudflat-knowledge/releases/download/"@
}

pub open spec fn releases_page_spec() -> Seq<char> {
    "https://github.com/nikoart-liu/mudflat-knowledge/releases/latest"@
}

pub open spec fn api_latest_spec() -> Seq<char> {
    "https://api.github.com/repos/nikoart-liu/mudflat-knowledge/releases/latest"@
}

/// Where the release API answers with the latest release.
pub fn api_latest_url() -> (r: String)
    ensures
        r@ == api_latest_spec(),
{
    owned("https://api.github.com/repos/nikoart-liu/mudflat-knowledge/releases/latest")
}

/// The public page of the latest release.
pub fn releases_page_url() -> (r: String)
    ensures
        r@ == releases_page_spec(),
{
    owned("https://github.com/nikoart-liu/mudflat-knowledge/releases/latest")
}

/// Every installer of this project is served below this address.
pub fn download_prefix() -> (r: String)
    ensures
        r@ == download_prefix_spec(),
{
    owned("https://github.com/nikoart-liu/mudflat-knowledge/releases/download/")
}

/// Only installers of this repository's releases may be downloaded.
pub fn allowed_download_url(url: &str) -> (r: bool)
    ensures
        r == starts_with(url@, download_prefix_spec()),
{
    let u = chars_of(url);
    has_prefix_str(&u, "https://github.com/nikoart-liu/mudflat-knowledge/releases/download/")
}

// ---------- versions ----------

/// The numeric field of a version part; a missing part counts as `0`.
pub open spec fn part_value(p: Option<Seq<char>>) -> Option<u64> {
    match p {
        Some(x) => parse_u64_spec(x),
        None => Some(0),
    }
}

/// The `major.minor.patch` core of a tag: trimmed, without leading `v`/`V`,
/// cut at the first `-` or `+`, trimmed again.
pub open spec fn version_core(raw: Seq<char>) -> Seq<char> {
    let s = trim_start_either(trim(raw), 'v', 'V');
    trim(s.take(first_pos2(s, '-', '+') as int))
}

/// `parse_version`: up to three dot-separated decimal fields of the core;
/// missing fields are `0`, a fourth field or a non-number rejects the tag.
pub open spec fn parse_version_spec(raw: Seq<char>) -> Option<Version> {
    let core = version_core(raw);
    let p1 = before(core, '.');
    let r1 = after(core, '.');
    let p2 = match r1 {
        Some(r) => Some(before(r, '.')),
        None => None,
    };
    let r2 = match r1 {
        Some(r) => after(r, '.'),
        None => None,
    };
    let p3 = match r2 {
        Some(r) => Some(before(r, '.')),
        None => None,
    };
    let r3 = match r2 {
        Some(r) => after(r, '.'),
        None => None,
    };
    if core.len() == 0 || r3 is Some {
        None
    } else {
        match (parse_u64_spec(p1), part_value(p2), part_value(p3)) {
            (Some(a), Some(b), Some(c)) => Some(Version { major: a, minor: b, patch: c }),
            _ => None,
        }
    }
}

/// Lexicographic order on `(major, minor, patch)`.
pub open spec fn version_gt(l: Version, c: Version) -> bool {
    ||| l.major > c.major
    ||| l.major == c.major && l.minor > c.minor
    ||| l.major == c.major && l.minor == c.minor && l.patch > c.patch
}

pub open spec fn is_newer_spec(latest: Seq<char>, current: Seq<char>) -> bool {
    match (parse_version_spec(latest), parse_version_spec(current)) {
        (Some(l), Some(c)) => version_gt(l, c),
        _ => false,
    }
}

fn parse_part(p: &Option<Vec<char>>) -> (r: Option<u64>)
    ensures
        r == part_value(match p {
            Some(v) => Some(v@),
            None => None,
        }),
{
    match p {
        Some(v) => parse_u64(v),
        None => Some(0),
    }
}

/// Parses `v1.2.3`, `1.2` or `1.2.3-beta` into its three numbers.
pub fn parse_version(raw: &str) -> (r: Option<Version>)
    ensures
        r == parse_version_spec(raw@),
{
    let t = trimmed(raw);
    let s = trim_start_either_chars(&t, 'v', 'V');
    let cut = find_char2(&s, '-', '+');
    let head = slice_chars(&s, 0, cut);
    assert(head@ =~= s@.take(cut as int));
    let core = trim_chars(&head);
    let ghost gcore = version_core(raw@);
    assert(core@ == gcore);
    if core.len() == 0 {
        return None;
    }
    let p1 = before_chars(&core, '.');
    let r1 = after_chars(&core, '.');
    let (p2, r2) = match &r1 {
        Some(r) => (Some(before_chars(r, '.')), after_chars(r, '.')),
        None => (None, None),
    };
    let (p3, r3) = match &r2 {
        Some(r) => (Some(before_chars(r, '.')), after_chars(r, '.')),
        None => (None, None),
    };
    if r3.is_some() {
        return None;
    }
    let a = parse_u64(&p1);
    let b = parse_part(&p2);
    let c = parse_part(&p3);
    match (a, b, c) {
        (Some(a), Some(b), Some(c)) => Some(Version { major: a, minor: b, patch: c }),
        _ => None,
    }
}

fn newer_version(l: Version, c: Version) -> (r: bool)
    ensures
        r == version_gt(l, c),
{
    l.major > c.major || (l.major == c.major && l.minor > c.minor) || (l.major == c.major
        && l.minor == c.minor && l.patch > c.patch)
}

/// Whether `latest` names a strictly higher version than `current`; an
/// unreadable version on either side is never newer.
pub fn is_newer(latest: &str, current: &str) -> (r: bool)
    ensures
        r == is_newer_spec(latest@, current@),
{
    match (parse_version(latest), parse_version(current)) {
        (Some(l), Some(c)) => newer_version(l, c),
        _ => false,
    }
}

/// A version read as one number: major, minor and patch as the digits of
/// a number in base 2^64.
pub open spec fn version_number(v: Version) -> int {
    (v.major as int * 0x1_0000_0000_0000_0000 + v.minor as int) * 0x1_0000_0000_0000_0000 + v.patch as int
}

proof fn lemma_digit_order(x1: int, y1: int, x2: int, y2: int, w: int)
    by (nonlinear_arith)
    requires
        0 <= y1 < w,
        0 <= y2 < w,
        x1 > x2,
    ensures
        x1 * w + y1 > x2 * w + y2,
{
}

proof fn lemma_higher_number(l: Version, c: Version)
    requires
        version_gt(l, c),
    ensures
        version_number(l) > version_number(c),
{
    let w: int = 0x1_0000_0000_0000_0000;
    let il = l.major as int * w + l.minor as int;
    let ic = c.major as int * w + c.minor as int;
    if l.major > c.major {
        lemma_digit_order(l.major as int, l.minor as int, c.major as int, c.minor as int, w);
    }
    if il > ic {
        lemma_digit_order(il, l.patch as int, ic, c.patch as int, w);
    }
}

/// Which of two readable versions is newer is decided by their numbers:
/// major first, then minor, then patch, each compared as a whole number
/// (so 0.1.10 is newer than 0.1.9).
pub proof fn lemma_newer_is_numeric_order(latest: Seq<char>, current: Seq<char>)
    requires
        parse_version_spec(latest) is Some,
        parse_version_spec(current) is Some,
    ensures
        is_newer_spec(latest, current) <==> version_number(parse_version_spec(latest)->0) > version_number(
            parse_version_spec(current)->0,
        ),
{
    let l = parse_version_spec(latest)->0;
    let c = parse_version_spec(current)->0;
    if version_gt(l, c) {
        lemma_higher_number(l, c);
    } else if version_gt(c, l) {
        lemma_higher_number(c, l);
    } else {
        assert(l == c);
    }
}

/// No version is newer than itself.
pub proof fn lemma_newer_irreflexive(v: Seq<char>)
    ensures
        !is_newer_spec(v, v),
{
}

/// Of two versions at most one is newer than the other.
pub proof fn lemma_newer_asymmetric(a: Seq<char>, b: Seq<char>)
    ensures
        !(is_newer_spec(a, b) && is_newer_spec(b, a)),
{
}

/// Newer is transitive.
pub proof fn lemma_newer_transitive(a: Seq<char>, b: Seq<char>, c: Seq<char>)
    requires
        is_newer_spec(a, b),
        is_newer_spec(b, c),
    ensures
        is_newer_spec(a, c),
{
}

/// A leading `v` does not change the version a tag names.
pub proof fn lemma_v_prefix_ignored(raw: Seq<char>)
    requires
        trim(raw) == raw,
        raw.len() > 0,
        !is_ws(raw[0]),
    ensures
        parse_version_spec(seq!['v'] + raw) == parse_version_spec(raw),
{
    let s = seq!['v'] + raw;
    assert(trim_start(s) == s);
    assert(trim_start(raw) == raw);
    assert(trim_end(raw) == raw);
    lemma_trim_end_len(raw);
    assert(!is_ws(raw.last()));
    assert(s.last() == raw.last());
    assert(trim_end(s) == s);
    assert(s.drop_first() =~= raw);
    assert(trim_start_either(s, 'v', 'V') == trim_start_either(raw, 'v', 'V'));
}

// ---------- installers ----------

pub open spec fn includes(n: Seq<char>, p: &str) -> bool {
    contains(n, p@)
}

pub open spec fn tail(n: Seq<char>, p: &str) -> bool {
    ends_with(n, p@)
}

/// Preference of an installer file for a platform (lower is better);
/// `None` when it does not fit the platform.
pub open spec fn rank_spec(name: Seq<char>, p: Platform) -> Option<u8> {
    let n = lower(name);
    match (p.os, p.arch) {
        (Os::Macos, Arch::Aarch64) => if !(includes(n, "darwin") && includes(n, "aarch64")) {
            None
        } else if tail(n, ".dmg") {
            Some(0)
        } else if tail(n, ".app.tar.gz") {
            Some(1)
        } else {
            None
        },
        (Os::Macos, Arch::X86_64) => if !includes(n, "darwin") || includes(n, "aarch64") || includes(n, "arm64") {
            None
        } else if !(includes(n, "_x64") || includes(n, "x86_64")) {
            None
        } else if tail(n, ".dmg") {
            Some(0)
        } else if tail(n, ".app.tar.gz") {
            Some(1)
        } else {
            None
        },
        (Os::Windows, Arch::X86_64) => if !includes(n, "windows") || includes(n, "arm") {
            None
        } else if tail(n, "-setup.exe") {
            Some(0)
        } else if tail(n, ".exe") {
            Some(1)
        } else {
            None
        },
        (Os::Linux, Arch::X86_64) => if includes(n, "aarch64") || includes(n, "arm64") {
            None
        } else if !(includes(n, "linux") || includes(n, "amd64") || includes(n, "x86_64")) {
            None
        } else if tail(n, ".appimage") {
            Some(0)
        } else if tail(n, ".deb") {
            Some(1)
        } else if tail(n, ".rpm") {
            Some(2)
        } else {
            None
        },
        _ => None,
    }
}

/// Ranks an installer name for a platform; lower is preferred.
pub fn rank_asset(name: &str, platform: Platform) -> (r: Option<u8>)
    ensures
        r == rank_spec(name@, platform),
{
    let raw = chars_of(name);
    let n = lower_chars(&raw);
    match (platform.os, platform.arch) {
        (Os::Macos, Arch::Aarch64) => {
            if !(contains_str(&n, "darwin") && contains_str(&n, "aarch64")) {
                return None;
            }
            if has_suffix_str(&n, ".dmg") {
                Some(0)
            } else if has_suffix_str(&n, ".app.tar.gz") {
                Some(1)
            } else {
                None
            }
        },
        (Os::Macos, Arch::X86_64) => {
            if !contains_str(&n, "darwin") || contains_str(&n, "aarch64") || contains_str(
                &n,
                "arm64",
            ) {
                return None;
            }
            if !(contains_str(&n, "_x64") || contains_str(&n, "x86_64")) {
                return None;
            }
            if has_suffix_str(&n, ".dmg") {
                Some(0)
            } else if has_suffix_str(&n, ".app.tar.gz") {
                Some(1)
            } else {
                None
            }
        },
        (Os::Windows, Arch::X86_64) => {
            if !contains_str(&n, "windows") || contains_str(&n, "arm") {
                return None;
            }
            if has_suffix_str(&n, "-setup.exe") {
                Some(0)
            } else if has_suffix_str(&n, ".exe") {
                Some(1)
            } else {
                None
            }
        },
        (Os::Linux, Arch::X86_64) => {
            if contains_str(&n, "aarch64") || contains_str(&n, "arm64") {
                return None;
            }
            let linuxish = contains_str(&n, "linux") || contains_str(&n, "amd64")
                || contains_str(&n, "x86_64");
            if !linuxish {
                return None;
            }
            if has_suffix_str(&n, ".appimage") {
                Some(0)
            } else if has_suffix_str(&n, ".deb") {
                Some(1)
            } else if has_suffix_str(&n, ".rpm") {
                Some(2)
            } else {
                None
            }
        },
        _ => None,
    }
}

pub open spec fn asset_rank(assets: Seq<GitHubAsset>, p: Platform, i: int) -> Option<u8> {
    rank_spec(assets[i].name@, p)
}

/// Asset `i` fits the platform, no fitting asset is preferred to it, and
/// every fitting asset before it is strictly worse (`min_by_key` keeps the
/// first of equal minima).
pub open spec fn is_best_asset(assets: Seq<GitHubAsset>, p: Platform, i: int) -> bool {
    &&& 0 <= i < assets.len()
    &&& asset_rank(assets, p, i) is Some
    &&& forall|j: int|
        0 <= j < assets.len() && (#[trigger] asset_rank(assets, p, j)) is Some ==> asset_rank(
            assets,
            p,
            i,
        )->0 <= asset_rank(assets, p, j)->0
    &&& forall|j: int|
        0 <= j < i && (#[trigger] asset_rank(assets, p, j)) is Some ==> asset_rank(
            assets,
            p,
            i,
        )->0 < asset_rank(assets, p, j)->0
}

pub open spec fn best_asset(assets: Seq<GitHubAsset>, p: Platform) -> Option<int> {
    if exists|i: int| is_best_asset(assets, p, i) {
        Some(choose|i: int| is_best_asset(assets, p, i))
    } else {
        None
    }
}

pub proof fn lemma_best_asset_unique(assets: Seq<GitHubAsset>, p: Platform, i: int, k: int)
    requires
        is_best_asset(assets, p, i),
        is_best_asset(assets, p, k),
    ensures
        i == k,
{
    if i < k {
        assert(asset_rank(assets, p, i) is Some);
    } else if k < i {
        assert(asset_rank(assets, p, k) is Some);
    }
}

fn pick_asset_index(assets: &[GitHubAsset], platform: Platform) -> (r: Option<usize>)
    ensures
        match r {
            Some(k) => is_best_asset(assets@, platform, k as int),
            None => forall|i: int|
                0 <= i < assets@.len() ==> (#[trigger] asset_rank(assets@, platform, i)) is None,
        },
{
    let mut best: Option<(usize, u8)> = None;
    let mut i: usize = 0;
    while i < assets.len()
        invariant
            i <= assets@.len(),
            match best {
                None => forall|j: int|
                    0 <= j < i ==> (#[trigger] asset_rank(assets@, platform, j)) is None,
                Some((k, rk)) => {
                    &&& k < i
                    &&& asset_rank(assets@, platform, k as int) == Some(rk)
                    &&& forall|j: int|
                        0 <= j < i && (#[trigger] asset_rank(assets@, platform, j)) is Some
                            ==> rk <= asset_rank(assets@, platform, j)->0
                    &&& forall|j: int|
                        0 <= j < k && (#[trigger] asset_rank(assets@, platform, j)) is Some
                            ==> rk < asset_rank(assets@, platform, j)->0
                },
            },
        decreases assets@.len() - i,
    {
        let r = rank_asset(assets[i].name.as_str(), platform);
        assert(r == asset_rank(assets@, platform, i as int));
        match r {
            Some(x) => {
                match best {
                    None => {
                        best = Some((i, x));
                    },
                    Some((k, rk)) => {
                        if x < rk {
                            best = Some((i, x));
                        }
                    },
                }
            },
            None => {},
        }
        i = i + 1;
    }
    match best {
        Some((k, _)) => Some(k),
        None => None,
    }
}

/// Picks this machine's installer: a dmg before a tarball on macOS, an NSIS
/// setup on Windows, an AppImage before deb and rpm on Linux.
pub fn pick_asset(assets: &[GitHubAsset], platform: Platform) -> (r: Option<&GitHubAsset>)
    ensures
        match best_asset(assets@, platform) {
            Some(i) => r == Some(&assets@[i]),
            None => r is None,
        },
{
    match pick_asset_index(assets, platform) {
        Some(k) => {
            proof {
                let c = choose|i: int| is_best_asset(assets@, platform, i);
                lemma_best_asset_unique(assets@, platform, c, k as int);
            }
            Some(&assets[k])
        },
        None => {
            assert(!exists|i: int| is_best_asset(assets@, platform, i));
            None
        },
    }
}

// ---------- the update summary ----------

pub open spec fn chosen_asset(r: GitHubRelease, p: Option<Platform>) -> Option<GitHubAsset> {
    match p {
        Some(pl) => match best_asset(r.assets@, pl) {
            Some(i) => Some(r.assets@[i]),
            None => None,
        },
        None => None,
    }
}

pub open spec fn opt_view(o: Option<String>) -> Option<Seq<char>> {
    match o {
        Some(s) => Some(s@),
        None => None,
    }
}

/// Compares the running version with a release. A draft or prerelease is
/// never offered; otherwise an update is available exactly when the tag is
/// newer, and the installer for the platform is named when there is one.
pub fn evaluate(current: &str, release: &GitHubRelease, platform: Option<Platform>) -> (info:
    UpdateInfo)
    ensures
        info.html_url@ == (if release.html_url@.len() == 0 {
            releases_page_spec()
        } else {
            release.html_url@
        }),
        release.draft || release.prerelease ==> {
            &&& info.current_version@ == current@
            &&& info.latest_version@ == current@
            &&& !info.available
            &&& info.notes@ == Seq::<char>::empty()
            &&& info.asset_name is None
            &&& info.asset_url is None
        },
        !(release.draft || release.prerelease) ==> {
            &&& info.current_version@ == trim_start_either(current@, 'v', 'V')
            &&& info.latest_version@ == trim_start_either(trim(release.tag_name@), 'v', 'V')
            &&& info.available == is_newer_spec(trim(release.tag_name@), current@)
            &&& info.notes@ == (match release.body {
                Some(b) => b@,
                None => Seq::<char>::empty(),
            })
            &&& opt_view(info.asset_name) == (match chosen_asset(*release, platform) {
                Some(a) => Some(a.name@),
                None => None,
            })
            &&& opt_view(info.asset_url) == (match chosen_asset(*release, platform) {
                Some(a) => Some(a.browser_download_url@),
                None => None,
            })
        },
{
    let html_len = chars_of(release.html_url.as_str()).len();
    let html_url = if html_len == 0 {
        releases_page_url()
    } else {
        release.html_url.clone()
    };
    if release.draft || release.prerelease {
        return UpdateInfo {
            current_version: owned(current),
            latest_version: owned(current),
            available: false,
            notes: String::new(),
            html_url,
            asset_name: None,
            asset_url: None,
        };
    }
    let latest = trimmed(release.tag_name.as_str());
    let latest_s = string_of(&latest);
    let available = is_newer(latest_s.as_str(), current);
    let (asset_name, asset_url) = match platform {
        Some(p) => match pick_asset(release.assets.as_slice(), p) {
            Some(a) => (Some(a.name.clone()), Some(a.browser_download_url.clone())),
            None => (None, None),
        },
        None => (None, None),
    };
    let cur = chars_of(current);
    let notes = match &release.body {
        Some(b) => b.clone(),
        None => String::new(),
    };
    UpdateInfo {
        current_version: string_of(&trim_start_either_chars(&cur, 'v', 'V')),
        latest_version: string_of(&trim_start_either_chars(&latest, 'v', 'V')),
        available,
        notes,
        html_url,
        asset_name,
        asset_url,
    }
}

/// The summary when the repository has no published release yet.
pub fn no_release_info(current: &str) -> (info: UpdateInfo)
    ensures
        info.current_version@ == trim_start_either(current@, 'v', 'V'),
        info.latest_version@ == trim_start_either(current@, 'v', 'V'),
        !info.available,
        info.notes@ == Seq::<char>::empty(),
        info.html_url@ == releases_page_spec(),
        info.asset_name is None,
        info.asset_url is None,
{
    let cur = chars_of(current);
    let v = trim_start_either_chars(&cur, 'v', 'V');
    UpdateInfo {
        current_version: string_of(&v),
        latest_version: string_of(&v),
        available: false,
        notes: String::new(),
        html_url: releases_page_url(),
        asset_name: None,
        asset_url: None,
    }
}

/// How the release API answered.
#[derive(Debug, Clone, Copy, PartialEq, Eq, Structural)]
pub enum ReleaseReply {
    /// No release has been published (404).
    Missing,
    /// The body holds a release.
    Present,
}

/// Classifies the status of the release request: 404 means no release,
/// 403/429 rate limiting, any other status outside 200..300 a failure that
/// quotes the first 120 characters of the body.
pub fn release_reply(status: u16, body: &str) -> (r: Result<ReleaseReply, UpdateError>)
    ensures
        status == 404 ==> r == Ok::<ReleaseReply, UpdateError>(ReleaseReply::Missing),
        status != 404 && (status == 403 || status == 429) ==> r matches Err(
            UpdateError::RateLimited,
        ),
        status != 404 && status != 403 && status != 429 && (status < 200 || status >= 300)
            ==> (r matches Err(UpdateError::Failed(m)) && m@ == "GitHub 返回 "@ + dec(
            status as nat,
        ) + ": "@ + prefix(body@, 120)),
        200 <= status < 300 ==> r == Ok::<ReleaseReply, UpdateError>(ReleaseReply::Present),
{
    if status == 404 {
        return Ok(ReleaseReply::Missing);
    }
    if status == 403 || status == 429 {
        return Err(UpdateError::RateLimited);
    }
    if status < 200 || status >= 300 {
        let mut m = chars_of("GitHub 返回 ");
        push_dec_u64(&mut m, status as u64);
        push_str(&mut m, ": ");
        let b = chars_of(body);
        let snippet = prefix_chars(&b, 120);
        push_chars(&mut m, &snippet);
        return Err(UpdateError::Failed(string_of(&m)));
    }
    Ok(ReleaseReply::Present)
}

/// Decides whether the summary leads to a download: it must offer an
/// update, name an installer for this machine, and that installer must be
/// served from this repository. Gives the installer's name and address.
pub fn download_target(info: &UpdateInfo) -> (r: Result<(String, String), UpdateError>)
    ensures
        !info.available ==> (r matches Err(UpdateError::Failed(m)) && m@ == "已经是最新版本"@),
        info.available && (info.asset_name is None || info.asset_url is None) ==> (r matches Err(
            UpdateError::Failed(m),
        ) && m@ == "没有本机对应的安装包，请到发布页下载："@ + info.html_url@),
        info.available && info.asset_name is Some && info.asset_url is Some ==> {
            let u = info.asset_url->0@;
            if starts_with(u, download_prefix_spec()) {
                (r matches Ok((n, url)) && n@ == info.asset_name->0@ && url@ == u)
            } else {
                (r matches Err(UpdateError::Failed(m)) && m@
                    == "安装包地址不是本仓库的 GitHub Release"@)
            }
        },
{
    if !info.available {
        return Err(UpdateError::Failed(owned("已经是最新版本")));
    }
    match (&info.asset_name, &info.asset_url) {
        (Some(name), Some(url)) => {
            if !allowed_download_url(url.as_str()) {
                return Err(UpdateError::Failed(owned("安装包地址不是本仓库的 GitHub Release")));
            }
            Ok((name.clone(), url.clone()))
        },
        _ => {
            let mut m = chars_of("没有本机对应的安装包，请到发布页下载：");
            let h = chars_of(info.html_url.as_str());
            push_chars(&mut m, &h);
            Err(UpdateError::Failed(string_of(&m)))
        },
    }
}

pub open spec fn safe_char(c: char) -> char {
    if ('a' <= c <= 'z') || ('A' <= c <= 'Z') || ('0' <= c <= '9') || c == '.' || c == '_' || c
        == '-' {
        c
    } else {
        '_'
    }
}

/// The file name an installer is saved under: ASCII letters, digits, `.`,
/// `_` and `-` kept, every other character replaced by `_`; a fixed name
/// when nothing is left.
pub open spec fn safe_file_name_spec(name: Seq<char>) -> Seq<char> {
    if name.len() == 0 {
        "mudflat-update.bin"@
    } else {
        name.map_values(|c: char| safe_char(c))
    }
}

pub fn safe_file_name(name: &str) -> (r: String)
    ensures
        r@ == safe_file_name_spec(name@),
{
    let n = chars_of(name);
    if n.len() == 0 {
        return owned("mudflat-update.bin");
    }
    let mut out: Vec<char> = Vec::new();
    let mut i: usize = 0;
    while i < n.len()
        invariant
            i <= n.len(),
            out@ == n@.take(i as int).map_values(|c: char| safe_char(c)),
        decreases n.len() - i,
    {
        let c = n[i];
        let keep = ('a' <= c && c <= 'z') || ('A' <= c && c <= 'Z') || ('0' <= c && c <= '9')
            || c == '.' || c == '_' || c == '-';
        out.push(if keep {
            c
        } else {
            '_'
        });
        i = i + 1;
        assert(out@ =~= n@.take(i as int).map_values(|c: char| safe_char(c)));
    }
    assert(n@.take(i as int) =~= n@);
    string_of(&out)
}

} // verus!
