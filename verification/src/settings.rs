//! The application's own settings and checks on what the user enters:
//! setup state, the last sync time, the review batch, links opened in the
//! browser and the gateway key.
use vstd::prelude::*;
use crate::db::{batch_option, batch_size_from, DEFAULT_REVIEW_BATCH};
use crate::text::{chars_of, has_ws_or_ctrl, any_ws_or_ctrl, has_prefix_str, owned, parse_i64, parse_i64_spec, starts_with, string_of, trim, trimmed};

verus! {

#[derive(Debug, Clone, Copy, PartialEq, Eq, Structural)]
pub struct SetupStatus {
    pub has_key: bool,
    pub has_books: bool,
}

#[derive(Debug, Clone)]
pub struct Settings {
    pub last_full_sync: Option<i64>,
    pub data_dir: Option<String>,
}

#[derive(Debug, Clone, Copy, PartialEq, Eq, Structural)]
pub struct ReviewSettings {
    pub batch_size: i64,
}

/// Key of the stored time of the last full sync.
pub const KEY_LAST_FULL_SYNC: &'static str = "last_full_sync";

/// Whether the app is set up: a key is saved and books were synced.
pub fn setup_status(has_key: bool, book_count: i64) -> (r: SetupStatus)
    ensures
        r.has_key == has_key,
        r.has_books == (book_count > 0),
{
    SetupStatus { has_key, has_books: book_count > 0 }
}

pub open spec fn opt_parse(o: Option<String>) -> Option<i64> {
    match o {
        Some(s) => parse_i64_spec(s@),
        None => None,
    }
}

/// The settings page: the last full sync time when the stored value is
/// an integer, and the data folder when it is known.
pub fn settings_from(last_full_sync: Option<String>, data_dir: Option<String>) -> (r: Settings)
    ensures
        r.last_full_sync == opt_parse(last_full_sync),
        r.data_dir == data_dir,
{
    let last = match &last_full_sync {
        Some(s) => parse_i64(&chars_of(s.as_str())),
        None => None,
    };
    Settings { last_full_sync: last, data_dir }
}

/// The review batch in effect: the stored value when it is an integer
/// among 10, 20 and 30, else 20.
pub fn review_settings(stored: Option<String>) -> (r: ReviewSettings)
    ensures
        (opt_parse(stored) matches Some(v) && batch_option(v)) ==> r.batch_size == opt_parse(stored)->0,
        !(opt_parse(stored) matches Some(v) && batch_option(v)) ==> r.batch_size == DEFAULT_REVIEW_BATCH,
{
    let v = match &stored {
        Some(s) => parse_i64(&chars_of(s.as_str())),
        None => None,
    };
    ReviewSettings { batch_size: batch_size_from(v) }
}

pub open spec fn url_problem(url: Seq<char>) -> Option<Seq<char>> {
    if !(starts_with(url, "https://"@) || starts_with(url, "http://"@)) {
        Some("仅支持打开 http/https 链接"@)
    } else if has_ws_or_ctrl(url) {
        Some("URL 含非法字符"@)
    } else {
        None
    }
}

/// Only http and https links without whitespace or control characters
/// are opened in the browser.
pub fn check_external_url(url: &str) -> (r: Result<(), String>)
    ensures
        match url_problem(url@) {
            Some(m) => r matches Err(e) && e@ == m,
            None => r is Ok,
        },
{
    let u = chars_of(url);
    if !(has_prefix_str(&u, "https://") || has_prefix_str(&u, "http://")) {
        return Err(owned("仅支持打开 http/https 链接"));
    }
    if any_ws_or_ctrl(&u) {
        return Err(owned("URL 含非法字符"));
    }
    Ok(())
}

/// The gateway key to test: trimmed, and refused when blank.
pub fn gateway_key(key: &str) -> (r: Result<String, String>)
    ensures
        trim(key@).len() > 0 ==> (r matches Ok(k) && k@ == trim(key@)),
        trim(key@).len() == 0 ==> (r matches Err(m) && m@ == "API Key 不能为空"@),
{
    let k = trimmed(key);
    if k.len() == 0 {
        return Err(owned("API Key 不能为空"));
    }
    Ok(string_of(&k))
}

/// Why a sync cannot start for want of a key: none saved, or the key file
/// could not be read (`detail`).
pub fn key_load_error(not_found: bool, detail: &str) -> (r: String)
    ensures
        not_found ==> r@ == "尚未保存 API Key，请先到设置页填写并保存"@,
        !not_found ==> r@ == "读取 API Key 失败："@ + detail@ + "（可到设置页重新保存）"@,
{
    if not_found {
        return owned("尚未保存 API Key，请先到设置页填写并保存");
    }
    let mut m = chars_of("读取 API Key 失败：");
    crate::text::push_str(&mut m, detail);
    crate::text::push_str(&mut m, "（可到设置页重新保存）");
    string_of(&m)
}

/// The tags a new card is created with: each name trimmed, blank ones
/// left out, in order.
pub open spec fn tag_names_spec(names: Seq<String>) -> Seq<Seq<char>>
    decreases names.len(),
{
    if names.len() == 0 {
        Seq::empty()
    } else {
        let r = tag_names_spec(names.drop_last());
        let t = trim(names.last()@);
        if t.len() > 0 {
            r.push(t)
        } else {
            r
        }
    }
}

pub fn tag_names(names: &Vec<String>) -> (r: Vec<String>)
    ensures
        r@.map_values(|s: String| s@) == tag_names_spec(names@),
{
    let mut out: Vec<String> = Vec::new();
    let mut i: usize = 0;
    while i < names.len()
        invariant
            i <= names@.len(),
            out@.map_values(|s: String| s@) == tag_names_spec(names@.take(i as int)),
        decreases names@.len() - i,
    {
        proof {
            assert(names@.take(i + 1).drop_last() =~= names@.take(i as int));
        }
        let t = trimmed(names[i].as_str());
        if t.len() > 0 {
            let ghost before = out@.map_values(|s: String| s@);
            let s = string_of(&t);
            let ghost sv = s@;
            out.push(s);
            assert(out@.map_values(|s: String| s@) =~= before.push(sv));
        }
        i = i + 1;
    }
    assert(names@.take(names@.len() as int) =~= names@);
    out
}

} // verus!
