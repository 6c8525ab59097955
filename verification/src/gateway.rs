//! The WeRead agent gateway: the shapes of its replies, and what is
//! decided around each call (which status means what, when paging stops).
//! The HTTP requests and JSON decoding live in the application.
use vstd::prelude::*;
use crate::text::{chars_of, owned, prefix, prefix_chars, push_chars, push_dec_u64, push_str, string_of, contains, contains_str};

verus! {

pub const GATEWAY_URL: &'static str = "https://i.weread.qq.com/api/agent/gateway";

pub const SKILL_VERSION: &'static str = "1.0.4";

/// Milliseconds to wait between two paged requests.
pub const THROTTLE_MS: u64 = 300;

#[derive(Debug)]
pub enum GatewayError {
    Unauthorized,
    Http { status: u16, body: String },
    Network(String),
}

pub type GatewayResult<T> = Result<T, GatewayError>;

pub open spec fn gateway_error_text(e: GatewayError) -> Seq<char> {
    match e {
        GatewayError::Unauthorized => "API Key 无效或已过期"@,
        GatewayError::Http { status, body } => "网关错误 "@ + crate::text::dec(status as nat) + ": "@ + body@,
        GatewayError::Network(m) => "网络错误: "@ + m@,
    }
}

impl GatewayError {
    /// Whether the key was refused.
    pub fn is_auth(&self) -> (r: bool)
        ensures
            r == (*self is Unauthorized),
    {
        match self {
            GatewayError::Unauthorized => true,
            _ => false,
        }
    }

    /// The message shown to the user.
    pub fn message(&self) -> (r: String)
        ensures
            r@ == gateway_error_text(*self),
    {
        match self {
            GatewayError::Unauthorized => owned("API Key 无效或已过期"),
            GatewayError::Http { status, body } => {
                let mut m = chars_of("网关错误 ");
                push_dec_u64(&mut m, *status as u64);
                push_str(&mut m, ": ");
                push_str(&mut m, body.as_str());
                string_of(&m)
            },
            GatewayError::Network(s) => {
                let mut m = chars_of("网络错误: ");
                push_str(&mut m, s.as_str());
                string_of(&m)
            },
        }
    }
}

/// A bookstore category; its title joins the main and sub category.
#[derive(Debug, Clone)]
pub struct BookCategory {
    pub title: String,
}

#[derive(Debug, Clone)]
pub struct BookInfo {
    pub book_id: String,
    pub title: String,
    pub author: String,
    pub cover: String,
    pub categories: Vec<BookCategory>,
}

#[derive(Debug, Clone)]
pub struct NotebookBook {
    pub book: BookInfo,
    pub note_count: i64,
    pub review_count: i64,
    pub sort: i64,
    /// Reading progress in percent (0 to 100).
    pub reading_progress: i64,
}

impl NotebookBook {
    /// The first category's title, or the empty string.
    pub fn first_category(&self) -> (r: &str)
        ensures
            self.book.categories@.len() > 0 ==> r@ == self.book.categories@[0].title@,
            self.book.categories@.len() == 0 ==> r@ == Seq::<char>::empty(),
    {
        if self.book.categories.len() > 0 {
            self.book.categories[0].title.as_str()
        } else {
            proof {
                reveal_strlit("");
            }
            ""
        }
    }
}

#[derive(Debug, Clone)]
pub struct NotebooksResp {
    pub total_book_count: i64,
    pub books: Vec<NotebookBook>,
}

#[derive(Debug, Clone)]
pub struct BookmarkItem {
    pub bookmark_id: String,
    pub book_id: String,
    pub chapter_uid: i64,
    pub mark_text: String,
    pub create_time: i64,
    pub range: String,
    pub color_style: i64,
}

#[derive(Debug, Clone)]
pub struct ChapterInfo {
    pub chapter_uid: i64,
    pub chapter_idx: i64,
    pub title: String,
}

#[derive(Debug, Clone)]
pub struct BookmarkListResp {
    pub updated: Vec<BookmarkItem>,
    pub chapters: Vec<ChapterInfo>,
}

#[derive(Debug, Clone)]
pub struct ReviewDetail {
    pub review_id: String,
    pub content: String,
    /// The highlighted text a thought is attached to, when it has one.
    pub abstract_text: String,
    pub range: String,
    pub chapter_uid: i64,
    pub chapter_idx: i64,
    pub create_time: i64,
    pub star: i64,
    pub chapter_name: String,
}

impl Default for ReviewDetail {
    fn default() -> (r: Self)
        ensures
            r.review_id@.len() == 0,
            r.content@.len() == 0,
            r.abstract_text@.len() == 0,
            r.range@.len() == 0,
            r.chapter_uid == 0,
            r.chapter_idx == 0,
            r.create_time == 0,
            r.star == 0,
            r.chapter_name@.len() == 0,
    {
        ReviewDetail {
            review_id: String::new(),
            content: String::new(),
            abstract_text: String::new(),
            range: String::new(),
            chapter_uid: 0,
            chapter_idx: 0,
            create_time: 0,
            star: 0,
            chapter_name: String::new(),
        }
    }
}

#[derive(Debug, Clone)]
pub struct ReviewWrapper {
    pub review: ReviewDetail,
}

#[derive(Debug, Clone)]
pub struct ReviewListResp {
    pub reviews: Vec<ReviewWrapper>,
    pub has_more: i64,
    pub synckey: i64,
}

/// The first `n` characters.
pub fn truncate(s: &str, n: usize) -> (r: String)
    ensures
        r@ == prefix(s@, n as nat),
{
    string_of(&prefix_chars(&chars_of(s), n))
}

/// What an HTTP status says before the body is read: 401 and 403 refuse
/// the key; anything outside 200..300 is an error quoting the body's first
/// 200 characters.
pub fn status_error(status: u16, body: &str) -> (r: Option<GatewayError>)
    ensures
        (status == 401 || status == 403) ==> r matches Some(GatewayError::Unauthorized),
        !(status == 401 || status == 403) && !(200 <= status < 300) ==> (r matches Some(
            GatewayError::Http { status: s, body: b },
        ) && s == status && b@ == prefix(body@, 200)),
        !(status == 401 || status == 403) && 200 <= status < 300 ==> r is None,
{
    if status == 401 || status == 403 {
        return Some(GatewayError::Unauthorized);
    }
    if !(200 <= status && status < 300) {
        return Some(GatewayError::Http { status, body: truncate(body, 200) });
    }
    None
}

/// A reply that is not JSON: the decoder's message and the body, cut to
/// 200 characters.
pub fn not_json_error(status: u16, detail: &str, body: &str) -> (r: GatewayError)
    ensures
        r matches GatewayError::Http { status: s, body: b } && s == status && b@ == prefix(
            "非 JSON 响应: "@ + detail@ + "; body="@ + body@,
            200,
        ),
{
    let mut m = chars_of("非 JSON 响应: ");
    push_str(&mut m, detail);
    push_str(&mut m, "; body=");
    push_str(&mut m, body);
    GatewayError::Http { status, body: string_of(&prefix_chars(&m, 200)) }
}

/// A reply whose JSON has an unexpected shape; `what` names the request.
pub fn shape_error(what: &str, detail: &str) -> (r: GatewayError)
    ensures
        r matches GatewayError::Http { status: s, body: b } && s == 200 && b@ == prefix(
            what@ + detail@,
            200,
        ),
{
    let mut m = chars_of(what);
    push_str(&mut m, detail);
    GatewayError::Http { status: 200, body: string_of(&prefix_chars(&m, 200)) }
}

pub open spec fn mentions_auth(msg: Seq<char>) -> bool {
    contains(msg, "auth"@) || contains(msg, "token"@) || contains(msg, "key"@)
}

/// A non-zero `code` in a 200 reply: code 401, or a message that speaks
/// of auth, token or key, refuses the key; anything else is an error
/// quoting the message.
pub fn classify_code_error(code: i64, msg: &str) -> (r: GatewayError)
    ensures
        (code == 401 || mentions_auth(msg@)) ==> r matches GatewayError::Unauthorized,
        !(code == 401 || mentions_auth(msg@)) ==> (r matches GatewayError::Http { status: s, body: b } && s
            == 200 && b@ == prefix(msg@, 200)),
{
    let m = chars_of(msg);
    if code == 401 || contains_str(&m, "auth") || contains_str(&m, "token") || contains_str(&m, "key") {
        GatewayError::Unauthorized
    } else {
        GatewayError::Http { status: 200, body: truncate(msg, 200) }
    }
}

/// The error a reply's `code` field (when it is an integer) carries; `msg`
/// is its `msg` or `message` text, or empty.
pub fn code_error(code: Option<i64>, msg: &str) -> (r: Option<GatewayError>)
    ensures
        match code {
            Some(c) => if c != 0 {
                if c == 401 || mentions_auth(msg@) {
                    r matches Some(GatewayError::Unauthorized)
                } else {
                    r matches Some(GatewayError::Http { status: s, body: b }) && s == 200 && b@ == prefix(
                        msg@,
                        200,
                    )
                }
            } else {
                r is None
            },
            None => r is None,
        },
{
    match code {
        Some(c) => {
            if c != 0 {
                Some(classify_code_error(c, msg))
            } else {
                None
            }
        },
        None => None,
    }
}

/// After a page of notebooks: the cursor for the next page, or `None` to
/// stop: when there are no more pages, or (defensively) when a page that
/// claims more was empty.
pub fn next_notebook_cursor(more: bool, last_sort: Option<i64>) -> (r: Option<i64>)
    ensures
        r == (if more {
            last_sort
        } else {
            None
        }),
{
    if !more {
        return None;
    }
    last_sort
}

/// After a page of reviews: the sync key for the next page, or `None` to
/// stop: when there are no more pages, or (defensively) when a non-zero
/// key did not move.
pub fn next_synckey(more: bool, current: i64, next: i64) -> (r: Option<i64>)
    ensures
        r == (if !more || (next == current && current != 0) {
            None
        } else {
            Some(next)
        }),
{
    if !more {
        return None;
    }
    if next == current && current != 0 {
        return None;
    }
    Some(next)
}

} // verus!
