//! The gateway key file (`api.key` in the data folder): what is written
//! and how a read is judged. The file itself is handled by the application.
use vstd::prelude::*;
use crate::text::{chars_of, lemma_trim_idempotent, owned, push_str, string_of, trim, trimmed};

verus! {

pub const FILE_NAME: &'static str = "api.key";

#[derive(Debug)]
pub enum KeyError {
    /// Reading or writing the file failed (the I/O error's message).
    Io(String),
    NotFound,
}

pub open spec fn key_error_text(e: KeyError) -> Seq<char> {
    match e {
        KeyError::Io(m) => "读写 Key 文件失败: "@ + m@,
        KeyError::NotFound => "未保存 API Key"@,
    }
}

impl KeyError {
    /// The message shown to the user.
    pub fn message(&self) -> (r: String)
        ensures
            r@ == key_error_text(*self),
    {
        match self {
            KeyError::Io(m) => {
                let mut v = chars_of("读写 Key 文件失败: ");
                push_str(&mut v, m.as_str());
                string_of(&v)
            },
            KeyError::NotFound => owned("未保存 API Key"),
        }
    }
}

/// What is written to the file: the key, trimmed.
pub fn stored_text(key: &str) -> (r: String)
    ensures
        r@ == trim(key@),
{
    string_of(&trimmed(key))
}

/// The key a file's content holds: the trimmed content, none when blank.
pub open spec fn key_read(content: Seq<char>) -> Option<Seq<char>> {
    if trim(content).len() > 0 {
        Some(trim(content))
    } else {
        None
    }
}

/// The saved key, given the file's content when the file exists: the
/// trimmed content; a missing or blank file means no key.
pub fn get_key(file: Option<String>) -> (r: Result<String, KeyError>)
    ensures
        match file {
            Some(s) => match key_read(s@) {
                Some(k) => r matches Ok(v) && v@ == k,
                None => r matches Err(KeyError::NotFound),
            },
            None => r matches Err(KeyError::NotFound),
        },
{
    match file {
        Some(s) => {
            let t = trimmed(s.as_str());
            if t.len() == 0 {
                Err(KeyError::NotFound)
            } else {
                Ok(string_of(&t))
            }
        },
        None => Err(KeyError::NotFound),
    }
}

/// Whether a key is saved.
pub fn has_key(file: Option<String>) -> (r: bool)
    ensures
        r == (file matches Some(s) && trim(s@).len() > 0),
{
    get_key(file).is_ok()
}

/// A saved key reads back as the key, trimmed, whatever whitespace
/// surrounded it; a blank key reads back as no key at all. (What is
/// written is `stored_text`, what is read is `get_key`.)
pub proof fn lemma_saved_key_reads_back(key: Seq<char>)
    ensures
        key_read(trim(key)) == (if trim(key).len() > 0 {
            Some(trim(key))
        } else {
            None
        }),
{
    lemma_trim_idempotent(key);
}

} // verus!
