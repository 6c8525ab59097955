//! Incremental sync decisions: whether a book is pulled (its remote counts
//! against the counts of its last successful sync), how the gateway's
//! highlights and thoughts become card rows, and the run's tally. Requests,
//! the database transaction and progress events live in the application.
use vstd::prelude::*;
use crate::db::{NewBook, UpsertCard};
use crate::gateway::{BookmarkItem, ChapterInfo, NotebookBook, ReviewDetail};
use crate::text::owned;

verus! {

#[derive(Debug, Clone)]
pub struct SyncEvent {
    pub stage: String,
    pub current: i64,
    pub total: i64,
    pub book_title: String,
}

#[derive(Debug, Clone)]
pub struct FailedBook {
    pub book_id: String,
    pub title: String,
    pub error: String,
}

#[derive(Debug, Clone)]
pub struct SyncSummary {
    pub books_total: usize,
    pub books_synced: usize,
    pub books_failed: usize,
    pub failures: Vec<FailedBook>,
    /// Highlights pulled in this run (new or updated).
    pub highlights: usize,
    /// Thoughts pulled in this run (new or updated).
    pub thoughts: usize,
    /// Cards inserted.
    pub added: usize,
    /// Cards soft-deleted because they disappeared remotely.
    pub removed: usize,
}

impl Default for SyncSummary {
    fn default() -> (r: Self)
        ensures
            r.books_total == 0 && r.books_synced == 0 && r.books_failed == 0 && r.failures@.len() == 0,
            r.highlights == 0 && r.thoughts == 0 && r.added == 0 && r.removed == 0,
    {
        SyncSummary {
            books_total: 0,
            books_synced: 0,
            books_failed: 0,
            failures: Vec::new(),
            highlights: 0,
            thoughts: 0,
            added: 0,
            removed: 0,
        }
    }
}

/// A book is pulled unless both counts of its last successful sync are
/// known and equal to the remote counts; a missing baseline (first sync,
/// or one cleared for a repair) always pulls.
pub open spec fn pull_spec(baseline: (Option<i64>, Option<i64>), remote_note: i64, remote_review: i64) -> bool {
    match baseline {
        (Some(n), Some(rv)) => n != remote_note || rv != remote_review,
        _ => true,
    }
}

pub fn should_pull(baseline: (Option<i64>, Option<i64>), remote_note: i64, remote_review: i64) -> (r: bool)
    ensures
        r == pull_spec(baseline, remote_note, remote_review),
{
    match baseline {
        (Some(n), Some(rv)) => n != remote_note || rv != remote_review,
        _ => true,
    }
}

/// A book with a complete baseline is pulled exactly when either remote
/// count differs from the baseline's, whether it went up or down; a book
/// without one is always pulled.
pub proof fn lemma_pull_on_any_change(baseline: (Option<i64>, Option<i64>), remote_note: i64, remote_review: i64)
    ensures
        (baseline.0 matches Some(n) && baseline.1 matches Some(rv)) ==> (pull_spec(
            baseline,
            remote_note,
            remote_review,
        ) <==> (remote_note < baseline.0->0 || remote_note > baseline.0->0 || remote_review
            < baseline.1->0 || remote_review > baseline.1->0)),
        (baseline.0 is None || baseline.1 is None) ==> pull_spec(baseline, remote_note, remote_review),
{
}

/// The one-time repair of creation times is due while its marker is not
/// stored.
pub fn repair_needed(marker: &Option<String>) -> (r: bool)
    ensures
        r == (*marker is None),
{
    marker.is_none()
}

/// The title of a chapter, from the bookmark list's chapters (the last
/// entry wins when an id repeats).
pub open spec fn chapter_title_spec(chapters: Seq<ChapterInfo>, uid: i64) -> Option<Seq<char>>
    decreases chapters.len(),
{
    if chapters.len() == 0 {
        None
    } else if chapters.last().chapter_uid == uid {
        Some(chapters.last().title@)
    } else {
        chapter_title_spec(chapters.drop_last(), uid)
    }
}

pub fn chapter_title_for(chapters: &[ChapterInfo], uid: i64) -> (r: Option<&str>)
    ensures
        match r {
            Some(t) => chapter_title_spec(chapters@, uid) == Some(t@),
            None => chapter_title_spec(chapters@, uid) is None,
        },
{
    let mut i: usize = chapters.len();
    assert(chapters@.take(chapters@.len() as int) =~= chapters@);
    while i > 0
        invariant
            i <= chapters@.len(),
            chapter_title_spec(chapters@, uid) == chapter_title_spec(chapters@.take(i as int), uid),
        decreases i,
    {
        assert(chapters@.take(i as int).drop_last() =~= chapters@.take(i - 1));
        if chapters[i - 1].chapter_uid == uid {
            return Some(chapters[i - 1].title.as_str());
        }
        i = i - 1;
    }
    None
}

pub open spec fn opt_str(o: Option<&str>) -> Option<Seq<char>> {
    match o {
        Some(s) => Some(s@),
        None => None,
    }
}

/// A creation time as stored: at least 1.
pub open spec fn stored_time(t: i64) -> i64 {
    if t > 1 {
        t
    } else {
        1
    }
}

/// A highlight as a card row: its chapter and title, text, range and
/// color, and its creation time (at least 1).
pub fn highlight_card<'a>(bm: &'a BookmarkItem, book_row_id: i64, chapters: &'a [ChapterInfo]) -> (r: UpsertCard<'a>)
    ensures
        r.kind@ == "highlight"@,
        r.book_row_id == book_row_id,
        r.remote_id@ == bm.bookmark_id@,
        r.chapter_uid == Some(bm.chapter_uid),
        opt_str(r.chapter_title) == chapter_title_spec(chapters@, bm.chapter_uid),
        r.text@ == bm.mark_text@,
        r.abstract_text is None,
        opt_str(r.range_str) == Some(bm.range@),
        r.color_style == bm.color_style,
        r.created_at == stored_time(bm.create_time),
{
    UpsertCard {
        kind: "highlight",
        book_row_id,
        remote_id: bm.bookmark_id.as_str(),
        chapter_uid: Some(bm.chapter_uid),
        chapter_title: chapter_title_for(chapters, bm.chapter_uid),
        text: bm.mark_text.as_str(),
        abstract_text: None,
        range_str: Some(bm.range.as_str()),
        color_style: bm.color_style,
        created_at: if bm.create_time > 1 {
            bm.create_time
        } else {
            1
        },
    }
}

pub open spec fn non_empty(s: Seq<char>) -> Option<Seq<char>> {
    if s.len() == 0 {
        None
    } else {
        Some(s)
    }
}

fn non_empty_str<'a>(s: &'a String) -> (r: Option<&'a str>)
    ensures
        opt_str(r) == non_empty(s@),
{
    if crate::text::chars_of(s.as_str()).len() == 0 {
        None
    } else {
        Some(s.as_str())
    }
}

/// A thought as a card row; a review without an id is skipped. Empty
/// chapter names, excerpts and ranges are absent, and chapter id 0 means
/// no chapter.
pub fn thought_card<'a>(rv: &'a ReviewDetail, book_row_id: i64) -> (r: Option<UpsertCard<'a>>)
    ensures
        rv.review_id@.len() == 0 <==> r is None,
        r matches Some(u) ==> {
            &&& u.kind@ == "thought"@
            &&& u.book_row_id == book_row_id
            &&& u.remote_id@ == rv.review_id@
            &&& u.chapter_uid == (if rv.chapter_uid != 0 {
                Some(rv.chapter_uid)
            } else {
                None
            })
            &&& opt_str(u.chapter_title) == non_empty(rv.chapter_name@)
            &&& u.text@ == rv.content@
            &&& opt_str(u.abstract_text) == non_empty(rv.abstract_text@)
            &&& opt_str(u.range_str) == non_empty(rv.range@)
            &&& u.color_style == 0
            &&& u.created_at == stored_time(rv.create_time)
        },
{
    if crate::text::chars_of(rv.review_id.as_str()).len() == 0 {
        return None;
    }
    Some(UpsertCard {
        kind: "thought",
        book_row_id,
        remote_id: rv.review_id.as_str(),
        chapter_uid: if rv.chapter_uid != 0 {
            Some(rv.chapter_uid)
        } else {
            None
        },
        chapter_title: non_empty_str(&rv.chapter_name),
        text: rv.content.as_str(),
        abstract_text: non_empty_str(&rv.abstract_text),
        range_str: non_empty_str(&rv.range),
        color_style: 0,
        created_at: if rv.create_time > 1 {
            rv.create_time
        } else {
            1
        },
    })
}

/// A notebook entry as the book row to store.
pub fn new_book(nb: &NotebookBook) -> (r: NewBook)
    ensures
        r.weread_book_id@ == nb.book.book_id@,
        r.title@ == nb.book.title@,
        r.author@ == nb.book.author@,
        r.cover@ == nb.book.cover@,
        r.reading_progress == nb.reading_progress,
        r.note_count == nb.note_count,
        r.review_count == nb.review_count,
{
    NewBook {
        weread_book_id: nb.book.book_id.clone(),
        title: nb.book.title.clone(),
        author: nb.book.author.clone(),
        cover: nb.book.cover.clone(),
        reading_progress: nb.reading_progress,
        note_count: nb.note_count,
        review_count: nb.review_count,
    }
}

/// The tally at the start of a run over `books_total` books.
pub fn start_summary(books_total: usize) -> (r: SyncSummary)
    ensures
        r.books_total == books_total,
        r.books_synced == 0 && r.books_failed == 0 && r.failures@.len() == 0,
        r.highlights == 0 && r.thoughts == 0 && r.added == 0 && r.removed == 0,
{
    let mut s = SyncSummary::default();
    s.books_total = books_total;
    s
}

/// Counts a book synced with its highlights, thoughts, added and removed
/// cards.
pub fn record_synced(summary: &mut SyncSummary, counts: (usize, usize, usize, usize))
    requires
        old(summary).books_synced < usize::MAX,
        old(summary).highlights + counts.0 <= usize::MAX,
        old(summary).thoughts + counts.1 <= usize::MAX,
        old(summary).added + counts.2 <= usize::MAX,
        old(summary).removed + counts.3 <= usize::MAX,
    ensures
        final(summary).books_total == old(summary).books_total,
        final(summary).books_synced == old(summary).books_synced + 1,
        final(summary).books_failed == old(summary).books_failed,
        final(summary).failures == old(summary).failures,
        final(summary).highlights == old(summary).highlights + counts.0,
        final(summary).thoughts == old(summary).thoughts + counts.1,
        final(summary).added == old(summary).added + counts.2,
        final(summary).removed == old(summary).removed + counts.3,
{
    summary.books_synced = summary.books_synced + 1;
    summary.highlights = summary.highlights + counts.0;
    summary.thoughts = summary.thoughts + counts.1;
    summary.added = summary.added + counts.2;
    summary.removed = summary.removed + counts.3;
}

/// Counts a book that failed, with its id, title and the error; the other
/// books go on.
pub fn record_failed(summary: &mut SyncSummary, nb: &NotebookBook, error: String)
    requires
        old(summary).books_failed < usize::MAX,
    ensures
        final(summary).books_total == old(summary).books_total,
        final(summary).books_synced == old(summary).books_synced,
        final(summary).books_failed == old(summary).books_failed + 1,
        final(summary).failures@.len() == old(summary).failures@.len() + 1,
        forall|i: int| 0 <= i < old(summary).failures@.len() ==> final(summary).failures@[i] == old(summary).failures@[i],
        final(summary).failures@.last().book_id@ == nb.book.book_id@,
        final(summary).failures@.last().title@ == nb.book.title@,
        final(summary).failures@.last().error == error,
        final(summary).highlights == old(summary).highlights,
        final(summary).thoughts == old(summary).thoughts,
        final(summary).added == old(summary).added,
        final(summary).removed == old(summary).removed,
{
    summary.books_failed = summary.books_failed + 1;
    summary.failures.push(FailedBook { book_id: nb.book.book_id.clone(), title: nb.book.title.clone(), error });
}

/// A progress event.
pub fn sync_event(stage: &str, current: i64, total: i64, book_title: &str) -> (r: SyncEvent)
    ensures
        r.stage@ == stage@,
        r.current == current,
        r.total == total,
        r.book_title@ == book_title@,
{
    SyncEvent { stage: owned(stage), current, total, book_title: owned(book_title) }
}

} // verus!
