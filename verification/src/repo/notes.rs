//! Notes.
//!
//! Nothing here writes a status, because there isn't one. The writers record
//! *events* (a body was edited, a recall happened, a source was contrasted, a
//! review failed) and the state follows from those facts the next time it is
//! read. Each function takes the stored note and the moment of the event, and
//! returns the note as it is to be stored afterwards.

use vstd::prelude::*;

use crate::domain::{content_hash, is_uuid_text, new_id, spec_content_hash, Note, NoteKind};
use crate::error::{invalid, is_invalid, AppError};
use crate::repo::derived::{parse_date, spec_parse_date};
use crate::order::{in_order, insert_in_order, Ranked};
use crate::note_state::{
    matches_es, spec_flags, spec_matches_es, spec_never_contrasted, spec_recall_is_cooling,
    spec_recall_state, RecallState,
};
use crate::text::{
    all_spaces, chars_of, law_trimming_twice_changes_nothing, list_holds, push_range, string_of, string_views, trim, trim_chars, trim_spaces,
};

verus! {

/// Capture: a fresh note with a title and nothing else. The id is the one
/// given, or a fresh one.
pub fn create(id: Option<String>, title: &str, kind: NoteKind, now: i128) -> (res: Note)
    ensures
        id matches Some(given) ==> res.id == given,
        id is None ==> is_uuid_text(res.id@),
        res.kind == kind,
        res.title@ == title@,
        res.summary@ == Seq::<char>::empty(),
        res.body_json@ == Seq::<char>::empty(),
        res.body_html@ == Seq::<char>::empty(),
        res.body_text@ == Seq::<char>::empty(),
        res.content_hash@ == spec_content_hash(Seq::empty()),
        res.distilled_at is None,
        res.last_recall_at is None,
        res.last_checked_at is None,
        res.last_recall_failed_at is None,
        res.content_edited_at is None,
        res.content_hash_at_recall is None,
        res.source_note_id is None,
        res.journal_day is None,
        res.created_at == now,
        res.updated_at == now,
{
    let id = match id {
        Some(given) => given,
        None => new_id(),
    };
    proof {
        reveal_strlit("");
    }
    Note {
        id,
        kind,
        title: title.to_owned(),
        summary: String::new(),
        body_json: String::new(),
        body_html: String::new(),
        body_text: String::new(),
        content_hash: content_hash(""),
        distilled_at: None,
        last_recall_at: None,
        last_checked_at: None,
        last_recall_failed_at: None,
        content_edited_at: None,
        content_hash_at_recall: None,
        source_note_id: None,
        journal_day: None,
        created_at: now,
        updated_at: now,
    }
}

/// The kind after an ordinary save: giving an untitled note that was
/// distilled from a source its first title is what makes it atomic.
pub open spec fn kind_after_save(note: Note, title: Seq<char>) -> NoteKind {
    if note.kind == NoteKind::Long && note.source_note_id is Some && trim_spaces(note.title@).len()
        == 0 && trim_spaces(title).len() != 0 {
        NoteKind::Atomic
    } else {
        note.kind
    }
}

/// `res` is `note` after an ordinary save at `now` of these texts.
pub open spec fn saved(
    note: Note,
    res: Note,
    title: Seq<char>,
    summary: Seq<char>,
    body_json: Seq<char>,
    body_html: Seq<char>,
    body_text: Seq<char>,
    now: i128,
) -> bool {
    &&& res.title@ == title
    &&& res.summary@ == summary
    &&& res.body_json@ == body_json
    &&& res.body_html@ == body_html
    &&& res.body_text@ == body_text
    &&& res.content_hash@ == spec_content_hash(body_text)
    &&& res.content_edited_at == Some(now)
    &&& res.distilled_at == if note.distilled_at is Some {
        note.distilled_at
    } else if trim_spaces(body_text).len() != 0 {
        Some(now)
    } else {
        None
    }
    &&& res.kind == kind_after_save(note, title)
    &&& res.updated_at == now
    &&& res.id == note.id
    &&& res.last_recall_at == note.last_recall_at
    &&& res.last_checked_at == note.last_checked_at
    &&& res.last_recall_failed_at == note.last_recall_failed_at
    &&& res.content_hash_at_recall == note.content_hash_at_recall
    &&& res.source_note_id == note.source_note_id
    &&& res.journal_day == note.journal_day
    &&& res.created_at == note.created_at
}

/// An ordinary edit, with the source available, at `now`.
///
/// Records the edit (`content_edited_at`, which the cooling rule reads), and
/// distils the note the first time it gains a body that is more than spaces.
pub fn save_body(
    note: Note,
    title: &str,
    summary: &str,
    body_json: &str,
    body_html: &str,
    body_text: &str,
    now: i128,
) -> (res: Note)
    ensures
        saved(note, res, title@, summary@, body_json@, body_html@, body_text@, now),
{
    let kind = if note.kind == NoteKind::Long && note.source_note_id.is_some() && all_spaces(
        note.title.as_str(),
    ) && !all_spaces(title) {
        NoteKind::Atomic
    } else {
        note.kind
    };
    let distilled_at = match note.distilled_at {
        Some(at) => Some(at),
        None => if all_spaces(body_text) {
            None
        } else {
            Some(now)
        },
    };
    Note {
        kind,
        title: title.to_owned(),
        summary: summary.to_owned(),
        body_json: body_json.to_owned(),
        body_html: body_html.to_owned(),
        body_text: body_text.to_owned(),
        content_hash: content_hash(body_text),
        distilled_at,
        content_edited_at: Some(now),
        updated_at: now,
        ..note
    }
}

/// `res` is `note` after a blind rewrite of these texts was saved at `now`.
pub open spec fn recalled(
    note: Note,
    res: Note,
    body_json: Seq<char>,
    body_html: Seq<char>,
    body_text: Seq<char>,
    now: i128,
) -> bool {
    &&& res.body_json@ == body_json
    &&& res.body_html@ == body_html
    &&& res.body_text@ == body_text
    &&& res.content_hash@ == spec_content_hash(body_text)
    &&& res.last_recall_at == Some(now)
    &&& res.distilled_at == if note.distilled_at is Some {
        note.distilled_at
    } else {
        Some(now)
    }
    &&& spec_recall_is_cooling(note, now) ==> res.content_hash_at_recall
        == note.content_hash_at_recall
    &&& !spec_recall_is_cooling(note, now) ==> (res.content_hash_at_recall matches Some(h) && h@
        == spec_content_hash(body_text))
    &&& res.updated_at == now
    &&& res.id == note.id
    &&& res.kind == note.kind
    &&& res.title == note.title
    &&& res.summary == note.summary
    &&& res.last_checked_at == note.last_checked_at
    &&& res.last_recall_failed_at == note.last_recall_failed_at
    &&& res.content_edited_at == note.content_edited_at
    &&& res.source_note_id == note.source_note_id
    &&& res.journal_day == note.journal_day
    &&& res.created_at == note.created_at
}

/// Memory mode: the blind rewrite is saved at `now`, and the recall with it.
///
/// `content_edited_at` is untouched. Within the cooling window of the last
/// ordinary edit the recall is recorded, but `content_hash_at_recall` is left
/// alone, so the note keeps reading as edited.
pub fn record_recall(
    note: Note,
    body_json: &str,
    body_html: &str,
    body_text: &str,
    now: i128,
) -> (res: Note)
    ensures
        recalled(note, res, body_json@, body_html@, body_text@, now),
{
    let cooling = note.recall_is_cooling(now);
    let hash = content_hash(body_text);
    let distilled_at = match note.distilled_at {
        Some(at) => Some(at),
        None => Some(now),
    };
    let content_hash_at_recall = if cooling {
        note.content_hash_at_recall
    } else {
        Some(content_hash(body_text))
    };
    Note {
        body_json: body_json.to_owned(),
        body_html: body_html.to_owned(),
        body_text: body_text.to_owned(),
        content_hash: hash,
        last_recall_at: Some(now),
        distilled_at,
        content_hash_at_recall,
        updated_at: now,
        ..note
    }
}

/// Memory mode, last step: the source was revealed and compared at `now`.
pub fn record_contrast(note: Note, now: i128) -> (res: Note)
    ensures
        res == (Note { last_checked_at: Some(now), updated_at: now, ..note }),
{
    Note { last_checked_at: Some(now), updated_at: now, ..note }
}

/// A review failed at `now`. The recall it supersedes is kept.
pub fn record_review_failure(note: Note, now: i128) -> (res: Note)
    ensures
        res == (Note { last_recall_failed_at: Some(now), updated_at: now, ..note }),
{
    Note { last_recall_failed_at: Some(now), updated_at: now, ..note }
}

pub fn set_kind(note: Note, kind: NoteKind, now: i128) -> (res: Note)
    ensures
        res == (Note { kind: kind, updated_at: now, ..note }),
{
    Note { kind, updated_at: now, ..note }
}

/// Links the long note this one is distilled from. Metadata, not content: the
/// edit time is left alone. A note cannot be its own source.
pub fn set_source(note: Note, source_note_id: Option<String>, now: i128) -> (res: Result<
    Note,
    AppError,
>)
    ensures
        (source_note_id matches Some(s) && s@ == note.id@) ==> (res matches Err(e) && is_invalid(
            e,
            "a note cannot be its own source"@,
        )),
        !(source_note_id matches Some(s) && s@ == note.id@) ==> res == Ok::<Note, AppError>(
            (Note { source_note_id: source_note_id, updated_at: now, ..note }),
        ),
{
    let own = match &source_note_id {
        Some(s) => *s == note.id,
        None => false,
    };
    if own {
        return Err(invalid("a note cannot be its own source"));
    }
    Ok(Note { source_note_id, updated_at: now, ..note })
}

/// The notes of `ns` for which `keep` holds, in order.
pub open spec fn keep_if(ns: Seq<Note>, keep: spec_fn(Note) -> bool) -> Seq<Note>
    decreases ns.len(),
{
    if ns.len() == 0 {
        Seq::empty()
    } else if keep(ns.last()) {
        keep_if(ns.drop_last(), keep).push(ns.last())
    } else {
        keep_if(ns.drop_last(), keep)
    }
}

/// A note is a search hit when the query matches its title or its body.
pub open spec fn search_hit(n: Note, query: Seq<char>) -> bool {
    spec_matches_es(n.title@, query) || spec_matches_es(n.body_text@, query)
}

/// Accent- and case-insensitive search over Spanish content: the notes whose
/// title or body matches, in the order given.
pub fn search(notes: Vec<Note>, query: &str) -> (res: Vec<Note>)
    ensures
        res@ == keep_if(notes@, |n: Note| search_hit(n, query@)),
{
    let ghost orig = notes@;
    let ghost keep = |n: Note| search_hit(n, query@);
    let mut out: Vec<Note> = Vec::new();
    for n in it: notes
        invariant
            it.seq() == orig,
            keep == (|n: Note| search_hit(n, query@)),
            out@ == keep_if(it.seq().take(it.index() as int), keep),
    {
        let hit = matches_es(n.title.as_str(), query) || matches_es(n.body_text.as_str(), query);
        let ghost seen = it.seq().take(it.index() + 1);
        assert(seen.drop_last() =~= it.seq().take(it.index() as int));
        if hit {
            out.push(n);
        }
    }
    assert(orig.take(orig.len() as int) =~= orig);
    out
}

/// What the note library is filtered by.
///
/// `recalled_only` narrows to notes that have been reproduced from memory;
/// there is no filter for the undistilled.
#[derive(Debug, Default)]
pub struct LibraryFilter {
    /// Accent-insensitive, Spanish-folded.
    pub query: Option<String>,
    /// Notes placed on this board.
    pub topic_id: Option<String>,
    /// The inbox: captured, never placed anywhere.
    pub unplaced_only: Option<bool>,
    /// Only notes that have been reproduced from memory.
    pub recalled_only: Option<bool>,
    /// Only notes carrying this tag.
    pub tag_id: Option<String>,
}

/// The query a filter searches for: trimmed, empty when absent.
pub open spec fn filter_query(f: LibraryFilter) -> Seq<char> {
    match f.query {
        Some(q) => trim(q@),
        None => Seq::empty(),
    }
}

/// Whether a library filter lets a note through. `tagged`, when present, holds
/// the ids of the notes carrying the filter's tag: a tag narrows whatever
/// scope is already chosen.
pub open spec fn library_keeps(
    n: Note,
    f: LibraryFilter,
    tagged: Option<Seq<Seq<char>>>,
) -> bool {
    &&& !(f.recalled_only == Some(true) && n.last_recall_at is None)
    &&& tagged matches Some(ids) ==> ids.contains(n.id@)
    &&& {
        let q = filter_query(f);
        q.len() == 0 || spec_matches_es(n.title@, q) || spec_matches_es(n.summary@, q)
            || spec_matches_es(n.body_text@, q)
    }
}

/// The ids of the tagged notes, as characters.
pub open spec fn tag_view(tagged: Option<Vec<String>>) -> Option<Seq<Seq<char>>> {
    match tagged {
        Some(ids) => Some(string_views(ids@)),
        None => None,
    }
}

/// The library: the notes of the chosen scope (every note, one board's, or
/// the unplaced ones, as the caller read them) that the filter lets through,
/// in the order given. `tagged` holds the ids of the notes carrying the
/// filter's tag when it names one.
pub fn library(notes: Vec<Note>, filter: &LibraryFilter, tagged: Option<Vec<String>>) -> (res:
    Vec<Note>)
    ensures
        res@ == keep_if(
            notes@,
            |n: Note|
                library_keeps(
                    n,
                    *filter,
                    tag_view(tagged),
                ),
        ),
{
    let ghost orig = notes@;
    let ghost tagged_view = tag_view(tagged);
    let ghost keep = |n: Note| library_keeps(n, *filter, tagged_view);
    let qv: Vec<char> = match &filter.query {
        Some(q) => trim_chars(&chars_of(q.as_str())),
        None => Vec::new(),
    };
    let query = string_of(&qv);
    assert(query@ == filter_query(*filter));
    let recalled_only = match filter.recalled_only {
        Some(b) => b,
        None => false,
    };
    let mut out: Vec<Note> = Vec::new();
    for n in it: notes
        invariant
            it.seq() == orig,
            keep == (|n: Note| library_keeps(n, *filter, tagged_view)),
            tagged_view == tag_view(tagged),
            query@ == filter_query(*filter),
            qv@ == query@,
            recalled_only == (filter.recalled_only == Some(true)),
            out@ == keep_if(it.seq().take(it.index() as int), keep),
    {
        let ghost seen = it.seq().take(it.index() + 1);
        assert(seen.drop_last() =~= it.seq().take(it.index() as int));
        let recall_ok = !(recalled_only && n.last_recall_at.is_none());
        let tag_ok = match &tagged {
            Some(ids) => list_holds(ids, &n.id),
            None => true,
        };
        let query_ok = qv.len() == 0 || matches_es(n.title.as_str(), query.as_str())
            || matches_es(n.summary.as_str(), query.as_str()) || matches_es(
            n.body_text.as_str(),
            query.as_str(),
        );
        if recall_ok && tag_ok && query_ok {
            out.push(n);
        }
    }
    assert(orig.take(orig.len() as int) =~= orig);
    out
}

/// The note a day's page is written into: the existing page when there is
/// one, or a fresh untitled long note marked with the day. Visiting a day
/// never makes a page; only writing does.
pub fn day_page_target(existing: Option<Note>, day: &str, now: i128) -> (res: Note)
    ensures
        existing matches Some(page) ==> res == page,
        existing is None ==> {
            &&& is_uuid_text(res.id@)
            &&& res.kind == NoteKind::Long
            &&& res.title@ == Seq::<char>::empty()
            &&& res.summary@ == Seq::<char>::empty()
            &&& res.body_json@ == Seq::<char>::empty()
            &&& res.body_html@ == Seq::<char>::empty()
            &&& res.body_text@ == Seq::<char>::empty()
            &&& res.content_hash@ == spec_content_hash(Seq::empty())
            &&& res.journal_day matches Some(d) && d@ == day@
            &&& res.distilled_at is None
            &&& res.last_recall_at is None
            &&& res.last_checked_at is None
            &&& res.last_recall_failed_at is None
            &&& res.content_edited_at is None
            &&& res.content_hash_at_recall is None
            &&& res.source_note_id is None
            &&& res.created_at == now
            &&& res.updated_at == now
        },
{
    match existing {
        Some(page) => page,
        None => {
            let fresh = create(None, "", NoteKind::Long, now);
            proof {
                reveal_strlit("");
            }
            Note { journal_day: Some(day.to_owned()), ..fresh }
        },
    }
}

/// Reformatting alone never invalidates a recall: the content hash only reads
/// the body with its surrounding whitespace trimmed.
pub proof fn law_hash_ignores_surrounding_whitespace(a: Seq<char>, b: Seq<char>)
    requires
        trim(a) == trim(b),
    ensures
        spec_content_hash(a) == spec_content_hash(b),
{
}

/// Hashing a text and hashing it trimmed agree: `content_hash("  V = IR  ")`
/// is `content_hash("V = IR")`.
pub proof fn law_the_hash_of_the_trimmed_text(s: Seq<char>)
    ensures
        spec_content_hash(trim(s)) == spec_content_hash(s),
{
    law_trimming_twice_changes_nothing(s);
}

/// A recall made outside the cooling window, and not older than the last
/// failure, leaves the note recalled: a newer recall supersedes an older
/// failure and any earlier edit.
pub proof fn law_a_settled_recall_reads_recalled(
    note: Note,
    res: Note,
    body_json: Seq<char>,
    body_html: Seq<char>,
    body_text: Seq<char>,
    now: i128,
)
    requires
        recalled(note, res, body_json, body_html, body_text, now),
        !spec_recall_is_cooling(note, now),
        note.last_recall_failed_at matches Some(failed_at) ==> failed_at <= now,
    ensures
        spec_recall_state(res) == RecallState::Recalled,
{
}

/// A recall within the cooling window of an edit is recorded, but counts for
/// nothing: a note whose recorded hash does not match the new text keeps
/// reading as edited since recall (unless a newer failure says failing).
pub proof fn law_a_cooling_recall_does_not_count(
    note: Note,
    res: Note,
    body_json: Seq<char>,
    body_html: Seq<char>,
    body_text: Seq<char>,
    now: i128,
)
    requires
        recalled(note, res, body_json, body_html, body_text, now),
        spec_recall_is_cooling(note, now),
        !(note.content_hash_at_recall matches Some(h) && h@ == spec_content_hash(body_text)),
        note.last_recall_failed_at matches Some(failed_at) ==> failed_at <= now,
    ensures
        res.last_recall_at == Some(now),
        spec_recall_state(res) == RecallState::EditedSinceRecall,
{
}

/// A review failure after the last recall makes the note failing, and keeps
/// the recall it supersedes: "recalled but failing" is not "never recalled".
pub proof fn law_a_failure_after_a_recall_is_failing(note: Note, now: i128)
    requires
        note.last_recall_at matches Some(recalled_at) && recalled_at < now,
    ensures
        spec_recall_state(
            (Note { last_recall_failed_at: Some(now), updated_at: now, ..note }),
        ) == RecallState::Failing,
        (Note { last_recall_failed_at: Some(now), updated_at: now, ..note }).last_recall_at
            == note.last_recall_at,
{
}

/// Contrast is a separate axis: recording it never changes the recall state,
/// and a recalled note is no longer marked uncontrasted.
pub proof fn law_contrast_leaves_the_recall_state_alone(note: Note, now: i128)
    ensures
        spec_recall_state((Note { last_checked_at: Some(now), updated_at: now, ..note }))
            == spec_recall_state(note),
        !spec_never_contrasted((Note { last_checked_at: Some(now), updated_at: now, ..note })),
{
}

/// Editing a recalled note into different text reads as edited since recall,
/// not as decay; reformatting it (same text up to surrounding whitespace)
/// keeps it recalled.
pub proof fn law_an_edit_after_a_recall(
    note: Note,
    res: Note,
    title: Seq<char>,
    summary: Seq<char>,
    body_json: Seq<char>,
    body_html: Seq<char>,
    body_text: Seq<char>,
    now: i128,
)
    requires
        saved(note, res, title, summary, body_json, body_html, body_text, now),
        spec_recall_state(note) == RecallState::Recalled,
    ensures
        spec_content_hash(body_text) == note.content_hash@ ==> spec_recall_state(res)
            == RecallState::Recalled,
        spec_content_hash(body_text) != note.content_hash@ ==> spec_recall_state(res)
            == RecallState::EditedSinceRecall,
        note.content_hash@ == spec_content_hash(note.body_text@) && trim(body_text) == trim(
            note.body_text@,
        ) ==> spec_recall_state(res) == RecallState::Recalled,
{
}

/// Titling is what makes a note atomic, and only an untitled extract from a
/// source becomes atomic that way: an ordinary long note stays long.
pub proof fn law_only_a_titled_extract_becomes_atomic(note: Note, title: Seq<char>)
    ensures
        note.source_note_id is None ==> kind_after_save(note, title) == note.kind,
        kind_after_save(note, title) != note.kind ==> kind_after_save(note, title)
            == NoteKind::Atomic,
{
}

/// A task ticked or unticked in the note: the document and its rendering are
/// replaced, and nothing else but the update time. Ticking a box changes no
/// word of the note, so it is not an edit.
pub fn tick_task(note: Note, body_json: String, body_html: String, now: i128) -> (res: Note)
    ensures
        res == (Note { body_json: body_json, body_html: body_html, updated_at: now, ..note }),
{
    Note { body_json, body_html, updated_at: now, ..note }
}

/// Ticking a task costs no recall: both axes of the note's state read as
/// before, and no later recall falls in a cooling window it did not fall in
/// before.
pub proof fn law_ticking_a_task_costs_no_recall(
    note: Note,
    body_json: String,
    body_html: String,
    now: i128,
)
    ensures
        spec_flags((Note { body_json: body_json, body_html: body_html, updated_at: now, ..note }))
            == spec_flags(note),
        forall|at: i128|
            #[trigger] spec_recall_is_cooling(
                (Note { body_json: body_json, body_html: body_html, updated_at: now, ..note }),
                at,
            ) == spec_recall_is_cooling(note, at),
{
}

/// A day, in nanoseconds.
pub const DAY_NANOS: i128 = 86_400_000_000_000;

/// A capture made in the day starting at `start`, not a day's page.
pub open spec fn captured_within(n: Note, start: i128) -> bool {
    n.journal_day is None && start <= n.created_at && n.created_at < start + DAY_NANOS
}

/// The captures among `s` made in the day starting at `start`, in order.
pub open spec fn captures_of(s: Seq<Note>, start: i128) -> Seq<Note>
    decreases s.len(),
{
    if s.len() == 0 {
        Seq::empty()
    } else if captured_within(s.last(), start) {
        captures_of(s.drop_last(), start).push(s.last())
    } else {
        captures_of(s.drop_last(), start)
    }
}

impl Ranked for Note {
    /// Oldest first.
    open spec fn precedes(self, other: Self) -> bool {
        self.created_at <= other.created_at
    }

    proof fn precedes_total(a: Self, b: Self) {
    }

    proof fn precedes_transitive(a: Self, b: Self, c: Self) {
    }

    fn may_precede(&self, other: &Self) -> (res: bool) {
        self.created_at <= other.created_at
    }
}

/// Captures created on a given day, oldest first. The journal is a filter,
/// not a container: a day's own page is not a capture.
pub fn captured_on(notes: Vec<Note>, day_start: i128) -> (res: Vec<Note>)
    ensures
        res@.to_multiset() == captures_of(notes@, day_start).to_multiset(),
        in_order(res@),
{
    let ghost input = notes@;
    let mut out: Vec<Note> = Vec::new();
    proof {
        assert(input.take(0) =~= Seq::<Note>::empty());
    }
    for n in it: notes.into_iter()
        invariant
            it.seq() == input,
            in_order(out@),
            out@.to_multiset() == captures_of(input.take(it.index() as int), day_start).to_multiset(),
    {
        let ghost i = it.index() as int;
        proof {
            assert(input.take(i + 1).drop_last() =~= input.take(i));
            assert(input.take(i + 1).last() == n);
        }
        let before_end = if day_start > i128::MAX - DAY_NANOS {
            true
        } else {
            n.created_at < day_start + DAY_NANOS
        };
        if n.journal_day.is_none() && day_start <= n.created_at && before_end {
            insert_in_order(&mut out, n);
            proof {
                vstd::seq_lib::to_multiset_build(captures_of(input.take(i), day_start), n);
            }
        }
    }
    proof {
        assert(input.take(input.len() as int) =~= input);
    }
    out
}

/// The refusal of a day that is not a date.
pub open spec fn not_a_date(day: Seq<char>) -> Seq<char> {
    "not a date: "@ + day
}

fn refuse_day(day: &str) -> (res: AppError)
    ensures
        is_invalid(res, not_a_date(day@)),
{
    let mut msg = chars_of("not a date: ");
    let d = chars_of(day);
    let n = d.len();
    push_range(&mut msg, &d, 0, n);
    assert(d@.subrange(0, n as int) =~= day@);
    AppError::Invalid(string_of(&msg))
}

/// A day is named by its date, `YYYY-MM-DD`; anything chrono does not read as
/// a date is refused.
pub fn check_day(day: &str) -> (res: Result<(), AppError>)
    ensures
        spec_parse_date(day@) is None ==> (res matches Err(e) && is_invalid(e, not_a_date(day@))),
        spec_parse_date(day@) is Some ==> res is Ok,
{
    match parse_date(day) {
        Some(_) => Ok(()),
        None => Err(refuse_day(day)),
    }
}

/// The Unix time, in seconds, of midnight UTC at the start of the date
/// chrono reads in these characters.
pub uninterp spec fn spec_midnight_secs(day: Seq<char>) -> Option<i64>;

/// Calls `str::parse::<chrono::NaiveDate>`, then `and_hms_opt(0, 0, 0)`,
/// `and_utc` and `timestamp`. Trusted to give the result named
/// `spec_midnight_secs`, there exactly when chrono reads a date (every date
/// has a midnight); which instant it is, is not stated beyond the name.
#[verifier::external_body]
fn midnight_secs(day: &str) -> (res: Option<i64>)
    ensures
        res == spec_midnight_secs(day@),
        res is Some == spec_parse_date(day@) is Some,
{
    match day.parse::<chrono::NaiveDate>() {
        Ok(d) => match d.and_hms_opt(0, 0, 0) {
            Some(t) => Some(t.and_utc().timestamp()),
            None => None,
        },
        Err(_) => None,
    }
}

/// The instant a day starts at, in nanoseconds: midnight UTC of its date.
pub open spec fn start_of(secs: i64) -> i128 {
    (secs * 1_000_000_000) as i128
}

/// When a named day starts, or the refusal of a name that is not a date.
pub fn day_start(day: &str) -> (res: Result<i128, AppError>)
    ensures
        spec_midnight_secs(day@) is None ==> (res matches Err(e) && is_invalid(e, not_a_date(day@))),
        spec_midnight_secs(day@) matches Some(secs) ==> res == Ok::<i128, AppError>(start_of(secs)),
{
    match midnight_secs(day) {
        Some(secs) => {
            let s: i128 = secs as i128;
            Ok(s * 1_000_000_000)
        },
        None => Err(refuse_day(day)),
    }
}

/// The instants a range of days covers, from the start of `from` to the end
/// of `to`; the first name that is not a date is refused.
pub fn day_range(from: &str, to: &str) -> (res: Result<(i128, i128), AppError>)
    ensures
        spec_midnight_secs(from@) is None ==> (res matches Err(e) && is_invalid(e, not_a_date(from@))),
        spec_midnight_secs(from@) is Some && spec_midnight_secs(to@) is None ==> (res matches Err(e)
            && is_invalid(e, not_a_date(to@))),
        spec_midnight_secs(from@) matches Some(a) ==> (spec_midnight_secs(to@) matches Some(b) ==> res
            == Ok::<(i128, i128), AppError>((start_of(a), (start_of(b) + DAY_NANOS) as i128))),
{
    let start = day_start(from)?;
    let last = day_start(to)?;
    Ok((start, last + DAY_NANOS))
}

/// Whether a note is in a filtered list is whether it was in the list and
/// passes the filter.
proof fn lemma_keep_if_contains(ns: Seq<Note>, keep: spec_fn(Note) -> bool, n: Note)
    ensures
        keep_if(ns, keep).contains(n) == (ns.contains(n) && keep(n)),
    decreases ns.len(),
{
    if ns.len() > 0 {
        lemma_keep_if_contains(ns.drop_last(), keep, n);
        let rest = keep_if(ns.drop_last(), keep);
        if keep(ns.last()) {
            assert(rest.push(ns.last()).contains(n) == (rest.contains(n) || n == ns.last())) by {
                if n == ns.last() {
                    assert(rest.push(ns.last())[rest.len() as int] == n);
                }
                if rest.contains(n) {
                    let k = choose|k: int| 0 <= k < rest.len() && rest[k] == n;
                    assert(rest.push(ns.last())[k] == n);
                }
                if rest.push(ns.last()).contains(n) {
                    let k = choose|k: int| 0 <= k < rest.len() + 1 && rest.push(ns.last())[k] == n;
                    if k < rest.len() {
                        assert(rest[k] == n);
                    }
                }
            }
        }
        assert(ns.contains(n) == (ns.drop_last().contains(n) || n == ns.last())) by {
            if n == ns.last() {
                assert(ns[ns.len() - 1] == n);
            }
            if ns.contains(n) {
                let k = choose|k: int| 0 <= k < ns.len() && ns[k] == n;
                if k < ns.len() - 1 {
                    assert(ns.drop_last()[k] == n);
                }
            }
            if ns.drop_last().contains(n) {
                let k = choose|k: int| 0 <= k < ns.len() - 1 && ns.drop_last()[k] == n;
                assert(ns[k] == n);
            }
        }
    }
}

/// A search returns exactly the notes, among those searched, whose title or
/// whose body text holds the query once both are folded: a note found only by
/// its body is returned as surely as one found by its title.
pub proof fn law_search_reads_title_and_body(notes: Seq<Note>, query: Seq<char>, n: Note)
    ensures
        keep_if(notes, |m: Note| search_hit(m, query)).contains(n) == (notes.contains(n) && (
        spec_matches_es(n.title@, query) || spec_matches_es(n.body_text@, query))),
{
    lemma_keep_if_contains(notes, |m: Note| search_hit(m, query), n);
}

/// A recall distils the note: after it the note is distilled, at its earlier
/// distillation when it had one and at the recall otherwise, so a recalled
/// note may always enter a document.
pub proof fn law_a_recall_distils_the_note(
    note: Note,
    res: Note,
    body_json: Seq<char>,
    body_html: Seq<char>,
    body_text: Seq<char>,
    now: i128,
)
    requires
        recalled(note, res, body_json, body_html, body_text, now),
    ensures
        res.distilled_at is Some,
        note.distilled_at is None ==> res.distilled_at == Some(now),
        note.distilled_at is Some ==> res.distilled_at == note.distilled_at,
        spec_recall_state(res) != RecallState::Raw,
{
}

} // verus!
