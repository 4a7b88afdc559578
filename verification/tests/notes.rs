use study_app::domain::{content_hash, Note, NoteKind};
use study_app::error::AppError;
use study_app::note_state::RecallState;
use study_app::repo::notes::{
    create, day_page_target, library, record_contrast, record_recall, record_review_failure,
    save_body, search, set_kind, set_source, LibraryFilter,
};

const HOUR: i128 = 3_600_000_000_000;

fn titled(title: &str, body: &str, at: i128) -> Note {
    let n = create(None, title, NoteKind::Long, at);
    save_body(n, title, "", "{}", "<p/>", body, at)
}

#[test]
fn a_capture_starts_empty_and_raw() {
    let n = create(Some("given".into()), "Idea", NoteKind::Long, 7);
    assert_eq!(n.id, "given");
    assert_eq!(n.title, "Idea");
    assert_eq!(n.body_text, "");
    assert_eq!(n.content_hash, content_hash(""));
    assert_eq!(n.created_at, 7);
    assert_eq!(n.recall_state(), RecallState::Raw);
    assert_eq!(create(None, "x", NoteKind::Long, 0).id.len(), 36);
}

#[test]
fn writing_a_body_distils_a_capture_once() {
    let n = create(None, "Ley de Ohm", NoteKind::Long, 1);
    let spaces = save_body(n, "Ley de Ohm", "", "{}", "<p/>", "   ", 2);
    assert_eq!(spaces.distilled_at, None);
    let written = save_body(spaces, "Ley de Ohm", "", "{}", "<p>V</p>", "V es I por R", 3);
    assert_eq!(written.distilled_at, Some(3));
    assert_eq!(written.content_edited_at, Some(3));
    assert_eq!(written.recall_state(), RecallState::Draft);
    let again = save_body(written, "Ley de Ohm", "", "{}", "<p>V</p>", "V es I por R!", 4);
    assert_eq!(again.distilled_at, Some(3));
}

#[test]
fn the_two_axes_are_written_by_two_separate_steps() {
    let n = titled("Ley de Ohm", "V es I por R", 0);
    let r = record_recall(n, "{}", "<p>V es I por R</p>", "V es I por R", 30 * HOUR);
    assert_eq!(r.recall_state(), RecallState::Recalled);
    assert!(r.never_contrasted());
    let c = record_contrast(r, 31 * HOUR);
    assert_eq!(c.recall_state(), RecallState::Recalled);
    assert!(!c.never_contrasted());
}

#[test]
fn reciting_text_written_moments_ago_does_not_count() {
    let n = titled("Ley de Ohm", "V es I por R", 0);
    let r = record_recall(n, "{}", "<p>V es I por R</p>", "V es I por R", HOUR);
    assert!(r.last_recall_at.is_some(), "the recall is still recorded");
    assert_eq!(r.recall_state(), RecallState::EditedSinceRecall);
}

#[test]
fn a_review_failure_keeps_the_recall_it_supersedes() {
    let n = titled("Entropía", "x", 0);
    let r = record_recall(n, "{}", "<p>x</p>", "x", 30 * HOUR);
    let f = record_review_failure(r, 40 * HOUR);
    assert_eq!(f.recall_state(), RecallState::Failing);
    assert_eq!(f.last_recall_at, Some(30 * HOUR));
}

#[test]
fn distilling_copies_and_titling_is_what_makes_it_atomic() {
    let long = titled("Nota larga", "cuerpo", 0);
    let extract = create(None, "", NoteKind::Long, 1);
    let extract = set_source(extract, Some(long.id.clone()), 2).ok().unwrap();
    let untitled = save_body(extract, "", "", "{}", "<p>un concepto</p>", "un concepto", 3);
    assert_eq!(untitled.kind, NoteKind::Long);
    let titled_extract = save_body(untitled, "Un concepto", "", "{}", "<p>un concepto</p>", "un concepto", 4);
    assert_eq!(titled_extract.kind, NoteKind::Atomic);
}

#[test]
fn titling_an_ordinary_long_note_leaves_it_long() {
    let n = create(None, "", NoteKind::Long, 0);
    let n = save_body(n, "Ahora con título", "", "{}", "<p>x</p>", "x", 1);
    assert_eq!(n.kind, NoteKind::Long);
}

#[test]
fn a_note_cannot_be_its_own_source() {
    let n = create(Some("n1".into()), "", NoteKind::Long, 0);
    match set_source(n, Some("n1".into()), 1) {
        Err(AppError::Invalid(msg)) => assert_eq!(msg, "a note cannot be its own source"),
        other => panic!("unexpected: {other:?}"),
    }
    let n = create(Some("n1".into()), "", NoteKind::Long, 0);
    let cleared = set_source(n, None, 5).ok().unwrap();
    assert_eq!(cleared.source_note_id, None);
    assert_eq!(cleared.updated_at, 5);
}

#[test]
fn setting_the_kind_touches_nothing_else() {
    let n = titled("x", "y", 0);
    let a = set_kind(n.clone(), NoteKind::Atomic, 9);
    assert_eq!(a.kind, NoteKind::Atomic);
    assert_eq!(a.updated_at, 9);
    assert_eq!(a.content_edited_at, n.content_edited_at);
}

#[test]
fn search_folds_spanish_accents_but_not_the_enye() {
    let notes = || vec![titled("Localización de memoria", "", 0), titled("El año pasado", "", 1)];
    assert_eq!(search(notes(), "localizacion").len(), 1);
    assert_eq!(search(notes(), "LOCALIZACIÓN").len(), 1);
    assert_eq!(search(notes(), "año")[0].title, "El año pasado");
    assert!(search(notes(), "ano").is_empty());
}

#[test]
fn the_library_search_folds_spanish_and_reads_the_summary() {
    let mut d = titled("Difracción", "cuerpo", 0);
    d.summary = "Cómo se curva una onda al pasar por una rendija".into();
    let notes = || vec![d.clone(), titled("Idea suelta", "", 1)];
    let f = |q: &str| LibraryFilter { query: Some(q.into()), ..Default::default() };
    assert_eq!(library(notes(), &f("difraccion"), None).len(), 1, "accents fold");
    assert_eq!(library(notes(), &f("rendija"), None).len(), 1, "the summary is searched too");
    assert_eq!(library(notes(), &f("cuerpo"), None).len(), 1, "so is the body");
    assert!(library(notes(), &f("nada"), None).is_empty());
    assert_eq!(library(notes(), &f("   "), None).len(), 2);
}

#[test]
fn a_tag_and_recalled_only_narrow_the_library() {
    let a = titled("Óptica", "", 0);
    let mut b = titled("Difracción", "", 1);
    b.last_recall_at = Some(2);
    let notes = || vec![a.clone(), b.clone()];
    let tagged = Some(vec![a.id.clone()]);
    assert_eq!(library(notes(), &LibraryFilter::default(), tagged.clone())[0].title, "Óptica");
    let recalled = LibraryFilter { recalled_only: Some(true), ..Default::default() };
    let got = library(notes(), &recalled, None);
    assert_eq!(got.len(), 1);
    assert_eq!(got[0].title, "Difracción");
    assert!(library(notes(), &recalled, tagged).is_empty());
}

#[test]
fn a_day_page_appears_on_first_write_only() {
    let fresh = day_page_target(None, "2026-09-09", 5);
    assert_eq!(fresh.journal_day.as_deref(), Some("2026-09-09"));
    assert_eq!(fresh.title, "");
    assert_eq!(fresh.kind, NoteKind::Long);
    let again = day_page_target(Some(fresh.clone()), "2026-09-09", 6);
    assert_eq!(again.id, fresh.id);
}

use study_app::repo::notes::{captured_on, tick_task, DAY_NANOS};

#[test]
fn the_journal_is_a_filter_over_captures_not_a_container() {
    let day = 20 * DAY_NANOS;
    let mut page = create(None, "", NoteKind::Long, day + 5);
    page.journal_day = Some("2026-09-09".into());
    let notes = vec![
        create(None, "Otra idea", NoteKind::Long, day + 10),
        create(None, "ayer", NoteKind::Long, day - 1),
        create(None, "Una idea", NoteKind::Long, day + 1),
        page,
        create(None, "mañana", NoteKind::Long, day + DAY_NANOS),
    ];
    let titles: Vec<String> = captured_on(notes, day).into_iter().map(|n| n.title).collect();
    assert_eq!(titles, vec!["Una idea", "Otra idea"]);
}

#[test]
fn ticking_leaves_the_text_and_its_hash_alone() {
    let n = titled("Pendientes", "primera segunda", 0);
    let t = tick_task(n.clone(), "{}".into(), "<p/>".into(), 9);
    assert_eq!(t.body_text, n.body_text);
    assert_eq!(t.content_edited_at, n.content_edited_at);
    assert_eq!(t.updated_at, 9);
}

use study_app::repo::notes::{check_day, day_range, day_start};

#[test]
fn a_day_is_named_by_its_date() {
    assert!(check_day("2026-09-09").is_ok());
    match check_day("mañana") {
        Err(AppError::Invalid(msg)) => assert_eq!(msg, "not a date: mañana"),
        other => panic!("unexpected {other:?}"),
    }
    assert_eq!(day_start("1970-01-02").ok(), Some(DAY_NANOS));
    assert_eq!(day_start("1969-12-31").ok(), Some(-DAY_NANOS));
    match day_start("2026-02-30") {
        Err(AppError::Invalid(msg)) => assert_eq!(msg, "not a date: 2026-02-30"),
        other => panic!("unexpected {other:?}"),
    }
}

#[test]
fn a_range_of_days_runs_to_the_end_of_its_last_day() {
    assert_eq!(day_range("1970-01-01", "1970-01-03").ok(), Some((0, 3 * DAY_NANOS)));
    match day_range("x", "y") {
        Err(AppError::Invalid(msg)) => assert_eq!(msg, "not a date: x"),
        other => panic!("unexpected {other:?}"),
    }
    match day_range("1970-01-01", "y") {
        Err(AppError::Invalid(msg)) => assert_eq!(msg, "not a date: y"),
        other => panic!("unexpected {other:?}"),
    }
}
