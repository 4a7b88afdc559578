use study_app::domain::{Note, NoteKind, QuestionOrigin};
use study_app::repo::notes::create;
use study_app::repo::review::{grade_marks_failing, question_for_drift, question_for_grade, queue, Candidate};
use study_app::review::{interleave, interleave_by, Grade, DAILY_CAP};

/// Interleaves by each item's topic, the first of the pair.
fn by_topic(items: Vec<(&'static str, i32)>) -> Vec<(&'static str, i32)> {
    let keyed = items.into_iter().map(|item| (item.0.to_string(), item)).collect();
    interleave(keyed).into_iter().map(|(_, item)| item).collect()
}

#[test]
fn topics_are_interleaved_rather_than_blocked() {
    let items = vec![("a", 1), ("a", 2), ("a", 3), ("b", 1), ("b", 2), ("c", 1)];
    let out = by_topic(items);
    let topics: Vec<_> = out.iter().map(|(t, _)| *t).collect();

    assert_eq!(topics, vec!["a", "b", "c", "a", "b", "a"]);
}

#[test]
fn interleaving_one_topic_changes_nothing() {
    let items = vec![("a", 1), ("a", 2)];
    let out = by_topic(items);
    assert_eq!(out, vec![("a", 1), ("a", 2)]);
}

#[test]
fn interleaving_keeps_the_order_within_a_topic() {
    let items = vec![("b", 1), ("a", 1), ("b", 2), ("a", 2), ("b", 3)];
    let out = by_topic(items);
    assert_eq!(out, vec![("b", 1), ("a", 1), ("b", 2), ("a", 2), ("b", 3)]);
}

#[test]
fn interleaving_nothing_gives_nothing() {
    let items: Vec<(&str, i32)> = vec![];
    assert!(by_topic(items).is_empty());
}

fn recalled_note(title: &str, at: i128) -> Note {
    let mut n = create(None, title, NoteKind::Atomic, at);
    n.distilled_at = Some(at);
    n.last_recall_at = Some(at);
    n.content_hash_at_recall = Some(n.content_hash.clone());
    n
}

fn candidate(note: Note, topic: Option<&str>) -> Candidate {
    Candidate {
        note,
        topic_id: topic.map(|t| t.to_string()),
        topic_title: topic.map(|t| t.to_uppercase()),
        reps: None,
    }
}

#[test]
fn the_queue_never_grows_past_a_days_worth() {
    let candidates: Vec<Candidate> =
        (0..30).map(|i| candidate(recalled_note(&format!("Concepto {i}"), i), Some("t"))).collect();
    let cards = queue(candidates);
    assert_eq!(cards.len() as i64, DAILY_CAP);
    assert_eq!(cards[0].note.title, "Concepto 0");
    assert_eq!(cards[19].note.title, "Concepto 19");
}

#[test]
fn a_draft_never_becomes_a_card() {
    let draft = create(None, "Sólo un borrador", NoteKind::Long, 1);
    let cards = queue(vec![candidate(draft, None), candidate(recalled_note("Ley de Ohm", 2), None)]);
    assert_eq!(cards.len(), 1);
    assert_eq!(cards[0].note.title, "Ley de Ohm");
    assert_eq!(cards[0].reps, 0);
    assert!(cards[0].flags.visible);
}

#[test]
fn the_queue_interleaves_boards() {
    let cards = queue(vec![
        candidate(recalled_note("a1", 1), Some("a")),
        candidate(recalled_note("a2", 2), Some("a")),
        candidate(recalled_note("b1", 3), Some("b")),
    ]);
    let titles: Vec<_> = cards.iter().map(|c| c.note.title.clone()).collect();
    assert_eq!(titles, vec!["a1", "b1", "a2"]);
}

#[test]
fn missing_a_card_files_a_question_at_the_review_failure_origin() {
    let note = Some(recalled_note("Entropía", 1));
    let (text, origin) = question_for_grade(Grade::Again, &note).unwrap();
    assert_eq!(text, "Why did I miss: Entropía?");
    assert_eq!(origin, QuestionOrigin::ReviewFailure);
    assert!(question_for_grade(Grade::Good, &note).is_none());
    assert!(question_for_grade(Grade::Hard, &note).is_none());
    assert!(question_for_grade(Grade::Easy, &note).is_none());

    let (text, _) = question_for_grade(Grade::Again, &None).unwrap();
    assert_eq!(text, "Why did I miss: this note?");
}

#[test]
fn a_drifted_card_that_needs_work_files_a_recall_gap() {
    let note = Some(recalled_note("Polarización", 1));
    let (text, origin) = question_for_drift(&note);
    assert_eq!(text, "What changed in: Polarización?");
    assert_eq!(origin, QuestionOrigin::RecallGap);
}

#[test]
fn interleaving_by_parallel_keys_agrees() {
    let items = vec![1, 2, 3, 4];
    let keys: Vec<String> = ["x", "x", "y", "z"].iter().map(|k| k.to_string()).collect();
    assert_eq!(interleave_by(items, &keys), vec![1, 3, 4, 2]);
}

#[test]
fn only_a_miss_marks_the_note_failing() {
    assert!(grade_marks_failing(Grade::Again));
    assert!(!grade_marks_failing(Grade::Hard));
    assert!(!grade_marks_failing(Grade::Good));
    assert!(!grade_marks_failing(Grade::Easy));
}
