use study_app::domain::{Question, QuestionOrigin, QuestionStatus};
use study_app::error::AppError;
use study_app::repo::questions::{
    create, open_count, queue, resolve, set_status, set_topic, unattached, QueuedQuestion,
};

fn q(id: &str, origin: QuestionOrigin, topic: Option<&str>, at: i128) -> Question {
    create(Some(id.into()), id, origin, topic.map(|t| t.to_string()), None, at)
}

fn ids(qs: &[Question]) -> Vec<&str> {
    qs.iter().map(|q| q.id.as_str()).collect()
}

#[test]
fn a_new_question_is_open_with_no_answer() {
    let made = create(None, "why?", QuestionOrigin::Capture, None, Some("n".into()), 3);
    assert_eq!(made.status, QuestionStatus::Open);
    assert_eq!(made.text, "why?");
    assert_eq!(made.answer_note_id, None);
    assert_eq!(made.source_note_id.as_deref(), Some("n"));
    assert_eq!(made.id.len(), 36);
}

#[test]
fn closing_a_question_requires_an_answer_note() {
    let open = q("why?", QuestionOrigin::Capture, None, 1);
    match resolve(open.clone(), "nope", false, 2) {
        Err(AppError::Invalid(msg)) => {
            assert_eq!(msg, "a question can only be resolved by linking a note that answers it")
        }
        other => panic!("unexpected {other:?}"),
    }
    let done = resolve(open.clone(), "because", true, 2).ok().unwrap();
    assert_eq!(done.status, QuestionStatus::Resolved);
    assert_eq!(done.answer_note_id.as_deref(), Some("because"));
    assert_eq!(done.updated_at, 2);

    match set_status(open, QuestionStatus::Resolved, 3) {
        Err(AppError::Invalid(msg)) => assert_eq!(msg, "resolving requires an answer note; use resolve instead"),
        other => panic!("unexpected {other:?}"),
    }
}

#[test]
fn abandoning_is_unconditional() {
    let resolved = resolve(q("x", QuestionOrigin::Capture, None, 1), "a", true, 2).ok().unwrap();
    let abandoned = set_status(resolved, QuestionStatus::Abandoned, 3).ok().unwrap();
    assert_eq!(abandoned.status, QuestionStatus::Abandoned);
    assert_eq!(abandoned.answer_note_id, None);
}

#[test]
fn placing_a_question_on_a_board_is_what_attaches_it() {
    let loose = q("¿Por qué se curva?", QuestionOrigin::Capture, None, 1);
    let placed = set_topic(loose, Some("optica".into()), 5);
    assert_eq!(placed.topic_id.as_deref(), Some("optica"));
    assert_eq!(placed.updated_at, 5);
}

fn entry(question: Question, visited: Option<i128>) -> QueuedQuestion {
    QueuedQuestion { question, topic_visited_at: visited }
}

#[test]
fn question_queue_orders_by_origin_not_by_date() {
    let entries = vec![
        entry(q("jotted while reading", QuestionOrigin::Capture, Some("t"), 3), Some(1)),
        entry(q("failed in review", QuestionOrigin::ReviewFailure, Some("t"), 2), Some(1)),
        entry(q("gap found from memory", QuestionOrigin::RecallGap, Some("t"), 1), Some(1)),
    ];
    let out = queue(entries, Some("t"));
    assert_eq!(ids(&out), vec!["gap found from memory", "failed in review", "jotted while reading"]);
}

#[test]
fn within_an_origin_the_recent_board_then_the_newest_question_comes_first() {
    let entries = vec![
        entry(q("old board", QuestionOrigin::Capture, Some("a"), 9), Some(1)),
        entry(q("no board", QuestionOrigin::Capture, None, 10), None),
        entry(q("fresh board, older", QuestionOrigin::Capture, Some("b"), 1), Some(5)),
        entry(q("fresh board, newer", QuestionOrigin::Capture, Some("b"), 2), Some(5)),
    ];
    let out = queue(entries, None);
    assert_eq!(ids(&out), vec!["fresh board, newer", "fresh board, older", "old board", "no board"]);
}

#[test]
fn the_queue_holds_only_live_questions_of_the_board() {
    let closed = resolve(q("closed", QuestionOrigin::RecallGap, Some("t"), 1), "a", true, 2).ok().unwrap();
    let mut looking = q("looking", QuestionOrigin::Capture, Some("t"), 3);
    looking.status = QuestionStatus::Investigating;
    let entries = vec![
        entry(closed, Some(1)),
        entry(looking, Some(1)),
        entry(q("elsewhere", QuestionOrigin::RecallGap, Some("u"), 4), Some(1)),
        entry(q("nowhere", QuestionOrigin::RecallGap, None, 5), None),
    ];
    assert_eq!(ids(&queue(entries, Some("t"))), vec!["looking"]);
}

#[test]
fn unattached_questions_are_their_own_scope() {
    let qs = vec![
        q("on a board", QuestionOrigin::RecallGap, Some("t"), 1),
        q("older capture", QuestionOrigin::Capture, None, 2),
        q("newer capture", QuestionOrigin::Capture, None, 3),
        q("a gap", QuestionOrigin::RecallGap, None, 1),
    ];
    assert_eq!(ids(&unattached(qs)), vec!["a gap", "newer capture", "older capture"]);
}

#[test]
fn open_questions_are_counted_per_board() {
    let closed = set_status(q("c", QuestionOrigin::Capture, Some("t"), 1), QuestionStatus::Dissolved, 2).ok().unwrap();
    let qs = vec![
        q("a", QuestionOrigin::Capture, Some("t"), 1),
        q("b", QuestionOrigin::Capture, Some("u"), 1),
        closed,
        q("d", QuestionOrigin::Capture, None, 1),
    ];
    assert_eq!(open_count(&qs, Some("t")), 1);
    assert_eq!(open_count(&qs, None), 3);
}
