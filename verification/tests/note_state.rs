use study_app::domain::{content_hash, new_id, Note, NoteKind};
use study_app::note_state::{fold_es, matches_es, RecallState, RECALL_COOLING_NANOS};

const HOUR: i128 = 3_600_000_000_000;
const DAY: i128 = 24 * HOUR;

fn now() -> i128 {
    chrono::Utc::now().timestamp_nanos_opt().unwrap() as i128
}

fn note(body: &str) -> Note {
    let now = now();
    Note {
        id: new_id(),
        kind: NoteKind::Atomic,
        title: "t".into(),
        body_json: String::new(),
        body_html: String::new(),
        body_text: body.into(),
        content_hash: content_hash(body),
        distilled_at: None,
        last_recall_at: None,
        last_checked_at: None,
        last_recall_failed_at: None,
        content_edited_at: None,
        summary: String::new(),
        content_hash_at_recall: None,
        source_note_id: None,
        journal_day: None,
        created_at: now,
        updated_at: now,
    }
}

/// Written blind and saved: the recall write, in one place.
fn recalled(body: &str, when: i128) -> Note {
    let mut n = note(body);
    n.distilled_at = Some(when);
    n.last_recall_at = Some(when);
    n.content_hash_at_recall = Some(n.content_hash.clone());
    n
}

#[test]
fn a_capture_with_no_body_is_raw() {
    assert_eq!(note("").recall_state(), RecallState::Raw);
}

#[test]
fn written_but_never_recalled_is_draft() {
    let mut n = note("something");
    n.distilled_at = Some(now());
    assert_eq!(n.recall_state(), RecallState::Draft);
}

#[test]
fn reproduced_blind_is_recalled() {
    assert_eq!(recalled("V = IR", now()).recall_state(), RecallState::Recalled);
}

#[test]
fn editing_after_a_recall_reads_as_edited_not_as_decay() {
    let mut n = recalled("V = IR", now());
    n.body_text = "V = IR for ohmic conductors".into();
    n.content_hash = content_hash(&n.body_text);
    assert_eq!(n.recall_state(), RecallState::EditedSinceRecall);
}

#[test]
fn reformatting_alone_does_not_disturb_a_recall() {
    let mut n = recalled("V = IR", now());
    n.body_text = "  V = IR  ".into();
    n.content_hash = content_hash(&n.body_text);
    assert_eq!(n.recall_state(), RecallState::Recalled);
}

#[test]
fn nothing_decays_with_time() {
    let ancient = now() - 900 * DAY;
    assert_eq!(recalled("V = IR", ancient).recall_state(), RecallState::Recalled);
}

#[test]
fn a_failure_after_a_recall_is_failing_not_draft() {
    let when = now() - 2 * DAY;
    let mut n = recalled("V = IR", when);
    n.last_recall_failed_at = Some(now());

    assert_eq!(n.recall_state(), RecallState::Failing);
    assert!(n.last_recall_at.is_some());
}

#[test]
fn a_newer_recall_supersedes_an_older_failure() {
    let mut n = recalled("V = IR", now());
    n.last_recall_failed_at = Some(now() - 5 * DAY);
    assert_eq!(n.recall_state(), RecallState::Recalled);
}

#[test]
fn failing_outranks_edited() {
    let when = now() - 2 * DAY;
    let mut n = recalled("V = IR", when);
    n.last_recall_failed_at = Some(now());
    n.body_text = "changed".into();
    n.content_hash = content_hash(&n.body_text);

    assert_eq!(n.recall_state(), RecallState::Failing);
}

#[test]
fn recall_and_contrast_are_independent_axes() {
    let n = recalled("V = IR", now());
    assert_eq!(n.recall_state(), RecallState::Recalled);
    assert!(n.never_contrasted());

    let mut checked = n.clone();
    checked.last_checked_at = Some(now());
    assert_eq!(checked.recall_state(), RecallState::Recalled);
    assert!(!checked.never_contrasted());
}

#[test]
fn an_unrecalled_note_is_not_marked_uncontrasted() {
    let mut n = note("something");
    n.distilled_at = Some(now());
    assert!(!n.never_contrasted());
}

#[test]
fn a_recall_within_a_day_of_an_edit_is_cooling() {
    let mut n = note("V = IR");
    n.content_edited_at = Some(now() - 2 * HOUR);
    assert!(n.recall_is_cooling(now()));

    n.content_edited_at = Some(now() - 30 * HOUR);
    assert!(!n.recall_is_cooling(now()));
}

#[test]
fn a_note_that_never_attempted_memory_says_nothing() {
    assert!(!RecallState::Raw.is_visible());
    assert!(!RecallState::Draft.is_visible());

    assert!(RecallState::Recalled.is_visible());
    assert!(RecallState::EditedSinceRecall.is_visible());
    assert!(RecallState::Failing.is_visible());
}

#[test]
fn everything_visible_is_exactly_what_carries_colour_or_is_recalled() {
    for state in [
        RecallState::Raw,
        RecallState::Draft,
        RecallState::Recalled,
        RecallState::EditedSinceRecall,
        RecallState::Failing,
    ] {
        let coloured = state == RecallState::Recalled || state.needs_action();
        assert_eq!(state.is_visible(), coloured, "{state:?}");
    }
}

#[test]
fn visibility_tracks_whether_a_recall_was_ever_attempted() {
    let mut n = note("a");
    n.distilled_at = Some(now());
    assert!(n.last_recall_at.is_none());
    assert!(!n.flags().visible);

    let n = recalled("a", now());
    assert!(n.last_recall_at.is_some());
    assert!(n.flags().visible);
}

#[test]
fn only_two_states_carry_colour() {
    assert!(!RecallState::Raw.needs_action());
    assert!(!RecallState::Draft.needs_action());
    assert!(!RecallState::Recalled.needs_action());
    assert!(RecallState::EditedSinceRecall.needs_action());
    assert!(RecallState::Failing.needs_action());
}

#[test]
fn raw_notes_never_enter_a_document() {
    assert!(!RecallState::Raw.may_enter_document());
    assert!(RecallState::Draft.may_enter_document());
}

#[test]
fn a_card_exists_only_once_something_has_been_recalled() {
    assert!(!RecallState::Raw.may_review());
    assert!(!RecallState::Draft.may_review());
    assert!(RecallState::Recalled.may_review());
    assert!(RecallState::Failing.may_review());
}

#[test]
fn folding_spanish_keeps_the_enye() {
    assert_eq!(fold_es("año"), "año");
    assert_ne!(fold_es("año"), fold_es("ano"));

    assert_eq!(fold_es("localización"), "localizacion");
    assert!(matches_es("Localización de memoria", "localizacion"));
    assert!(matches_es("El Niño", "nino") == false);
    assert!(matches_es("El Niño", "niño"));
}

#[test]
fn folding_is_case_insensitive() {
    assert_eq!(fold_es("ÁRBOL"), "arbol");
    assert!(matches_es("Árbol de decisión", "ARBOL"));
}

#[test]
fn ascii_case_never_changes_a_match_whatever_else_the_text_holds() {
    assert_eq!(fold_es("STRAßE Über Ω"), fold_es("straße Über Ω"));
    assert_eq!(fold_es("STRAßE Über Ω"), "straße über ω");
    assert!(matches_es("Die STRAßE", "straße"));
    assert!(matches_es("Die STRAßE", "STRASSE") == matches_es("die straße", "strasse"));
}

#[test]
fn labels_name_each_state() {
    assert_eq!(RecallState::Raw.label(), "not distilled");
    assert_eq!(RecallState::Draft.label(), "draft");
    assert_eq!(RecallState::Recalled.label(), "recalled");
    assert_eq!(RecallState::EditedSinceRecall.label(), "edited since recall");
    assert_eq!(RecallState::Failing.label(), "failing");
}

#[test]
fn the_cooling_window_is_exactly_a_day() {
    let edited = 1_000 * DAY;
    let mut n = note("x");
    n.content_edited_at = Some(edited);
    assert!(n.recall_is_cooling(edited + RECALL_COOLING_NANOS - 1));
    assert!(!n.recall_is_cooling(edited + RECALL_COOLING_NANOS));
    assert_eq!(RECALL_COOLING_NANOS, DAY);
}

#[test]
fn the_content_hash_is_lowercase_sha256_of_the_trimmed_text() {
    // SHA-256 of "abc".
    assert_eq!(
        content_hash("  abc\n"),
        "ba7816bf8f01cfea414140de5dae2223b00361a396177a9cb410ff61f20015ad"
    );
    assert_eq!(content_hash("abc"), content_hash("\tabc  "));
}

#[test]
fn a_fresh_id_is_a_hyphenated_lowercase_uuid() {
    let id = new_id();
    assert_eq!(id.len(), 36);
    for (i, c) in id.chars().enumerate() {
        if [8, 13, 18, 23].contains(&i) {
            assert_eq!(c, '-');
        } else {
            assert!(c.is_ascii_hexdigit() && !c.is_ascii_uppercase());
        }
    }
    assert_ne!(new_id(), new_id());
}
