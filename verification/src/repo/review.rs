//! The review queue, and what a grade or a drifted card files.
//!
//! A card exists exactly when a note has been reproduced from memory. There is
//! nothing to author, so nothing here creates cards: it schedules notes.

use vstd::prelude::*;

use crate::domain::{Note, QuestionOrigin};
use crate::note_state::{spec_flags, spec_recall_state, NoteFlags};
use crate::review::{interleave_by, is_round_robin, key_views, Grade, DAILY_CAP};
use crate::text::string_views;

verus! {

/// A note that is due, with the board it sits on and how often it has been
/// reviewed, as read from storage.
#[derive(Debug)]
pub struct Candidate {
    pub note: Note,
    pub topic_id: Option<String>,
    pub topic_title: Option<String>,
    pub reps: Option<i64>,
}

/// One card, with everything the review screen needs to show it cold.
#[derive(Debug)]
pub struct ReviewCard {
    pub note: Note,
    pub flags: NoteFlags,
    pub topic_id: Option<String>,
    pub topic_title: Option<String>,
    pub reps: i64,
}

/// A candidate may be reviewed when its note's state says a card exists.
pub open spec fn reviewable(c: Candidate) -> bool {
    spec_recall_state(c.note).spec_may_review()
}

/// The card shown for a candidate.
pub open spec fn card_of(c: Candidate) -> ReviewCard {
    ReviewCard {
        note: c.note,
        flags: spec_flags(c.note),
        topic_id: c.topic_id,
        topic_title: c.topic_title,
        reps: match c.reps {
            Some(r) => r,
            None => 0,
        },
    }
}

/// The cards of the reviewable candidates, in order.
pub open spec fn cards_of(cs: Seq<Candidate>) -> Seq<ReviewCard>
    decreases cs.len(),
{
    if cs.len() == 0 {
        Seq::empty()
    } else if reviewable(cs.last()) {
        cards_of(cs.drop_last()).push(card_of(cs.last()))
    } else {
        cards_of(cs.drop_last())
    }
}

/// The topic a card is interleaved by: its board, or the empty key for a card
/// on no board.
pub open spec fn topic_key(c: ReviewCard) -> Seq<char> {
    match c.topic_id {
        Some(t) => t@,
        None => Seq::empty(),
    }
}

/// The topics of a list of cards.
pub open spec fn card_keys(cards: Seq<ReviewCard>) -> Seq<Seq<char>> {
    cards.map_values(|c: ReviewCard| topic_key(c))
}

/// Today's queue from the due candidates, in due order: the reviewable ones,
/// interleaved round-robin by board, and no more than [`DAILY_CAP`] of them.
/// The size of the backlog behind the cap is returned by nothing.
pub fn queue(candidates: Vec<Candidate>) -> (res: Vec<ReviewCard>)
    ensures
        res@.len() <= DAILY_CAP,
        exists|ord: Seq<usize>|
            #[trigger] is_round_robin(card_keys(cards_of(candidates@)), ord)
                && res@ == ord.map_values(|i: usize| cards_of(candidates@)[i as int]).take(
                res@.len() as int,
            ) && res@.len() == if cards_of(candidates@).len() <= DAILY_CAP {
                cards_of(candidates@).len()
            } else {
                DAILY_CAP as nat
            },
{
    let ghost orig = candidates@;
    let mut cards: Vec<ReviewCard> = Vec::new();
    let mut keys: Vec<String> = Vec::new();
    for c in it: candidates
        invariant
            it.seq() == orig,
            cards@ == cards_of(it.seq().take(it.index() as int)),
            string_views(keys@) == card_keys(cards@),
            keys@.len() == cards@.len(),
    {
        let ghost seen = it.seq().take(it.index() + 1);
        assert(seen.drop_last() =~= it.seq().take(it.index() as int));
        assert(seen.last() == c);
        let state = c.note.recall_state();
        if state.may_review() {
            let key = match &c.topic_id {
                Some(t) => t.clone(),
                None => String::new(),
            };
            let flags = c.note.flags();
            let reps = match c.reps {
                Some(r) => r,
                None => 0,
            };
            let card = ReviewCard {
                note: c.note,
                flags,
                topic_id: c.topic_id,
                topic_title: c.topic_title,
                reps,
            };
            assert(card == card_of(c));
            assert(key@ == topic_key(card));
            let ghost keys_before = keys@;
            let ghost cards_before = cards@;
            keys.push(key);
            cards.push(card);
            assert forall|i: int| 0 <= i < keys@.len() implies #[trigger] string_views(keys@)[i]
                == card_keys(cards@)[i] by {
                if i < keys_before.len() {
                    assert(string_views(keys_before)[i] == card_keys(cards_before)[i]);
                    assert(keys@[i] == keys_before[i]);
                    assert(cards@[i] == cards_before[i]);
                } else {
                    assert(keys@[i] == key);
                    assert(cards@[i] == card);
                }
            }
            assert(string_views(keys@) =~= card_keys(cards@));
        }
    }
    assert(orig.take(orig.len() as int) =~= orig);
    let ghost all = cards@;
    assert(key_views(keys@) =~= card_keys(all));
    let mut out = interleave_by(cards, &keys);
    let ghost full = out@;
    out.truncate(20);
    proof {
        let ord = choose|ord: Seq<usize>|
            #[trigger] is_round_robin(key_views(keys@), ord) && full == ord.map_values(
                |i: usize| all[i as int],
            );
        assert(full.len() == all.len());
        assert(out@ =~= ord.map_values(|i: usize| all[i as int]).take(out@.len() as int));
    }
    out
}

/// The question a missed card files: why it was missed, at the
/// review-failure origin, on the note's board.
pub open spec fn miss_question_text(title: Seq<char>) -> Seq<char> {
    seq!['W', 'h', 'y', ' ', 'd', 'i', 'd', ' ', 'I', ' ', 'm', 'i', 's', 's', ':', ' '] + title
        + seq!['?']
}

/// The question a drifted card that needs work files.
pub open spec fn drift_question_text(title: Seq<char>) -> Seq<char> {
    seq!['W', 'h', 'a', 't', ' ', 'c', 'h', 'a', 'n', 'g', 'e', 'd', ' ', 'i', 'n', ':', ' ']
        + title + seq!['?']
}

/// A title to speak of a note by: its own, or "this note" when it is gone.
pub open spec fn title_or_default(note: Option<Note>) -> Seq<char> {
    match note {
        Some(n) => n.title@,
        None => seq!['t', 'h', 'i', 's', ' ', 'n', 'o', 't', 'e'],
    }
}

/// Whether a grade marks the note as failing its recall: only a miss does.
pub fn grade_marks_failing(grade: Grade) -> (res: bool)
    ensures
        res == (grade == Grade::Again),
{
    grade == Grade::Again
}

/// What grading a card files besides the schedule: a miss files a question at
/// the review-failure origin, worded from the note's title; any other grade
/// files nothing.
pub fn question_for_grade(grade: Grade, note: &Option<Note>) -> (res: Option<(String, QuestionOrigin)>)
    ensures
        grade == Grade::Again ==> (res matches Some((text, origin)) && text@ == miss_question_text(
            title_or_default(*note),
        ) && origin == QuestionOrigin::ReviewFailure),
        grade != Grade::Again ==> res is None,
{
    if grade != Grade::Again {
        return None;
    }
    let mut text = "Why did I miss: ".to_owned();
    let title = match note {
        Some(n) => n.title.clone(),
        None => "this note".to_owned(),
    };
    text.append(title.as_str());
    text.append("?");
    proof {
        reveal_strlit("Why did I miss: ");
        reveal_strlit("this note");
        reveal_strlit("?");
    }
    Some((text, QuestionOrigin::ReviewFailure))
}

/// The question a drifted card that no longer holds files: what changed, at
/// the recall-gap origin.
pub fn question_for_drift(note: &Option<Note>) -> (res: (String, QuestionOrigin))
    ensures
        res.0@ == drift_question_text(title_or_default(*note)),
        res.1 == QuestionOrigin::RecallGap,
{
    let mut text = "What changed in: ".to_owned();
    let title = match note {
        Some(n) => n.title.clone(),
        None => "this note".to_owned(),
    };
    text.append(title.as_str());
    text.append("?");
    proof {
        reveal_strlit("What changed in: ");
        reveal_strlit("this note");
        reveal_strlit("?");
    }
    (text, QuestionOrigin::RecallGap)
}

/// A card exists only once its note has been reproduced from memory: every
/// card built from the candidates is in a reviewable state, and its note has
/// a recall on record.
pub proof fn law_every_card_has_been_recalled(cs: Seq<Candidate>)
    ensures
        forall|i: int|
            0 <= i < cards_of(cs).len() ==> (#[trigger] cards_of(cs)[i]).flags.state.spec_may_review()
                && cards_of(cs)[i].note.last_recall_at is Some,
    decreases cs.len(),
{
    if cs.len() > 0 {
        law_every_card_has_been_recalled(cs.drop_last());
        let prev = cards_of(cs.drop_last());
        assert forall|i: int| 0 <= i < cards_of(cs).len() implies (#[trigger] cards_of(
            cs,
        )[i]).flags.state.spec_may_review() && cards_of(cs)[i].note.last_recall_at is Some by {
            if i < prev.len() {
                assert(cards_of(cs)[i] == prev[i]);
            }
        }
    }
}

} // verus!