//! Questions: the engine of the loop, not a byproduct.
//!
//! Closing a question requires linking the note that answers it; abandoning or
//! dissolving one costs a single call. The queue is ordered by where a
//! question came from, never by its date.

use vstd::prelude::*;

use crate::domain::{is_uuid_text, new_id, Question, QuestionOrigin, QuestionStatus};
use crate::error::{invalid, is_invalid, AppError};
use crate::order::{in_order, insert_in_order, Ranked};

verus! {

/// Still asking: open, or being looked into.
pub open spec fn is_live(s: QuestionStatus) -> bool {
    s == QuestionStatus::Open || s == QuestionStatus::Investigating
}

/// A resolved question names the note that answers it.
pub open spec fn answered_if_resolved(q: Question) -> bool {
    q.status == QuestionStatus::Resolved ==> q.answer_note_id is Some
}

fn live(s: QuestionStatus) -> (res: bool)
    ensures
        res == is_live(s),
{
    match s {
        QuestionStatus::Open | QuestionStatus::Investigating => true,
        _ => false,
    }
}

/// A new open question, with no answer. The id is the one given, or a fresh
/// one.
pub fn create(
    id: Option<String>,
    text: &str,
    origin: QuestionOrigin,
    topic_id: Option<String>,
    source_note_id: Option<String>,
    now: i128,
) -> (res: Question)
    ensures
        id matches Some(given) ==> res.id == given,
        id is None ==> is_uuid_text(res.id@),
        res.text@ == text@,
        res.status == QuestionStatus::Open,
        res.origin == origin,
        res.topic_id == topic_id,
        res.source_note_id == source_note_id,
        res.answer_note_id is None,
        res.created_at == now,
        res.updated_at == now,
        answered_if_resolved(res),
{
    let id = match id {
        Some(given) => given,
        None => new_id(),
    };
    Question {
        id,
        text: text.to_owned(),
        status: QuestionStatus::Open,
        origin,
        topic_id,
        source_note_id,
        answer_note_id: None,
        created_at: now,
        updated_at: now,
    }
}

/// Closes a question by linking the note that answers it, which must exist.
/// A question closed without an answer is just a question you lost.
pub fn resolve(q: Question, answer_note_id: &str, answer_exists: bool, now: i128) -> (res: Result<
    Question,
    AppError,
>)
    ensures
        !answer_exists ==> (res matches Err(e) && is_invalid(
            e,
            "a question can only be resolved by linking a note that answers it"@,
        )),
        answer_exists ==> (res matches Ok(r) && {
            &&& r.status == QuestionStatus::Resolved
            &&& r.answer_note_id matches Some(a) && a@ == answer_note_id@
            &&& r.updated_at == now
            &&& r.id == q.id
            &&& r.text == q.text
            &&& r.origin == q.origin
            &&& r.topic_id == q.topic_id
            &&& r.source_note_id == q.source_note_id
            &&& r.created_at == q.created_at
        }),
        res matches Ok(r) ==> answered_if_resolved(r),
{
    if !answer_exists {
        return Err(invalid("a question can only be resolved by linking a note that answers it"));
    }
    Ok(
        Question {
            status: QuestionStatus::Resolved,
            answer_note_id: Some(answer_note_id.to_owned()),
            updated_at: now,
            ..q
        },
    )
}

/// Any status but resolved, in one call and with no answer kept: resolving
/// goes through [`resolve`].
pub fn set_status(q: Question, status: QuestionStatus, now: i128) -> (res: Result<
    Question,
    AppError,
>)
    ensures
        status == QuestionStatus::Resolved ==> (res matches Err(e) && is_invalid(
            e,
            "resolving requires an answer note; use resolve instead"@,
        )),
        status != QuestionStatus::Resolved ==> res == Ok::<Question, AppError>(
            (Question { status: status, answer_note_id: None, updated_at: now, ..q }),
        ),
        res matches Ok(r) ==> answered_if_resolved(r),
{
    if status == QuestionStatus::Resolved {
        return Err(invalid("resolving requires an answer note; use resolve instead"));
    }
    Ok(Question { status, answer_note_id: None, updated_at: now, ..q })
}

/// Moves a question to a board, or off every board.
pub fn set_topic(q: Question, topic_id: Option<String>, now: i128) -> (res: Question)
    ensures
        res == (Question { topic_id: topic_id, updated_at: now, ..q }),
        answered_if_resolved(q) ==> answered_if_resolved(res),
{
    Question { topic_id, updated_at: now, ..q }
}

/// A question with the time its board was last opened, if it has one.
pub struct QueuedQuestion {
    pub question: Question,
    pub topic_visited_at: Option<i128>,
}

/// `a`'s board was opened more recently than `b`'s; a question on no board
/// comes after every question on one.
pub open spec fn visited_later(a: Option<i128>, b: Option<i128>) -> bool {
    match (a, b) {
        (Some(x), Some(y)) => x > y,
        (Some(_), None) => true,
        _ => false,
    }
}

/// `a` may stand before `b` in the queue: by origin first, then by how
/// recently its board was opened, then newest first.
pub open spec fn queued_before(a: QueuedQuestion, b: QueuedQuestion) -> bool {
    let ra = a.question.origin.spec_rank();
    let rb = b.question.origin.spec_rank();
    ||| ra < rb
    ||| ra == rb && visited_later(a.topic_visited_at, b.topic_visited_at)
    ||| ra == rb && a.topic_visited_at == b.topic_visited_at && a.question.created_at
        >= b.question.created_at
}

impl Ranked for QueuedQuestion {
    open spec fn precedes(self, other: Self) -> bool {
        queued_before(self, other)
    }

    proof fn precedes_total(a: Self, b: Self) {
    }

    proof fn precedes_transitive(a: Self, b: Self, c: Self) {
    }

    fn may_precede(&self, other: &Self) -> (res: bool) {
        let ra = self.question.origin.rank();
        let rb = other.question.origin.rank();
        if ra != rb {
            return ra < rb;
        }
        match (self.topic_visited_at, other.topic_visited_at) {
            (Some(x), Some(y)) => x > y || (x == y && self.question.created_at
                >= other.question.created_at),
            (Some(_), None) => true,
            (None, Some(_)) => false,
            (None, None) => self.question.created_at >= other.question.created_at,
        }
    }
}

/// On the board asked for, or on any board (or none) when none is asked for.
pub open spec fn on_board(q: Question, topic: Option<Seq<char>>) -> bool {
    match topic {
        None => true,
        Some(t) => q.topic_id matches Some(own) && own@ == t,
    }
}

/// The live questions among `s` that are on the board asked for, in order.
pub open spec fn queued(s: Seq<QueuedQuestion>, topic: Option<Seq<char>>) -> Seq<QueuedQuestion>
    decreases s.len(),
{
    if s.len() == 0 {
        Seq::empty()
    } else if is_live(s.last().question.status) && on_board(s.last().question, topic) {
        queued(s.drop_last(), topic).push(s.last())
    } else {
        queued(s.drop_last(), topic)
    }
}

/// The questions of some queue entries.
pub open spec fn questions_of(s: Seq<QueuedQuestion>) -> Seq<Question> {
    s.map_values(|e: QueuedQuestion| e.question)
}

/// The view of an optional board id.
pub open spec fn topic_view(topic_id: Option<&str>) -> Option<Seq<char>> {
    match topic_id {
        Some(t) => Some(t@),
        None => None,
    }
}

fn on_board_exec(q: &Question, topic_id: Option<&str>) -> (res: bool)
    ensures
        res == on_board(*q, topic_view(topic_id)),
{
    match topic_id {
        None => true,
        Some(t) => match &q.topic_id {
            Some(own) => {
                let wanted = t.to_owned();
                *own == wanted
            },
            None => false,
        },
    }
}

/// The queue, and the reason the ordering rule exists.
///
/// A gap found while reconstructing from memory outranks a review failure,
/// which outranks something jotted down while reading. Date never drives this
/// order; it only breaks ties inside a single origin, and even then it is the
/// board's recency rather than the question's age that comes first.
pub fn queue(entries: Vec<QueuedQuestion>, topic_id: Option<&str>) -> (res: Vec<Question>)
    ensures
        exists|order: Seq<QueuedQuestion>|
            {
                &&& #[trigger] order.to_multiset() == queued(
                    entries@,
                    topic_view(topic_id),
                ).to_multiset()
                &&& in_order(order)
                &&& res@ == questions_of(order)
            },
{
    let ghost input = entries@;
    let ghost topic = topic_view(topic_id);
    let mut out: Vec<QueuedQuestion> = Vec::new();
    for e in it: entries.into_iter()
        invariant
            it.seq() == input,
            topic == topic_view(topic_id),
            in_order(out@),
            out@.to_multiset() == queued(input.take(it.index() as int), topic).to_multiset(),
    {
        let ghost i = it.index() as int;
        proof {
            assert(input.take(i + 1).drop_last() =~= input.take(i));
            assert(input.take(i + 1).last() == e);
        }
        if live(e.question.status) && on_board_exec(&e.question, topic_id) {
            insert_in_order(&mut out, e);
            proof {
                vstd::seq_lib::to_multiset_build(queued(input.take(i), topic), e);
            }
        }
    }
    proof {
        assert(input.take(input.len() as int) =~= input);
    }
    let ghost order = out@;
    let mut questions: Vec<Question> = Vec::new();
    for e in it: out.into_iter()
        invariant
            it.seq() == order,
            questions@ == questions_of(order.take(it.index() as int)),
    {
        proof {
            assert(questions_of(order.take(it.index() + 1)) =~= questions_of(
                order.take(it.index() as int),
            ).push(e.question));
        }
        questions.push(e.question);
    }
    proof {
        assert(order.take(order.len() as int) =~= order);
        assert(order.to_multiset() == queued(entries@, topic_view(topic_id)).to_multiset());
    }
    questions
}

/// `a` may stand before `b` among questions on no board: by origin, then
/// newest first.
pub open spec fn unattached_before(a: Question, b: Question) -> bool {
    a.origin.spec_rank() < b.origin.spec_rank() || (a.origin.spec_rank() == b.origin.spec_rank()
        && a.created_at >= b.created_at)
}

impl Ranked for Question {
    open spec fn precedes(self, other: Self) -> bool {
        unattached_before(self, other)
    }

    proof fn precedes_total(a: Self, b: Self) {
    }

    proof fn precedes_transitive(a: Self, b: Self, c: Self) {
    }

    fn may_precede(&self, other: &Self) -> (res: bool) {
        let ra = self.origin.rank();
        let rb = other.origin.rank();
        ra < rb || (ra == rb && self.created_at >= other.created_at)
    }
}

/// The live questions among `s` that belong to no board, in order.
pub open spec fn unattached_of(s: Seq<Question>) -> Seq<Question>
    decreases s.len(),
{
    if s.len() == 0 {
        Seq::empty()
    } else if is_live(s.last().status) && s.last().topic_id is None {
        unattached_of(s.drop_last()).push(s.last())
    } else {
        unattached_of(s.drop_last())
    }
}

/// Open questions that belong to no board: a doubt caught with nothing else
/// open is still a doubt, so it is reachable as its own scope.
pub fn unattached(questions: Vec<Question>) -> (res: Vec<Question>)
    ensures
        res@.to_multiset() == unattached_of(questions@).to_multiset(),
        in_order(res@),
{
    let ghost input = questions@;
    let mut out: Vec<Question> = Vec::new();
    for q in it: questions.into_iter()
        invariant
            it.seq() == input,
            in_order(out@),
            out@.to_multiset() == unattached_of(input.take(it.index() as int)).to_multiset(),
    {
        let ghost i = it.index() as int;
        proof {
            assert(input.take(i + 1).drop_last() =~= input.take(i));
            assert(input.take(i + 1).last() == q);
        }
        if live(q.status) && q.topic_id.is_none() {
            insert_in_order(&mut out, q);
            proof {
                vstd::seq_lib::to_multiset_build(unattached_of(input.take(i)), q);
            }
        }
    }
    proof {
        assert(input.take(input.len() as int) =~= input);
    }
    out
}

/// How many live questions of `s` are on the board asked for.
pub open spec fn live_count(s: Seq<Question>, topic: Option<Seq<char>>) -> nat
    decreases s.len(),
{
    if s.len() == 0 {
        0
    } else {
        live_count(s.drop_last(), topic) + if is_live(s.last().status) && on_board(
            s.last(),
            topic,
        ) {
            1nat
        } else {
            0nat
        }
    }
}

/// Open-question counts are work, not debt, so this number is safe to show.
pub fn open_count(questions: &Vec<Question>, topic_id: Option<&str>) -> (res: usize)
    ensures
        res == live_count(questions@, topic_view(topic_id)),
{
    let mut count: usize = 0;
    let mut i: usize = 0;
    while i < questions.len()
        invariant
            i <= questions@.len(),
            count == live_count(questions@.take(i as int), topic_view(topic_id)),
            count <= i,
        decreases questions@.len() - i,
    {
        proof {
            assert(questions@.take(i + 1).drop_last() =~= questions@.take(i as int));
        }
        if live(questions[i].status) && on_board_exec(&questions[i], topic_id) {
            count = count + 1;
        }
        i = i + 1;
    }
    proof {
        assert(questions@.take(questions@.len() as int) =~= questions@);
    }
    count
}

/// Date never drives the queue: in a queue in order, a question from a
/// recall gap stands before every review failure, and a review failure
/// before every capture, however old or new each is.
pub proof fn law_origin_outranks_date(order: Seq<QueuedQuestion>)
    requires
        in_order(order),
    ensures
        forall|i: int, j: int|
            0 <= i < j < order.len() ==> (#[trigger] order[i]).question.origin.spec_rank()
                <= (#[trigger] order[j]).question.origin.spec_rank(),
{
    assert forall|i: int, j: int| 0 <= i < j < order.len() implies (#[trigger] order[i]).question.origin.spec_rank()
        <= (#[trigger] order[j]).question.origin.spec_rank() by {
        assert(order[i].precedes(order[j]));
    }
}

/// The queue holds exactly the entries whose question is open or being
/// looked into and that stand on the board asked for (any board when none
/// is): a resolved, abandoned or dissolved question is never queued.
pub proof fn law_only_open_questions_are_queued(s: Seq<QueuedQuestion>, topic: Option<Seq<char>>)
    ensures
        queued(s, topic) == s.filter(
            |e: QueuedQuestion|
                (e.question.status == QuestionStatus::Open || e.question.status
                    == QuestionStatus::Investigating) && (topic is None || (
                e.question.topic_id is Some && e.question.topic_id.unwrap()@ == topic.unwrap())),
        ),
    decreases s.len(),
{
    reveal(Seq::filter);
    if s.len() > 0 {
        law_only_open_questions_are_queued(s.drop_last(), topic);
    }
}

/// The unattached list holds exactly the questions on no board that are open
/// or being looked into.
pub proof fn law_only_open_questions_are_unattached(s: Seq<Question>)
    ensures
        unattached_of(s) == s.filter(
            |q: Question|
                (q.status == QuestionStatus::Open || q.status == QuestionStatus::Investigating)
                    && q.topic_id is None,
        ),
    decreases s.len(),
{
    reveal(Seq::filter);
    if s.len() > 0 {
        law_only_open_questions_are_unattached(s.drop_last());
    }
}

/// The open count counts exactly the questions open or being looked into on
/// the board asked for.
pub proof fn law_the_open_count_counts_open_questions(s: Seq<Question>, topic: Option<Seq<char>>)
    ensures
        live_count(s, topic) == s.filter(
            |q: Question|
                (q.status == QuestionStatus::Open || q.status == QuestionStatus::Investigating)
                    && (topic is None || (q.topic_id is Some && q.topic_id.unwrap()@
                    == topic.unwrap())),
        ).len(),
    decreases s.len(),
{
    reveal(Seq::filter);
    if s.len() > 0 {
        law_the_open_count_counts_open_questions(s.drop_last(), topic);
    }
}

/// In a queue in order, a recall gap is never behind a review failure or a
/// capture, and a review failure never behind a capture.
pub proof fn law_gaps_then_failures_then_captures(order: Seq<QueuedQuestion>, i: int, j: int)
    requires
        in_order(order),
        0 <= i < j < order.len(),
    ensures
        order[j].question.origin == QuestionOrigin::RecallGap ==> order[i].question.origin
            == QuestionOrigin::RecallGap,
        order[i].question.origin == QuestionOrigin::Capture ==> order[j].question.origin
            == QuestionOrigin::Capture,
{
    law_origin_outranks_date(order);
    assert(order[i].question.origin.spec_rank() <= order[j].question.origin.spec_rank());
}

} // verus!
