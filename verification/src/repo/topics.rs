//! Topics: workspaces with no hierarchy and no paths.
//!
//! The sidebar is ordered by recency of visit, never by name or structure:
//! topics you have not touched fall asleep on their own and come back when
//! you return to them.

use vstd::prelude::*;

use crate::domain::{is_uuid_text, new_id, Topic};
use crate::order::{in_order, insert_in_order, Ranked};

verus! {

/// A new work board, visited now. The id is the one given, or a fresh one.
pub fn create(id: Option<String>, title: &str, now: i128) -> (res: Topic)
    ensures
        id matches Some(given) ==> res.id == given,
        id is None ==> is_uuid_text(res.id@),
        res.title@ == title@,
        !res.study,
        res.created_at == now,
        res.updated_at == now,
        res.last_visited_at == now,
{
    let id = match id {
        Some(given) => given,
        None => new_id(),
    };
    Topic {
        id,
        title: title.to_owned(),
        study: false,
        created_at: now,
        updated_at: now,
        last_visited_at: now,
    }
}

/// A new title.
pub fn rename(topic: Topic, title: &str, now: i128) -> (res: Topic)
    ensures
        res.title@ == title@,
        res.updated_at == now,
        res.id == topic.id,
        res.study == topic.study,
        res.created_at == topic.created_at,
        res.last_visited_at == topic.last_visited_at,
{
    Topic { title: title.to_owned(), updated_at: now, ..topic }
}

/// Called on open. This is the only thing that keeps a topic awake.
pub fn touch(topic: Topic, now: i128) -> (res: Topic)
    ensures
        res == (Topic { last_visited_at: now, ..topic }),
{
    Topic { last_visited_at: now, ..topic }
}

/// Switches a board between work and study. Nothing else about the board,
/// and no note, is touched.
pub fn set_mode(topic: Topic, study: bool, now: i128) -> (res: Topic)
    ensures
        res == (Topic { study: study, updated_at: now, ..topic }),
{
    Topic { study, updated_at: now, ..topic }
}

impl Ranked for Topic {
    open spec fn precedes(self, other: Self) -> bool {
        self.last_visited_at >= other.last_visited_at
    }

    proof fn precedes_total(a: Self, b: Self) {
    }

    proof fn precedes_transitive(a: Self, b: Self, c: Self) {
    }

    fn may_precede(&self, other: &Self) -> (res: bool) {
        self.last_visited_at >= other.last_visited_at
    }
}

/// Every topic, most recently visited first. Sleeping is not failing, so this
/// is a plain list with no marker of neglect.
pub fn all(topics: Vec<Topic>) -> (res: Vec<Topic>)
    ensures
        res@.to_multiset() == topics@.to_multiset(),
        in_order(res@),
{
    let ghost input = topics@;
    let mut out: Vec<Topic> = Vec::new();
    proof {
        assert(input.take(0) =~= out@);
    }
    for t in it: topics.into_iter()
        invariant
            it.seq() == input,
            in_order(out@),
            out@.to_multiset() == input.take(it.index() as int).to_multiset(),
    {
        proof {
            let i = it.index() as int;
            assert(input.take(i + 1) =~= input.take(i).push(t));
            vstd::seq_lib::to_multiset_build(input.take(i), t);
        }
        insert_in_order(&mut out, t);
    }
    proof {
        assert(input.take(input.len() as int) =~= input);
    }
    out
}

/// How many topics the sidebar shows for a limit; a negative limit is no
/// limit at all.
pub open spec fn shown(len: nat, limit: i64) -> nat {
    if limit < 0 || limit >= len {
        len
    } else {
        limit as nat
    }
}

/// The sidebar: the `limit` most recently visited topics, most recent first.
/// The limit is what keeps the list from growing without bound.
pub fn awake(topics: Vec<Topic>, limit: i64) -> (res: Vec<Topic>)
    ensures
        exists|order: Seq<Topic>|
            {
                &&& #[trigger] order.to_multiset() == topics@.to_multiset()
                &&& in_order(order)
                &&& res@ == order.take(shown(topics@.len(), limit) as int)
            },
{
    let n = topics.len();
    let mut sorted = all(topics);
    let ghost order = sorted@;
    proof {
        vstd::seq_lib::to_multiset_len(order);
        vstd::seq_lib::to_multiset_len(topics@);
    }
    if limit >= 0 && (limit as u64) < (n as u64) {
        sorted.truncate(limit as usize);
    }
    proof {
        if !(limit >= 0 && limit < n) {
            assert(order.take(order.len() as int) =~= order);
        }
    }
    sorted
}

} // verus!
