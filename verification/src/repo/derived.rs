//! Indexes derived from a note's body: mentions of other notes, and tasks.
//!
//! Neither is a source of truth. The body is, and both are rebuilt from it on
//! every save.

use vstd::prelude::*;

use crate::document::{
    collect_tasks, jv, law_a_tick_lands_on_its_task, task_views, tasks_in, tick, tick_exec, Json,
    JsonView,
};
use crate::domain::{is_lower_hex, is_uuid_text};
use crate::order::{in_order, insert_in_order, Ranked};
use crate::text::{
    char_vec_views, chars_of, find_from, find_from_exec, lemma_find_from, lemma_text_antisymmetric,
    is_whitespace, is_ws, lemma_text_total, lemma_text_transitive, occurs_at, push_range,
    string_of, string_views, text_le, text_le_exec,
};

verus! {

/// A mention is a link whose target is a note rather than a URL: `note:`
/// followed by the note's id.
pub open spec fn mention_prefix() -> Seq<char> {
    seq!['n', 'o', 't', 'e', ':']
}

/// A character that can be part of an id: an ASCII hex digit or a hyphen.
pub open spec fn is_id_char(c: char) -> bool {
    ('0' <= c && c <= '9') || ('a' <= c && c <= 'f') || ('A' <= c && c <= 'F') || c == '-'
}

/// How many id characters follow, starting at position `j`.
pub open spec fn id_run(s: Seq<char>, j: int) -> nat
    decreases s.len() - j,
{
    if 0 <= j < s.len() && is_id_char(s[j]) {
        1 + id_run(s, j + 1)
    } else {
        0
    }
}

/// `id` is mentioned at position `i`: `note:` stands there, followed by a run
/// of exactly 36 id characters, which is `id`. Anything shorter is a stray
/// `note:` in prose.
pub open spec fn mention_at(s: Seq<char>, i: int, id: Seq<char>) -> bool {
    &&& occurs_at(s, mention_prefix(), i)
    &&& id_run(s, i + 5) == 36
    &&& id == s.subrange(i + 5, i + 5 + 36)
}

/// `id` is mentioned somewhere in `s`.
pub open spec fn is_mentioned(s: Seq<char>, id: Seq<char>) -> bool {
    exists|i: int| mention_at(s, i, id)
}

/// The ids of `ids` are listed in the order of their first mention in `s`:
/// every mention of a later one comes after some mention of each earlier one.
pub open spec fn in_mention_order(s: Seq<char>, ids: Seq<Seq<char>>, upto: int) -> bool {
    forall|a: int, b: int, j: int|
        #![trigger mention_at(s, j, ids[b]), mentioned_before(s, ids[a], j)]
        0 <= a < b < ids.len() && 0 <= j < upto && mention_at(s, j, ids[b]) ==> mentioned_before(
            s,
            ids[a],
            j,
        )
}

/// `id` is mentioned at some position before `j`.
pub open spec fn mentioned_before(s: Seq<char>, id: Seq<char>, j: int) -> bool {
    exists|k: int| 0 <= k < j && #[trigger] mention_at(s, k, id)
}

proof fn lemma_order_step(
    s: Seq<char>,
    before: Seq<Seq<char>>,
    after: Seq<Seq<char>>,
    i: int,
    pushed: bool,
    x: Seq<char>,
)
    requires
        in_mention_order(s, before, i),
        forall|id: Seq<char>|
            #[trigger] before.contains(id) == mentioned_before(s, id, i),
        pushed ==> after == before.push(x) && !before.contains(x),
        !pushed ==> after == before,
    ensures
        in_mention_order(s, after, i + 1),
{
    assert forall|a: int, b: int, j: int|
        #![trigger mention_at(s, j, after[b]), mentioned_before(s, after[a], j)]
        0 <= a < b < after.len() && 0 <= j < i + 1 && mention_at(
            s,
            j,
            after[b],
        ) implies mentioned_before(s, after[a], j) by {
        assert(after[a] == before[a]);
        assert(before.contains(before[a]));
        if j < i {
            if b < before.len() {
                assert(after[b] == before[b]);
                assert(mention_at(s, j, before[b]));
            } else {
                assert(after[b] == x);
                assert(before.contains(after[b]));
            }
        } else {
            let k = choose|k: int| 0 <= k < i && mention_at(s, k, after[a]);
            assert(0 <= k < j && mention_at(s, k, after[a]));
        }
    }
}

fn is_id_char_exec(c: char) -> (res: bool)
    ensures
        res == is_id_char(c),
{
    ('0' <= c && c <= '9') || ('a' <= c && c <= 'f') || ('A' <= c && c <= 'F') || c == '-'
}

fn prefix_at(s: &Vec<char>, i: usize) -> (res: bool)
    ensures
        res == occurs_at(s@, mention_prefix(), i as int),
{
    if i > s.len() || s.len() - i < 5 {
        return false;
    }
    let r = s[i] == 'n' && s[i + 1] == 'o' && s[i + 2] == 't' && s[i + 3] == 'e' && s[i + 4] == ':';
    if r {
        assert(s@.subrange(i as int, i + 5) =~= mention_prefix());
    } else {
        assert(s@.subrange(i as int, i + 5) != mention_prefix()) by {
            let t = s@.subrange(i as int, i + 5);
            if t == mention_prefix() {
                assert(t[0] == 'n' && t[1] == 'o' && t[2] == 't' && t[3] == 'e' && t[4] == ':');
            }
        }
    }
    r
}

proof fn lemma_id_run_bounded(s: Seq<char>, j: int)
    requires
        0 <= j,
    ensures
        j + id_run(s, j) <= if j <= s.len() { s.len() as int } else { j },
    decreases s.len() - j,
{
    if 0 <= j < s.len() && is_id_char(s[j]) {
        lemma_id_run_bounded(s, j + 1);
    }
}

/// The id characters of a run are exactly the characters in it.
proof fn lemma_id_run_chars(s: Seq<char>, j: int, k: int)
    requires
        0 <= j <= k < j + id_run(s, j),
    ensures
        is_id_char(s[k]),
    decreases k - j,
{
    if k > j {
        lemma_id_run_chars(s, j + 1, k);
    }
}

/// The length of the run of id characters starting at `j`.
fn id_run_exec(s: &Vec<char>, j: usize) -> (res: usize)
    ensures
        res == id_run(s@, j as int),
{
    let mut k: usize = j;
    let ghost g = id_run(s@, j as int);
    proof {
        lemma_id_run_bounded(s@, j as int);
    }
    while k < s.len() && is_id_char_exec(s[k])
        invariant
            j <= k,
            id_run(s@, j as int) == (k - j) + id_run(s@, k as int),
        decreases s.len() - k,
    {
        k = k + 1;
    }
    k - j
}

/// Whether `ids` already holds these characters.
fn holds(ids: &Vec<Vec<char>>, id: &Vec<char>) -> (res: bool)
    ensures
        res == char_vec_views(ids@).contains(id@),
{
    let ghost views = char_vec_views(ids@);
    let mut a: usize = 0;
    while a < ids.len()
        invariant
            views == char_vec_views(ids@),
            a <= ids@.len(),
            forall|c: int| 0 <= c < a ==> views[c] != id@,
        decreases ids.len() - a,
    {
        let same = ids[a].len() == id.len() && {
            let mut k: usize = 0;
            let mut eq = true;
            while k < id.len()
                invariant
                    k <= id@.len(),
                    ids@[a as int]@.len() == id@.len(),
                    a < ids@.len(),
                    eq == forall|m: int| 0 <= m < k ==> ids@[a as int]@[m] == id@[m],
                decreases id.len() - k,
            {
                if ids[a][k] != id[k] {
                    eq = false;
                }
                k = k + 1;
            }
            eq
        };
        if same {
            assert(views[a as int] =~= id@);
            return true;
        }
        proof {
            if views[a as int] == id@ {
                assert(ids@[a as int]@.len() == id@.len());
                assert forall|m: int| 0 <= m < id@.len() implies ids@[a as int]@[m] == id@[m] by {}
            }
        }
        a = a + 1;
    }
    false
}

/// Pulls every mentioned note id out of a serialised document.
///
/// Scanning the text finds mentions wherever they are nested. The result holds
/// each mentioned id once, in the order of its first mention.
pub fn mentioned_ids(body_json: &str) -> (res: Vec<String>)
    ensures
        string_views(res@).no_duplicates(),
        forall|id: Seq<char>|
            #[trigger] string_views(res@).contains(id) == is_mentioned(body_json@, id),
        in_mention_order(body_json@, string_views(res@), body_json@.len() as int),
{
    let s = chars_of(body_json);
    let n = s.len();
    let mut ids: Vec<Vec<char>> = Vec::new();
    let mut i: usize = 0;
    while i < n
        invariant
            n == s@.len(),
            s@ == body_json@,
            i <= n,
            char_vec_views(ids@).no_duplicates(),
            forall|id: Seq<char>|
                #[trigger] char_vec_views(ids@).contains(id) == mentioned_before(s@, id, i as int),
            in_mention_order(s@, char_vec_views(ids@), i as int),
        decreases n - i,
    {
        let ghost before = char_vec_views(ids@);
        let ghost mut pushed = false;
        let ghost mut x = Seq::<char>::empty();
        if prefix_at(&s, i) {
            let start = i + 5;
            let len = id_run_exec(&s, start);
            if len == 36 {
                proof {
                    lemma_id_run_bounded(s@, start as int);
                }
                let mut id: Vec<char> = Vec::new();
                let mut k: usize = 0;
                while k < 36
                    invariant
                        start + 36 <= n == s@.len(),
                        k <= 36,
                        id@ == s@.subrange(start as int, start + k),
                    decreases 36 - k,
                {
                    id.push(s[start + k]);
                    k = k + 1;
                    assert(id@ =~= s@.subrange(start as int, start + k));
                }
                let known = holds(&ids, &id);
                assert(mention_at(s@, i as int, id@));
                if !known {
                    proof {
                        pushed = true;
                        x = id@;
                    }
                    ids.push(id);
                    let ghost after = char_vec_views(ids@);
                    assert(after =~= before.push(s@.subrange(start as int, start + 36)));
                }
            }
        }
        proof {
            let after = char_vec_views(ids@);
            assert forall|id: Seq<char>| #[trigger] after.contains(id) == mentioned_before(
                s@,
                id,
                i + 1,
            ) by {
                if after.contains(id) && !before.contains(id) {
                    assert(mention_at(s@, i as int, id));
                }
                if mentioned_before(s@, id, i + 1) {
                    let k = choose|k: int| 0 <= k < i + 1 && mention_at(s@, k, id);
                    if k < i {
                        assert(before.contains(id));
                        let a = choose|a: int| 0 <= a < before.len() && before[a] == id;
                        assert(after[a] == id);
                    } else {
                        assert(k == i);
                        if !before.contains(id) {
                            assert(after[after.len() - 1] == id);
                        } else {
                            let a = choose|a: int| 0 <= a < before.len() && before[a] == id;
                            assert(after[a] == id);
                        }
                    }
                }
            }
            lemma_order_step(s@, before, after, i as int, pushed, x);

            if after.len() > before.len() {
                assert(after.no_duplicates()) by {
                    assert forall|x: int, y: int| 0 <= x < y < after.len() implies after[x]
                        != after[y] by {
                        if y == after.len() - 1 {
                            assert(before.contains(before[x]));
                        } else {
                            assert(after[x] == before[x]);
                            assert(after[y] == before[y]);
                        }
                    }
                }
            }
        }
        i = i + 1;
    }
    let mut out: Vec<String> = Vec::new();
    let mut a: usize = 0;
    while a < ids.len()
        invariant
            a <= ids@.len(),
            out@.len() == a,
            forall|c: int| 0 <= c < a ==> #[trigger] out@[c]@ == ids@[c]@,
        decreases ids.len() - a,
    {
        out.push(string_of(&ids[a]));
        a = a + 1;
    }
    assert(string_views(out@) =~= char_vec_views(ids@));
    proof {
        let views = char_vec_views(ids@);
        assert forall|id: Seq<char>| #[trigger] views.contains(id) == is_mentioned(body_json@, id) by {
            if is_mentioned(body_json@, id) {
                let k = choose|k: int| mention_at(s@, k, id);
                lemma_id_run_bounded(s@, k + 5);
            }
        }
    }
    out
}

proof fn lemma_run_over_id(s: Seq<char>, start: int, id: Seq<char>, k: int)
    requires
        is_uuid_text(id),
        0 <= start,
        start + 36 <= s.len(),
        s.subrange(start, start + 36) == id,
        start + 36 == s.len() || !is_id_char(s[start + 36]),
        0 <= k <= 36,
    ensures
        id_run(s, start + k) == 36 - k,
    decreases 36 - k,
{
    if k < 36 {
        lemma_run_over_id(s, start, id, k + 1);
        assert(s[start + k] == id[k]);
        assert(is_id_char(id[k])) by {
            if !(k == 8 || k == 13 || k == 18 || k == 23) {
                assert(is_lower_hex(id[k]));
            }
        }
    }
}

/// Every id that `new_id` makes is found again when a body mentions it as
/// `note:<id>`, wherever the mention stands, as long as no further id
/// character is glued to its end.
pub proof fn law_a_mentioned_fresh_id_is_found(a: Seq<char>, id: Seq<char>, b: Seq<char>)
    requires
        is_uuid_text(id),
        b.len() == 0 || !is_id_char(b[0]),
    ensures
        is_mentioned(a + mention_prefix() + id + b, id),
{
    let s = a + mention_prefix() + id + b;
    let i = a.len() as int;
    assert(s.subrange(i, i + 5) =~= mention_prefix());
    assert(s.subrange(i + 5, i + 5 + 36) =~= id);
    if b.len() > 0 {
        assert(s[i + 5 + 36] == b[0]);
    }
    lemma_run_over_id(s, i + 5, id, 0);
    assert(mention_at(s, i, id));
}

/// The attribute that marks a rendered task item's state.
pub open spec fn checked_mark() -> Seq<char> {
    seq!['d', 'a', 't', 'a', '-', 'c', 'h', 'e', 'c', 'k', 'e', 'd', '=', '"']
}

/// The start of a rendered checkbox.
pub open spec fn checkbox_start() -> Seq<char> {
    seq![
        '<', 'i', 'n', 'p', 'u', 't', ' ', 't', 'y', 'p', 'e', '=', '"', 'c', 'h', 'e', 'c', 'k',
        'b', 'o', 'x', '"',
    ]
}

/// The attribute value written for a state.
pub open spec fn checked_value(done: bool) -> Seq<char> {
    if done {
        seq!['t', 'r', 'u', 'e']
    } else {
        seq!['f', 'a', 'l', 's', 'e']
    }
}

/// The checkbox written for a state: one fixed shape each.
pub open spec fn checkbox_for(done: bool) -> Seq<char> {
    if done {
        checkbox_start() + seq![
            ' ', 'c', 'h', 'e', 'c', 'k', 'e', 'd', '=', '"', 'c', 'h', 'e', 'c', 'k', 'e', 'd', '"',
            '>',
        ]
    } else {
        checkbox_start() + seq!['>']
    }
}

/// After the attribute of the chosen item, which ends at `av`: the first
/// checkbox that follows is rewritten for the new state, if there is one.
pub open spec fn retick_checkbox(s: Seq<char>, av: int, done: bool) -> Seq<char> {
    match find_from(s, checkbox_start(), av) {
        None => s.subrange(av, s.len() as int),
        Some(ia) => match find_from(s, seq!['>'], ia) {
            None => s.subrange(av, s.len() as int),
            Some(e) => s.subrange(av, ia) + checkbox_for(done) + s.subrange(e + 1, s.len() as int),
        },
    }
}

/// Rendered text holds words: some character that is not whitespace stands
/// outside every tag. `in_tag` says whether the text starts inside a tag.
pub open spec fn words_from(s: Seq<char>, in_tag: bool) -> bool
    decreases s.len(),
{
    if s.len() == 0 {
        false
    } else if in_tag {
        words_from(s.drop_first(), s[0] != '>')
    } else if s[0] == '<' {
        words_from(s.drop_first(), true)
    } else if !is_ws(s[0]) {
        true
    } else {
        words_from(s.drop_first(), false)
    }
}

/// The rendered item whose `data-checked` value closes at `close` holds
/// words: its stretch, from inside the tag the mark stands in up to the next
/// item's mark or the end, does.
pub open spec fn item_has_words(s: Seq<char>, close: int) -> bool {
    let end = match find_from(s, checked_mark(), close + 1) {
        Some(n) => n,
        None => s.len() as int,
    };
    words_from(s.subrange(close + 1, end), true)
}

/// The rendered HTML from position `pos` on, where `seen` task items have
/// already been passed: the item numbered `target` gets the new state, both
/// in its `data-checked` attribute and in its checkbox, and everything else is
/// copied. Only items that hold words are numbered, as the task index numbers
/// them. A mark whose value is never closed ends the rewriting.
pub open spec fn retick_html(s: Seq<char>, pos: int, seen: nat, target: nat, done: bool) -> Seq<
    char,
>
    decreases s.len() - pos,
{
    if pos < 0 || pos > s.len() {
        Seq::empty()
    } else {
        match find_from(s, checked_mark(), pos) {
            None => s.subrange(pos, s.len() as int),
            Some(at) => match find_from(s, seq!['"'], at + 14) {
                None => s.subrange(pos, s.len() as int),
                Some(close) => if close + 1 <= pos || close + 1 > s.len() {
                    Seq::empty()
                } else if !item_has_words(s, close) {
                    s.subrange(pos, close + 1) + retick_html(s, close + 1, seen, target, done)
                } else if seen != target {
                    s.subrange(pos, close + 1) + retick_html(s, close + 1, seen + 1, target, done)
                } else {
                    s.subrange(pos, at) + checked_mark() + checked_value(done) + seq!['"']
                        + retick_checkbox(s, close + 1, done)
                },
            },
        }
    }
}

/// Whether `s[from..to]`, starting inside a tag, holds words.
fn has_words_exec(s: &Vec<char>, from: usize, to: usize) -> (res: bool)
    requires
        from <= to <= s@.len(),
    ensures
        res == words_from(s@.subrange(from as int, to as int), true),
{
    let mut i = from;
    let mut in_tag = true;
    while i < to
        invariant
            from <= i <= to <= s@.len(),
            words_from(s@.subrange(from as int, to as int), true) == words_from(
                s@.subrange(i as int, to as int),
                in_tag,
            ),
        decreases to - i,
    {
        let c = s[i];
        proof {
            assert(s@.subrange(i as int, to as int).drop_first() =~= s@.subrange(i + 1, to as int));
            assert(s@.subrange(i as int, to as int)[0] == c);
        }
        if in_tag {
            in_tag = c != '>';
        } else if c == '<' {
            in_tag = true;
        } else if !is_whitespace(c) {
            return true;
        }
        i = i + 1;
    }
    false
}

/// Whether the rendered item whose mark value closes at `close` holds words.
fn item_has_words_exec(s: &Vec<char>, mark: &Vec<char>, close: usize) -> (res: bool)
    requires
        mark@ == checked_mark(),
        close < s@.len(),
    ensures
        res == item_has_words(s@, close as int),
{
    assert(s@.len() == s.len());
    let end = match find_from_exec(s, mark, close + 1) {
        Some(n) => {
            proof {
                lemma_find_from(s@, mark@, close + 1);
                assert(occurs_at(s@, mark@, n as int));
            }
            n
        },
        None => s.len(),
    };
    has_words_exec(s, close + 1, end)
}

fn push_literal(out: &mut Vec<char>, lit: &Vec<char>)
    ensures
        final(out)@ == old(out)@ + lit@,
{
    push_range(out, lit, 0, lit.len());
    assert(lit@.subrange(0, lit@.len() as int) =~= lit@);
}

/// The same tick, in the rendered HTML: the `target`-th task item that holds
/// words has its `data-checked` attribute and the checkbox after it
/// rewritten to one fixed shape for the new state; everything else is kept.
#[verifier::rlimit(40)]
pub fn check_nth_html(html: &str, target: usize, done: bool) -> (res: String)
    ensures
        res@ == retick_html(html@, 0, 0, target as nat, done),
{
    let s = chars_of(html);
    let mark: Vec<char> = vec!['d', 'a', 't', 'a', '-', 'c', 'h', 'e', 'c', 'k', 'e', 'd', '=', '"'];
    let quote: Vec<char> = vec!['"'];
    let gt: Vec<char> = vec!['>'];
    let input: Vec<char> = vec![
        '<', 'i', 'n', 'p', 'u', 't', ' ', 't', 'y', 'p', 'e', '=', '"', 'c', 'h', 'e', 'c', 'k',
        'b', 'o', 'x', '"',
    ];
    assert(mark@ =~= checked_mark());
    assert(input@ =~= checkbox_start());
    assert(quote@ =~= seq!['"']);
    assert(gt@ =~= seq!['>']);
    let mut out: Vec<char> = Vec::new();
    let mut pos: usize = 0;
    let mut seen: usize = 0;
    while pos <= s.len()
        invariant
            s@ == html@,
            pos <= s@.len(),
            seen <= pos,
            mark@ == checked_mark(),
            input@ == checkbox_start(),
            quote@ == seq!['"'],
            gt@ == seq!['>'],
            out@ + retick_html(s@, pos as int, seen as nat, target as nat, done) == retick_html(
                s@,
                0,
                0,
                target as nat,
                done,
            ),
        decreases s.len() - pos,
    {
        let ghost g = retick_html(s@, pos as int, seen as nat, target as nat, done);
        match find_from_exec(&s, &mark, pos) {
            None => {
                push_range(&mut out, &s, pos, s.len());
                return string_of(&out);
            },
            Some(at) => {
                proof {
                    lemma_find_from(s@, checked_mark(), pos as int);
                }
                match find_from_exec(&s, &quote, at + 14) {
                    None => {
                        push_range(&mut out, &s, pos, s.len());
                        return string_of(&out);
                    },
                    Some(close) => {
                        proof {
                            lemma_find_from(s@, seq!['"'], at + 14);
                        }
                        if !item_has_words_exec(&s, &mark, close) {
                            let ghost before_out = out@;
                            push_range(&mut out, &s, pos, close + 1);
                            let ghost rest = retick_html(
                                s@,
                                close + 1,
                                seen as nat,
                                target as nat,
                                done,
                            );
                            assert(g == s@.subrange(pos as int, close + 1) + rest);
                            assert(out@ + rest =~= before_out + g);
                            pos = close + 1;
                        } else if seen != target {
                            let ghost before_out = out@;
                            push_range(&mut out, &s, pos, close + 1);
                            let ghost rest = retick_html(
                                s@,
                                close + 1,
                                (seen + 1) as nat,
                                target as nat,
                                done,
                            );
                            assert(g == s@.subrange(pos as int, close + 1) + rest);
                            assert(out@ + rest =~= before_out + g);
                            pos = close + 1;
                            seen = seen + 1;
                        } else {
                            push_range(&mut out, &s, pos, at);
                            push_literal(&mut out, &mark);
                            if done {
                                let v: Vec<char> = vec!['t', 'r', 'u', 'e'];
                                push_literal(&mut out, &v);
                            } else {
                                let v: Vec<char> = vec!['f', 'a', 'l', 's', 'e'];
                                push_literal(&mut out, &v);
                            }
                            push_literal(&mut out, &quote);
                            let av = close + 1;
                            match find_from_exec(&s, &input, av) {
                                None => {
                                    push_range(&mut out, &s, av, s.len());
                                },
                                Some(ia) => {
                                    proof {
                                        lemma_find_from(s@, checkbox_start(), av as int);
                                    }
                                    match find_from_exec(&s, &gt, ia) {
                                        None => {
                                            push_range(&mut out, &s, av, s.len());
                                        },
                                        Some(e) => {
                                            proof {
                                                lemma_find_from(s@, seq!['>'], ia as int);
                                            }
                                            push_range(&mut out, &s, av, ia);
                                            let mut tick: Vec<char> = vec![
                                                '<', 'i', 'n', 'p', 'u', 't', ' ', 't', 'y', 'p', 'e', '=', '"', 'c', 'h', 'e',
                                                'c', 'k', 'b', 'o', 'x', '"',
                                            ];
                                            if done {
                                                let rest: Vec<char> = vec![
                                                    ' ', 'c', 'h', 'e', 'c', 'k', 'e', 'd', '=', '"', 'c', 'h', 'e', 'c', 'k',
                                                    'e', 'd', '"', '>',
                                                ];
                                                push_literal(&mut tick, &rest);
                                            } else {
                                                push_literal(&mut tick, &gt);
                                            }
                                            assert(tick@ =~= checkbox_for(done));
                                            push_literal(&mut out, &tick);
                                            push_range(&mut out, &s, e + 1, s.len());
                                        },
                                    }
                                },
                            }
                            proof {
                                assert(out@ =~= retick_html(s@, 0, 0, target as nat, done));
                            }
                            return string_of(&out);
                        }
                    },
                }
            },
        }
    }
    string_of(&out)
}

/// Each id mentioned in a body, but the note's own: a note mentioning itself
/// is not a connection. Each id once.
pub fn link_targets(note_id: &str, body_json: &str) -> (res: Vec<String>)
    ensures
        string_views(res@).no_duplicates(),
        forall|id: Seq<char>|
            #[trigger] string_views(res@).contains(id) == (is_mentioned(body_json@, id) && id
                != note_id@),
        in_mention_order(body_json@, string_views(res@), body_json@.len() as int),
{
    let ids = mentioned_ids(body_json);
    let own = note_id.to_owned();
    let ghost all = string_views(ids@);
    let mut out: Vec<String> = Vec::new();
    let ghost mut idx: Seq<int> = Seq::empty();
    for id in it: ids.into_iter()
        invariant
            string_views(it.seq()) == all,
            all.no_duplicates(),
            in_mention_order(body_json@, all, body_json@.len() as int),
            own@ == note_id@,
            string_views(out@).no_duplicates(),
            idx.len() == out@.len(),
            forall|k: int| 0 <= k < idx.len() ==> 0 <= #[trigger] idx[k] < it.index(),
            forall|k: int| 0 <= k < idx.len() ==> all[#[trigger] idx[k]] == string_views(out@)[k],
            forall|a: int, b: int| 0 <= a < b < idx.len() ==> #[trigger] idx[a] < #[trigger] idx[b],
            forall|x: Seq<char>|
                #[trigger] string_views(out@).contains(x) == (string_views(it.seq().take(
                    it.index() as int,
                )).contains(x) && x != note_id@),
    {
        let ghost j = it.index() as int;
        let ghost prev = string_views(out@);
        let ghost tj = string_views(it.seq().take(j));
        let ghost tj1 = string_views(it.seq().take(j + 1));
        proof {
            assert(tj1 =~= tj.push(id@));
            assert(all[j] == id@);
            assert forall|x: Seq<char>| #[trigger] tj1.contains(x) == (tj.contains(x) || x == id@) by {
                if tj.contains(x) {
                    let c = choose|c: int| 0 <= c < tj.len() && tj[c] == x;
                    assert(tj1[c] == x);
                }
                if x == id@ {
                    assert(tj1[j] == x);
                }
                if tj1.contains(x) && x != id@ {
                    let c = choose|c: int| 0 <= c < tj1.len() && tj1[c] == x;
                    assert(tj[c] == x);
                }
            }
        }
        if id != own {
            proof {
                if prev.contains(id@) {
                    let c = choose|c: int| 0 <= c < j && tj[c] == id@;
                    assert(all[c] == id@);
                }
            }
            out.push(id);
            proof {
                idx = idx.push(j);
                let now_out = string_views(out@);
                assert(now_out =~= prev.push(id@));
                assert forall|x: Seq<char>| #[trigger] now_out.contains(x) == (prev.contains(x) || x
                    == id@) by {
                    if prev.contains(x) {
                        let c = choose|c: int| 0 <= c < prev.len() && prev[c] == x;
                        assert(now_out[c] == x);
                    }
                    if x == id@ {
                        assert(now_out[prev.len() as int] == x);
                    }
                    if now_out.contains(x) && x != id@ {
                        let c = choose|c: int| 0 <= c < now_out.len() && now_out[c] == x;
                        assert(prev[c] == x);
                    }
                }
            }
        }
    }
    proof {
        assert(ids@.take(ids@.len() as int) =~= ids@);
        let r = string_views(out@);
        let s = body_json@;
        assert forall|a: int, b: int, j: int|
            #![trigger mention_at(s, j, r[b]), mentioned_before(s, r[a], j)]
            0 <= a < b < r.len() && 0 <= j < s.len() && mention_at(s, j, r[b]) implies mentioned_before(
            s,
            r[a],
            j,
        ) by {
            assert(all[idx[a]] == r[a]);
            assert(all[idx[b]] == r[b]);
            assert(idx[a] < idx[b]);
            assert(mention_at(s, j, all[idx[b]]));
        }
    }
    out
}

/// The date `chrono` reads in these characters (as `NaiveDate`), written back
/// as `chrono` writes a date.
pub uninterp spec fn spec_parse_date(text: Seq<char>) -> Option<Seq<char>>;

/// Calls `str::parse::<chrono::NaiveDate>` and, for a date it reads,
/// `to_string`. Trusted to give the result named `spec_parse_date`, a
/// function of the characters alone; which texts chrono accepts, and how it
/// writes the date back, is not stated.
#[verifier::external_body]
pub(crate) fn parse_date(text: &str) -> (res: Option<String>)
    ensures
        match res {
            Some(d) => spec_parse_date(text@) == Some(d@),
            None => spec_parse_date(text@) is None,
        },
{
    match text.parse::<chrono::NaiveDate>() {
        Ok(d) => Some(d.to_string()),
        Err(_) => None,
    }
}

/// The mark a task's date is written after.
pub open spec fn due_mark() -> Seq<char> {
    seq!['d', 'u', 'e', ':']
}

/// What is read as a task's date: the (at most) ten characters after the
/// first `due:`, when there is one.
pub open spec fn due_candidate(text: Seq<char>) -> Option<Seq<char>> {
    match find_from(text, due_mark(), 0) {
        Some(at) => {
            let from = at + 4;
            let to = if from + 10 <= text.len() {
                from + 10
            } else {
                text.len() as int
            };
            Some(text.subrange(from, to))
        },
        None => None,
    }
}

/// The date a task carries: what chrono reads in the candidate, if anything.
pub open spec fn spec_due_date(text: Seq<char>) -> Option<Seq<char>> {
    match due_candidate(text) {
        Some(c) => spec_parse_date(c),
        None => None,
    }
}

/// An optional string as characters.
pub open spec fn opt_view(o: Option<String>) -> Option<Seq<char>> {
    match o {
        Some(s) => Some(s@),
        None => None,
    }
}

/// The date a task carries, if it carries one: `due:YYYY-MM-DD`, written
/// inline. Explicit rather than guessed from natural language: a date the
/// app guessed at is worse than no date.
pub fn due_date(text: &str) -> (res: Option<String>)
    ensures
        opt_view(res) == spec_due_date(text@),
{
    let s = chars_of(text);
    let mark = vec!['d', 'u', 'e', ':'];
    assert(mark@ == due_mark());
    match find_from_exec(&s, &mark, 0) {
        Some(at) => {
            proof {
                lemma_find_from(s@, mark@, 0);
                assert(mark@.len() == 4);
                assert(occurs_at(s@, mark@, at as int));
                assert(at + 4 <= s@.len());
                assert(s@.len() == s.len());
            }
            let from = at + 4;
            let to = if s.len() - from >= 10 {
                from + 10
            } else {
                s.len()
            };
            let mut candidate: Vec<char> = Vec::new();
            push_range(&mut candidate, &s, from, to);
            let c = string_of(&candidate);
            parse_date(c.as_str())
        },
        None => None,
    }
}

/// One task, as it appears in a note.
#[derive(Debug, Clone)]
pub struct Task {
    pub id: String,
    pub note_id: String,
    pub text: String,
    pub done: bool,
    /// Only set when the text carries an explicit `due:YYYY-MM-DD`.
    pub due_on: Option<String>,
    pub position: i64,
}

/// A task with enough context to be actionable from the panel.
#[derive(Debug, Clone)]
pub struct DueTask {
    pub task: Task,
    pub note_title: String,
    /// Set when the task lives on a day's page, which has no title.
    pub journal_day: Option<String>,
}

/// The decimal digit for `d < 10`.
pub open spec fn digit(d: nat) -> char {
    ((48 + d) as u8) as char
}

/// `n` written in decimal.
pub open spec fn decimal(n: nat) -> Seq<char>
    decreases n,
{
    if n < 10 {
        seq![digit(n)]
    } else {
        decimal(n / 10).push(digit(n % 10))
    }
}

/// `n` written in decimal.
pub fn decimal_exec(n: usize) -> (res: Vec<char>)
    ensures
        res@ == decimal(n as nat),
    decreases n,
{
    let d = (n % 10) as u8;
    let c = (48u8 + d) as char;
    assert(c == digit((n % 10) as nat));
    if n < 10 {
        vec![c]
    } else {
        let mut out = decimal_exec(n / 10);
        out.push(c);
        out
    }
}

/// A task's id: derived from where the task sits, so that it survives the
/// index being rebuilt.
pub open spec fn task_id_of(note_id: Seq<char>, position: nat) -> Seq<char> {
    note_id.push(':') + decimal(position)
}

/// `t` is the row recorded for the task found at `position` in note
/// `note_id`.
pub open spec fn is_task_row(t: Task, note_id: Seq<char>, position: int, found: (Seq<char>, bool)) -> bool {
    &&& t.id@ == task_id_of(note_id, position as nat)
    &&& t.note_id@ == note_id
    &&& t.text@ == found.0
    &&& t.done == found.1
    &&& opt_view(t.due_on) == spec_due_date(found.0)
    &&& t.position == position as i64
}

/// `rows` is the task index of note `note_id` with document `v`: one row per
/// task, in document order.
pub open spec fn is_task_index(rows: Seq<Task>, note_id: Seq<char>, v: JsonView) -> bool {
    &&& rows.len() == tasks_in(v).len()
    &&& forall|i: int|
        0 <= i < rows.len() ==> is_task_row(#[trigger] rows[i], note_id, i, tasks_in(v)[i])
}

/// A task row, as plain values.
pub open spec fn task_row_view(t: Task) -> (Seq<char>, Seq<char>, Seq<char>, bool, Option<Seq<char>>, i64) {
    (t.id@, t.note_id@, t.text@, t.done, opt_view(t.due_on), t.position)
}

/// The task index is derived, never a second truth: two indexes built from
/// the same document are the same, row for row, so deleting the index and
/// saving again rebuilds it exactly.
pub proof fn law_the_task_index_is_rebuilt_exactly(
    a: Seq<Task>,
    b: Seq<Task>,
    note_id: Seq<char>,
    v: JsonView,
)
    requires
        is_task_index(a, note_id, v),
        is_task_index(b, note_id, v),
    ensures
        a.len() == b.len(),
        forall|i: int| 0 <= i < a.len() ==> task_row_view(#[trigger] a[i]) == task_row_view(b[i]),
{
    assert forall|i: int| 0 <= i < a.len() implies task_row_view(#[trigger] a[i]) == task_row_view(
        b[i],
    ) by {
        assert(is_task_row(a[i], note_id, i, tasks_in(v)[i]));
        assert(is_task_row(b[i], note_id, i, tasks_in(v)[i]));
    }
}

/// A tick keeps every task's id: the index rebuilt after ticking task `p`
/// has the same rows at the same positions with the same ids, and only task
/// `p` changes whether it is done.
pub proof fn law_a_tick_keeps_the_task_ids(
    before: Seq<Task>,
    after: Seq<Task>,
    note_id: Seq<char>,
    v: JsonView,
    p: nat,
    done: bool,
)
    requires
        p < tasks_in(v).len(),
        is_task_index(before, note_id, v),
        is_task_index(after, note_id, tick(v, p, done, 0).0),
    ensures
        after.len() == before.len(),
        forall|i: int| 0 <= i < before.len() ==> (#[trigger] after[i]).id@ == before[i].id@,
        forall|i: int|
            0 <= i < before.len() ==> (#[trigger] after[i]).done == if i == p {
                done
            } else {
                before[i].done
            },
{
    law_a_tick_lands_on_its_task(v, p, done);
    let w = tick(v, p, done, 0).0;
    assert forall|i: int| 0 <= i < before.len() implies (#[trigger] after[i]).id@ == before[i].id@
        && after[i].done == if i == p {
        done
    } else {
        before[i].done
    } by {
        assert(is_task_row(before[i], note_id, i, tasks_in(v)[i]));
        assert(is_task_row(after[i], note_id, i, tasks_in(w)[i]));
    }
}

/// The task rows of a note, rebuilt from its document: one per task, in
/// document order, each with its position, its date if it carries one, and
/// an id derived from the position.
pub fn task_rows(note_id: &str, doc: &Json) -> (res: Vec<Task>)
    ensures
        is_task_index(res@, note_id@, jv(*doc)),
{
    let mut found: Vec<(String, bool)> = Vec::new();
    collect_tasks(doc, &mut found);
    assert(task_views(found@) =~= tasks_in(jv(*doc)));
    let ghost fv = task_views(found@);
    let nid = chars_of(note_id);
    let mut rows: Vec<Task> = Vec::new();
    let mut position: usize = 0;
    let ghost fs = found@;
    assert(fs.len() == found.len());
    for t in it: found.into_iter()
        invariant
            it.seq() == fs,
            fs.len() <= usize::MAX,
            fv == task_views(it.seq()),
            nid@ == note_id@,
            position == it.index(),
            rows@.len() == position,
            forall|i: int|
                0 <= i < rows@.len() ==> is_task_row(#[trigger] rows@[i], note_id@, i, fv[i]),
    {
        proof {
            assert(position < fs.len());
            assert(fv[position as int] == (t.0@, t.1));
        }
        let mut id = nid.clone();
        proof {
            assert(id@ == nid@);
        }
        id.push(':');
        let digits = decimal_exec(position);
        let k = digits.len();
        push_range(&mut id, &digits, 0, k);
        proof {
            assert(digits@.subrange(0, k as int) =~= digits@);
        }
        let due = due_date(t.0.as_str());
        rows.push(
            Task {
                id: string_of(&id),
                note_id: note_id.to_owned(),
                text: t.0,
                done: t.1,
                due_on: due,
                position: position as i64,
            },
        );
        position = position + 1;
    }
    rows
}

/// Ticks or unticks the task at `position` in document order, in the
/// document: the document afterwards, or nothing when it holds no such task.
pub fn tick_document(doc: Json, position: usize, done: bool) -> (res: Option<Json>)
    ensures
        tick(jv(doc), position as nat, done, 0).2 ==> (res matches Some(d) && jv(d) == tick(
            jv(doc),
            position as nat,
            done,
            0,
        ).0),
        !tick(jv(doc), position as nat, done, 0).2 ==> res is None,
{
    let (d, _, found) = tick_exec(doc, position, done, 0);
    if found {
        Some(d)
    } else {
        None
    }
}

/// The date a task is sorted by: its own, or nothing for an undated task.
pub open spec fn due_key(t: DueTask) -> Seq<char> {
    match t.task.due_on {
        Some(d) => d@,
        None => Seq::empty(),
    }
}

/// `a` may stand before `b` in a list of open tasks: dated tasks first, by
/// date, then by the title of the note they are in, then by position.
pub open spec fn open_before(a: DueTask, b: DueTask) -> bool {
    match (a.task.due_on, b.task.due_on) {
        (Some(_), None) => true,
        (None, Some(_)) => false,
        _ => if due_key(a) != due_key(b) {
            text_le(due_key(a), due_key(b))
        } else if a.note_title@ != b.note_title@ {
            text_le(a.note_title@, b.note_title@)
        } else {
            a.task.position <= b.task.position
        },
    }
}

impl Ranked for DueTask {
    open spec fn precedes(self, other: Self) -> bool {
        open_before(self, other)
    }

    proof fn precedes_total(a: Self, b: Self) {
        lemma_text_total(due_key(a), due_key(b));
        lemma_text_total(a.note_title@, b.note_title@);
    }

    proof fn precedes_transitive(a: Self, b: Self, c: Self) {
        lemma_text_antisymmetric(due_key(a), due_key(b));
        lemma_text_antisymmetric(due_key(b), due_key(c));
        lemma_text_antisymmetric(due_key(a), due_key(c));
        lemma_text_transitive(due_key(a), due_key(b), due_key(c));
        lemma_text_antisymmetric(a.note_title@, b.note_title@);
        lemma_text_antisymmetric(b.note_title@, c.note_title@);
        lemma_text_antisymmetric(a.note_title@, c.note_title@);
        lemma_text_transitive(a.note_title@, b.note_title@, c.note_title@);
    }

    fn may_precede(&self, other: &Self) -> (res: bool) {
        match (&self.task.due_on, &other.task.due_on) {
            (Some(_), None) => {
                return true;
            },
            (None, Some(_)) => {
                return false;
            },
            (Some(x), Some(y)) => {
                if *x != *y {
                    return text_le_exec(x.as_str(), y.as_str());
                }
            },
            (None, None) => {},
        }
        if self.note_title != other.note_title {
            return text_le_exec(self.note_title.as_str(), other.note_title.as_str());
        }
        self.task.position <= other.task.position
    }
}

/// An open task is on a day's panel: dated for that day wherever it was
/// written, or written undated on that day's own page.
pub open spec fn on_day(t: DueTask, day: Seq<char>) -> bool {
    &&& !t.task.done
    &&& match t.task.due_on {
        Some(d) => d@ == day,
        None => t.journal_day matches Some(j) && j@ == day,
    }
}

/// The rows of `s` on a day's panel, in their order.
pub open spec fn day_rows(s: Seq<DueTask>, day: Seq<char>) -> Seq<DueTask>
    decreases s.len(),
{
    if s.len() == 0 {
        Seq::empty()
    } else if on_day(s.last(), day) {
        day_rows(s.drop_last(), day).push(s.last())
    } else {
        day_rows(s.drop_last(), day)
    }
}

/// The open rows of `s`, in their order.
pub open spec fn open_rows(s: Seq<DueTask>) -> Seq<DueTask>
    decreases s.len(),
{
    if s.len() == 0 {
        Seq::empty()
    } else if !s.last().task.done {
        open_rows(s.drop_last()).push(s.last())
    } else {
        open_rows(s.drop_last())
    }
}

fn on_day_exec(t: &DueTask, day: &String) -> (res: bool)
    ensures
        res == on_day(*t, day@),
{
    if t.task.done {
        return false;
    }
    match &t.task.due_on {
        Some(d) => *d == *day,
        None => match &t.journal_day {
            Some(j) => *j == *day,
            None => false,
        },
    }
}

/// What is on for one day: open tasks dated for that day, wherever they were
/// written, and open tasks written on that day's own page, dated or not. A
/// task written undated on one day's page does not follow you into the next.
pub fn due_on(rows: Vec<DueTask>, day: &str) -> (res: Vec<DueTask>)
    ensures
        res@.to_multiset() == day_rows(rows@, day@).to_multiset(),
        in_order(res@),
{
    let wanted = day.to_owned();
    let ghost input = rows@;
    let mut out: Vec<DueTask> = Vec::new();
    proof {
        assert(input.take(0) =~= Seq::<DueTask>::empty());
    }
    for t in it: rows.into_iter()
        invariant
            it.seq() == input,
            wanted@ == day@,
            in_order(out@),
            out@.to_multiset() == day_rows(input.take(it.index() as int), day@).to_multiset(),
    {
        let ghost i = it.index() as int;
        proof {
            assert(input.take(i + 1).drop_last() =~= input.take(i));
            assert(input.take(i + 1).last() == t);
        }
        if on_day_exec(&t, &wanted) {
            insert_in_order(&mut out, t);
            proof {
                vstd::seq_lib::to_multiset_build(day_rows(input.take(i), day@), t);
            }
        }
    }
    proof {
        assert(input.take(input.len() as int) =~= input);
    }
    out
}

/// Every open task, dated or not: a task you wrote and cannot find again is
/// worse than a list longer than you would like.
pub fn all_open(rows: Vec<DueTask>) -> (res: Vec<DueTask>)
    ensures
        res@.to_multiset() == open_rows(rows@).to_multiset(),
        in_order(res@),
{
    let ghost input = rows@;
    let mut out: Vec<DueTask> = Vec::new();
    for t in it: rows.into_iter()
        invariant
            it.seq() == input,
            in_order(out@),
            out@.to_multiset() == open_rows(input.take(it.index() as int)).to_multiset(),
    {
        let ghost i = it.index() as int;
        proof {
            assert(input.take(i + 1).drop_last() =~= input.take(i));
            assert(input.take(i + 1).last() == t);
        }
        if !t.task.done {
            insert_in_order(&mut out, t);
            proof {
                vstd::seq_lib::to_multiset_build(open_rows(input.take(i)), t);
            }
        }
    }
    proof {
        assert(input.take(input.len() as int) =~= input);
    }
    out
}

/// Only the day's own work reaches its panel: every task on it is open, and
/// is dated for the day or was written on the day's own page.
pub proof fn law_a_day_shows_only_its_own_tasks(rows: Seq<DueTask>, day: Seq<char>, shown: Seq<DueTask>)
    requires
        shown.to_multiset() == day_rows(rows, day).to_multiset(),
    ensures
        forall|i: int| 0 <= i < shown.len() ==> on_day(#[trigger] shown[i], day),
{
    lemma_day_rows_on_day(rows, day);
    assert forall|i: int| 0 <= i < shown.len() implies on_day(#[trigger] shown[i], day) by {
        vstd::seq_lib::to_multiset_contains(shown, shown[i]);
        vstd::seq_lib::to_multiset_contains(day_rows(rows, day), shown[i]);
        assert(shown.contains(shown[i]));
    }
}

proof fn lemma_day_rows_on_day(rows: Seq<DueTask>, day: Seq<char>)
    ensures
        forall|t: DueTask| day_rows(rows, day).contains(t) ==> on_day(t, day),
    decreases rows.len(),
{
    if rows.len() > 0 {
        lemma_day_rows_on_day(rows.drop_last(), day);
        let prev = day_rows(rows.drop_last(), day);
        assert forall|t: DueTask| day_rows(rows, day).contains(t) implies on_day(t, day) by {
            if on_day(rows.last(), day) {
                let k = choose|k: int| 0 <= k < day_rows(rows, day).len() && day_rows(rows, day)[k] == t;
                if k < prev.len() {
                    assert(prev[k] == t);
                }
            }
        }
    }
}

} // verus!
