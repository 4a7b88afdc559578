//! What repeated ticks do to the rendered HTML of a note: the last tick of an
//! item decides its state, so a tick undone by an untick leaves the HTML as
//! the untick alone would.

use vstd::prelude::*;

use crate::repo::derived::{
    checkbox_for, checkbox_start, checked_mark, checked_value, item_has_words, retick_checkbox,
    retick_html, words_from,
};
use crate::text::{find_from, lemma_find_from, occurs_at};

verus! {

/// `s` and `s2` hold the same characters below `m`.
pub open spec fn agree_below(s: Seq<char>, s2: Seq<char>, m: int) -> bool {
    &&& 0 <= m <= s.len()
    &&& m <= s2.len()
    &&& forall|k: int| 0 <= k < m ==> s[k] == s2[k]
}

/// A search whose hit lies below `m` finds the same hit in text that agrees
/// below `m`.
proof fn lemma_find_agree(s: Seq<char>, s2: Seq<char>, p: Seq<char>, i: int, j: int, m: int)
    requires
        0 <= i,
        find_from(s, p, i) == Some(j),
        j + p.len() <= m,
        agree_below(s, s2, m),
    ensures
        find_from(s2, p, i) == Some(j),
    decreases j - i,
{
    lemma_find_from(s, p, i);
    assert(s2.subrange(i, i + p.len()) =~= s.subrange(i, i + p.len()));
    if occurs_at(s, p, i) {
    } else {
        lemma_find_agree(s, s2, p, i + 1, j, m);
    }
}

/// The first occurrence at or after `i` is found.
proof fn lemma_find_is(s: Seq<char>, p: Seq<char>, i: int, j: int)
    requires
        0 <= i <= j,
        occurs_at(s, p, j),
        forall|k: int| i <= k < j ==> !occurs_at(s, p, k),
    ensures
        find_from(s, p, i) == Some(j),
    decreases j - i,
{
    if i < j {
        lemma_find_is(s, p, i + 1, j);
    }
}

/// A stretch without occurrences can be skipped.
proof fn lemma_find_skip(s: Seq<char>, p: Seq<char>, i: int, j: int)
    requires
        0 <= i <= j,
        forall|k: int| i <= k < j ==> !occurs_at(s, p, k),
    ensures
        find_from(s, p, i) == find_from(s, p, j),
    decreases j - i,
{
    if i < j {
        lemma_find_skip(s, p, i + 1, j);
    }
}

/// What a search finds is the first occurrence; what it misses is not there.
proof fn lemma_find_first(s: Seq<char>, p: Seq<char>, i: int)
    requires
        0 <= i,
    ensures
        find_from(s, p, i) matches Some(n) ==> i <= n && occurs_at(s, p, n) && forall|k: int|
            i <= k < n ==> !occurs_at(s, p, k),
        find_from(s, p, i) is None ==> forall|k: int| i <= k ==> !occurs_at(s, p, k),
    decreases s.len() + 1 - i,
{
    if !(i + p.len() > s.len()) && !occurs_at(s, p, i) {
        lemma_find_first(s, p, i + 1);
    }
}

/// Searching behind a prefix is searching the rest, shifted.
proof fn lemma_find_shift(a: Seq<char>, b: Seq<char>, p: Seq<char>, k: int)
    requires
        0 <= k,
    ensures
        find_from(a + b, p, a.len() + k) == (match find_from(b, p, k) {
            Some(j) => Some(j + a.len()),
            None => None,
        }),
    decreases b.len() + 1 - k,
{
    if k + p.len() <= b.len() {
        assert((a + b).subrange(a.len() + k, a.len() + k + p.len()) =~= b.subrange(k, k + p.len()));
        if !occurs_at(b, p, k) {
            lemma_find_shift(a, b, p, k + 1);
        }
    }
}

proof fn lemma_literal_facts(done: bool)
    ensures
        checkbox_for(done).len() >= 23,
        checkbox_for(done).subrange(0, 22) == checkbox_start(),
        checkbox_start()[0] == '<',
        forall|k: int| 0 <= k < 22 ==> checkbox_start()[k] != '>',
        forall|k: int| 0 <= k < checkbox_for(done).len() - 1 ==> checkbox_for(done)[k] != '>',
        checkbox_for(done)[checkbox_for(done).len() - 1] == '>',
        forall|k: int| 0 <= k < checkbox_for(done).len() ==> checkbox_for(done)[k] != '-',
        checked_mark()[4] == '-',
        forall|k: int| 0 <= k < 14 ==> checked_mark()[k] != '>',
        forall|k: int| 0 <= k < checked_value(done).len() ==> checked_value(done)[k] != '"',
{
    assert(checkbox_for(done).subrange(0, 22) =~= checkbox_start());
}

/// Whether a scan of `s` for words, started in state `in_tag`, ends inside a
/// tag.
pub open spec fn tag_state(s: Seq<char>, in_tag: bool) -> bool
    decreases s.len(),
{
    if s.len() == 0 {
        in_tag
    } else if in_tag {
        tag_state(s.drop_first(), s[0] != '>')
    } else {
        tag_state(s.drop_first(), s[0] == '<')
    }
}

/// Scanning two texts one after the other finds words exactly when one of
/// them holds some.
proof fn lemma_words_concat(a: Seq<char>, b: Seq<char>, in_tag: bool)
    ensures
        words_from(a + b, in_tag) == (words_from(a, in_tag) || words_from(b, tag_state(a, in_tag))),
    decreases a.len(),
{
    if a.len() == 0 {
        assert(a + b =~= b);
    } else {
        assert((a + b).drop_first() =~= a.drop_first() + b);
        assert((a + b)[0] == a[0]);
        if in_tag {
            lemma_words_concat(a.drop_first(), b, a[0] != '>');
        } else {
            lemma_words_concat(a.drop_first(), b, a[0] == '<');
        }
    }
}

/// Text inside a tag, with no `>` in it, holds no words and stays inside.
proof fn lemma_inside_tag(s: Seq<char>)
    requires
        forall|k: int| 0 <= k < s.len() ==> s[k] != '>',
    ensures
        !words_from(s, true),
        tag_state(s, true),
    decreases s.len(),
{
    if s.len() > 0 {
        assert(forall|k: int| 0 <= k < s.drop_first().len() ==> s.drop_first()[k] == s[k + 1]);
        lemma_inside_tag(s.drop_first());
    }
}

/// A tag opened by `<` and not yet closed holds no words, from either state.
proof fn lemma_open_tag(s: Seq<char>, in_tag: bool)
    requires
        s.len() > 0,
        s[0] == '<',
        forall|k: int| 0 <= k < s.len() ==> s[k] != '>',
    ensures
        !words_from(s, in_tag),
        tag_state(s, in_tag),
{
    assert(forall|k: int| 0 <= k < s.drop_first().len() ==> s.drop_first()[k] == s[k + 1]);
    lemma_inside_tag(s.drop_first());
}

/// A whole tag, from `<` to its `>`, holds no words and leaves the scan
/// outside every tag.
proof fn lemma_closed_tag(s: Seq<char>, in_tag: bool)
    requires
        s.len() > 1,
        s[0] == '<',
        s[s.len() - 1] == '>',
        forall|k: int| 0 <= k < s.len() - 1 ==> s[k] != '>',
    ensures
        !words_from(s, in_tag),
        !tag_state(s, in_tag),
{
    let o = s.drop_last();
    assert(s =~= o + seq!['>']);
    lemma_open_tag(o, in_tag);
    lemma_words_concat(o, seq!['>'], in_tag);
    let g = seq!['>'];
    assert(g.drop_first() =~= Seq::<char>::empty());
    assert(g.len() == 1 && g[0] == '>');
    assert(!words_from(g.drop_first(), false));
    assert(!tag_state(g.drop_first(), false));
    assert(!words_from(g, true));
    assert(!tag_state(g, true));
    lemma_tag_state_concat(o, seq!['>'], in_tag);
}

proof fn lemma_tag_state_concat(a: Seq<char>, b: Seq<char>, in_tag: bool)
    ensures
        tag_state(a + b, in_tag) == tag_state(b, tag_state(a, in_tag)),
    decreases a.len(),
{
    if a.len() == 0 {
        assert(a + b =~= b);
    } else {
        assert((a + b).drop_first() =~= a.drop_first() + b);
        assert((a + b)[0] == a[0]);
        if in_tag {
            lemma_tag_state_concat(a.drop_first(), b, a[0] != '>');
        } else {
            lemma_tag_state_concat(a.drop_first(), b, a[0] == '<');
        }
    }
}

/// Where the item that starts a text ends: at the next item's mark, or at
/// the end.
pub open spec fn item_end(z: Seq<char>) -> int {
    match find_from(z, checked_mark(), 0) {
        Some(n) => n,
        None => z.len() as int,
    }
}

/// The item that starts a text, up to the next item's mark, holds words.
pub open spec fn words_ahead(z: Seq<char>) -> bool {
    words_from(z.subrange(0, item_end(z)), true)
}

proof fn lemma_occurs_char(s: Seq<char>, c: char, k: int)
    requires
        0 <= k < s.len(),
    ensures
        occurs_at(s, seq![c], k) == (s[k] == c),
{
    if s[k] == c {
        assert(s.subrange(k, k + 1) =~= seq![c]);
    } else {
        assert(s.subrange(k, k + 1)[0] == s[k]);
    }
}

/// The checkbox found by a rewrite: where it starts and where its tag closes.
proof fn lemma_checkbox_found(z: Seq<char>, ia: int, e: int)
    requires
        find_from(z, checkbox_start(), 0) == Some(ia),
        find_from(z, seq!['>'], ia) == Some(e),
    ensures
        0 <= ia,
        ia + 22 <= e < z.len(),
        z.subrange(ia, ia + 22) == checkbox_start(),
        z[ia] == '<',
        z[e] == '>',
        forall|k: int| ia <= k < e ==> z[k] != '>',
        forall|k: int| 0 <= k < ia ==> !occurs_at(z, checkbox_start(), k),
{
    lemma_literal_facts(true);
    lemma_find_first(z, checkbox_start(), 0);
    lemma_find_first(z, seq!['>'], ia);
    assert(z[ia] == z.subrange(ia, ia + 22)[0]);
    assert forall|k: int| ia <= k < e implies z[k] != '>' by {
        lemma_occurs_char(z, '>', k);
    }
    lemma_occurs_char(z, '>', e);
    assert forall|k: int| ia <= k < ia + 22 implies z[k] != '>' by {
        assert(z[k] == z.subrange(ia, ia + 22)[k - ia]);
    }
    if e < ia + 22 {
        assert(z[e] == z.subrange(ia, ia + 22)[e - ia]);
    }
}

/// The text after a checkbox rewrite, and how it lines up with the text
/// before.
proof fn lemma_rewritten(z: Seq<char>, ia: int, e: int, d: bool)
    requires
        find_from(z, checkbox_start(), 0) == Some(ia),
        find_from(z, seq!['>'], ia) == Some(e),
    ensures
        retick_checkbox(z, 0, d) == z.subrange(0, ia) + checkbox_for(d) + z.subrange(e + 1, z.len() as int),
        agree_below(z, retick_checkbox(z, 0, d), ia + 22),
        find_from(retick_checkbox(z, 0, d), checkbox_start(), 0) == Some(ia),
        find_from(retick_checkbox(z, 0, d), seq!['>'], ia) == Some(ia + checkbox_for(d).len() - 1),
{
    lemma_checkbox_found(z, ia, e);
    lemma_literal_facts(d);
    let c = checkbox_for(d);
    let y = retick_checkbox(z, 0, d);
    assert(y == z.subrange(0, ia) + c + z.subrange(e + 1, z.len() as int));
    assert forall|k: int| 0 <= k < ia + 22 implies z[k] == y[k] by {
        if k >= ia {
            assert(z[k] == z.subrange(ia, ia + 22)[k - ia]);
            assert(c[k - ia] == c.subrange(0, 22)[k - ia]);
        }
    }
    lemma_find_agree(z, y, checkbox_start(), 0, ia, ia + 22);
    let q = ia + c.len() - 1;
    assert forall|k: int| ia <= k < q implies !occurs_at(y, seq!['>'], k) by {
        lemma_occurs_char(y, '>', k);
        assert(y[k] == c[k - ia]);
    }
    lemma_occurs_char(y, '>', q);
    assert(y[q] == c[c.len() - 1]);
    lemma_find_is(y, seq!['>'], ia, q);
}

/// Rewriting a checkbox twice is rewriting it once, to the later state.
proof fn lemma_rewrite_twice(z: Seq<char>, a: bool, b: bool)
    ensures
        retick_checkbox(retick_checkbox(z, 0, a), 0, b) == retick_checkbox(z, 0, b),
{
    assert(z.subrange(0, z.len() as int) =~= z);
    match find_from(z, checkbox_start(), 0) {
        None => {},
        Some(ia) => match find_from(z, seq!['>'], ia) {
            None => {},
            Some(e) => {
                lemma_rewritten(z, ia, e, a);
                lemma_rewritten(z, ia, e, b);
                let y = retick_checkbox(z, 0, a);
                let q = ia + checkbox_for(a).len() - 1;
                lemma_rewritten(y, ia, q, b);
                assert(y.subrange(0, ia) =~= z.subrange(0, ia));
                assert(y.subrange(q + 1, y.len() as int) =~= z.subrange(e + 1, z.len() as int));
            },
        },
    }
}

/// No item mark starts inside a written checkbox.
proof fn lemma_no_mark_in_checkbox(y: Seq<char>, ia: int, d: bool)
    requires
        0 <= ia,
        ia + checkbox_for(d).len() <= y.len(),
        y.subrange(ia, ia + checkbox_for(d).len()) == checkbox_for(d),
    ensures
        forall|k: int| ia <= k < ia + checkbox_for(d).len() ==> !occurs_at(y, checked_mark(), k),
{
    lemma_literal_facts(d);
    let c = checkbox_for(d);
    assert forall|k: int| ia <= k < ia + c.len() implies !occurs_at(y, checked_mark(), k) by {
        if occurs_at(y, checked_mark(), k) {
            let q = ia + c.len() - 1;
            if k + 4 < ia + c.len() {
                assert(y[k + 4] == y.subrange(k, k + 14)[4]);
                assert(y[k + 4] == c[k + 4 - ia]);
            } else {
                assert(y[q] == y.subrange(k, k + 14)[q - k]);
                assert(y[q] == c[c.len() - 1]);
            }
        }
    }
}

/// When no item mark comes before the rewritten checkbox, the first mark
/// after the rewrite is the first one after the old checkbox, shifted.
proof fn lemma_marks_after_rewrite(z: Seq<char>, ia: int, e: int, d: bool)
    requires
        find_from(z, checkbox_start(), 0) == Some(ia),
        find_from(z, seq!['>'], ia) == Some(e),
        forall|k: int| 0 <= k < ia ==> !occurs_at(z, checked_mark(), k),
    ensures
        find_from(retick_checkbox(z, 0, d), checked_mark(), 0) == (match find_from(
            z.subrange(e + 1, z.len() as int),
            checked_mark(),
            0,
        ) {
            Some(j) => Some(j + ia + checkbox_for(d).len()),
            None => None,
        }),
{
    let mark = checked_mark();
    lemma_checkbox_found(z, ia, e);
    lemma_rewritten(z, ia, e, d);
    let c = checkbox_for(d);
    let y = retick_checkbox(z, 0, d);
    let p = z.subrange(0, ia);
    let q = z.subrange(e + 1, z.len() as int);
    assert(y =~= (p + c) + q);
    assert(y.subrange(ia, ia + c.len()) =~= c);
    lemma_no_mark_in_checkbox(y, ia, d);
    assert(agree_below(z, y, ia + 22));
    assert forall|k: int| 0 <= k < ia implies !occurs_at(y, mark, k) by {
        assert forall|j: int| 0 <= j < 14 implies #[trigger] y.subrange(k, k + 14)[j] == z.subrange(
            k,
            k + 14,
        )[j] by {
            assert(y[k + j] == z[k + j]);
        }
        assert(y.subrange(k, k + 14) =~= z.subrange(k, k + 14));
        assert(!occurs_at(z, mark, k));
    }
    lemma_find_skip(y, mark, 0, ia + c.len());
    lemma_find_shift(p + c, q, mark, 0);
}

/// The scan of a rewritten stretch: the text before the checkbox, then the
/// checkbox tag, then what follows it.
proof fn lemma_words_around_tag(p: Seq<char>, t: Seq<char>, r: Seq<char>)
    requires
        t.len() > 1,
        t[0] == '<',
        t[t.len() - 1] == '>',
        forall|k: int| 0 <= k < t.len() - 1 ==> t[k] != '>',
    ensures
        words_from(p + t + r, true) == (words_from(p, true) || words_from(r, false)),
{
    lemma_words_concat(p + t, r, true);
    lemma_words_concat(p, t, true);
    lemma_tag_state_concat(p, t, true);
    lemma_closed_tag(t, tag_state(p, true));
}

proof fn lemma_keeps_words_mark_inside(z: Seq<char>, ia: int, e: int, n: int, d: bool)
    requires
        find_from(z, checkbox_start(), 0) == Some(ia),
        find_from(z, seq!['>'], ia) == Some(e),
        find_from(z, checked_mark(), 0) == Some(n),
        ia <= n <= e,
        words_ahead(z),
    ensures
        words_ahead(retick_checkbox(z, 0, d)),
{
    let mark = checked_mark();
    lemma_checkbox_found(z, ia, e);
    lemma_find_first(z, mark, 0);
    lemma_marks_after_rewrite(z, ia, e, d);
    lemma_literal_facts(d);
    let y = retick_checkbox(z, 0, d);
    let p = z.subrange(0, ia);
    let o = z.subrange(ia, n);
    assert(z.subrange(0, n) =~= p + o);
    lemma_words_concat(p, o, true);
    if o.len() > 0 {
        assert forall|k: int| 0 <= k < o.len() implies o[k] != '>' by {
            assert(o[k] == z[ia + k]);
        }
        lemma_open_tag(o, tag_state(p, true));
    } else {
        assert(o =~= Seq::<char>::empty());
    }
    assert(words_from(p, true));
    lemma_rewritten(z, ia, e, d);
    let ey = item_end(y);
    lemma_find_first(z.subrange(e + 1, z.len() as int), mark, 0);
    assert(ia <= ey <= y.len());
    assert(y.subrange(0, ey) =~= p + y.subrange(ia, ey));
    lemma_words_concat(p, y.subrange(ia, ey), true);
}

proof fn lemma_keeps_words_mark_after(z: Seq<char>, ia: int, e: int, d: bool)
    requires
        find_from(z, checkbox_start(), 0) == Some(ia),
        find_from(z, seq!['>'], ia) == Some(e),
        forall|k: int| 0 <= k < e + 1 ==> !occurs_at(z, checked_mark(), k),
        words_ahead(z),
    ensures
        words_ahead(retick_checkbox(z, 0, d)),
{
    let mark = checked_mark();
    lemma_checkbox_found(z, ia, e);
    lemma_rewritten(z, ia, e, d);
    lemma_marks_after_rewrite(z, ia, e, d);
    lemma_literal_facts(d);
    let c = checkbox_for(d);
    let y = retick_checkbox(z, 0, d);
    let p = z.subrange(0, ia);
    let t = z.subrange(ia, e + 1);
    let q = z.subrange(e + 1, z.len() as int);
    assert(z =~= (p + t) + q);
    lemma_find_skip(z, mark, 0, e + 1);
    lemma_find_shift(p + t, q, mark, 0);
    lemma_find_first(q, mark, 0);
    let r = q.subrange(0, item_end(q));
    assert(z.subrange(0, item_end(z)) =~= p + t + r);
    assert(y.subrange(0, item_end(y)) =~= p + c + r);
    assert forall|k: int| 0 <= k < t.len() - 1 implies t[k] != '>' by {
        assert(t[k] == z[ia + k]);
    }
    lemma_words_around_tag(p, t, r);
    lemma_words_around_tag(p, c, r);
}

/// Rewriting the checkbox after an item never takes the item's words away.
proof fn lemma_rewrite_keeps_words(z: Seq<char>, d: bool)
    requires
        words_ahead(z),
    ensures
        words_ahead(retick_checkbox(z, 0, d)),
{
    let mark = checked_mark();
    assert(z.subrange(0, z.len() as int) =~= z);
    match find_from(z, checkbox_start(), 0) {
        None => {},
        Some(ia) => match find_from(z, seq!['>'], ia) {
            None => {},
            Some(e) => {
                lemma_checkbox_found(z, ia, e);
                lemma_find_first(z, mark, 0);
                match find_from(z, mark, 0) {
                    Some(n) => {
                        if n < ia {
                            lemma_rewritten(z, ia, e, d);
                            let y = retick_checkbox(z, 0, d);
                            lemma_find_agree(z, y, mark, 0, n, ia + 22);
                            assert(y.subrange(0, n) =~= z.subrange(0, n));
                        } else if n <= e {
                            lemma_keeps_words_mark_inside(z, ia, e, n, d);
                        } else {
                            lemma_keeps_words_mark_after(z, ia, e, d);
                        }
                    },
                    None => {
                        lemma_keeps_words_mark_after(z, ia, e, d);
                    },
                }
            },
        },
    }
}

/// The item that a tick of `target` rewrites, walking from `pos` with `seen`
/// worded items passed: where its mark starts and where its value closes.
/// `None` when the walk runs out first.
pub open spec fn target_item(s: Seq<char>, pos: int, seen: nat, target: nat) -> Option<(int, int)>
    decreases s.len() - pos,
{
    if pos < 0 || pos > s.len() {
        None
    } else {
        match find_from(s, checked_mark(), pos) {
            None => None,
            Some(at) => match find_from(s, seq!['"'], at + 14) {
                None => None,
                Some(close) => if close + 1 <= pos || close + 1 > s.len() {
                    None
                } else if !item_has_words(s, close) {
                    target_item(s, close + 1, seen, target)
                } else if seen != target {
                    target_item(s, close + 1, seen + 1, target)
                } else {
                    Some((at, close))
                },
            },
        }
    }
}

/// What a tick writes: the text up to the chosen item's mark, the mark with
/// the new value, then the rest with the checkbox rewritten; or the text
/// unchanged when no item is chosen.
proof fn lemma_tick_shape(s: Seq<char>, pos: int, seen: nat, target: nat, d: bool)
    requires
        0 <= pos <= s.len(),
    ensures
        match target_item(s, pos, seen, target) {
            None => retick_html(s, pos, seen, target, d) == s.subrange(pos, s.len() as int),
            Some((at, close)) => {
                &&& pos <= at
                &&& at + 14 <= close < s.len()
                &&& occurs_at(s, checked_mark(), at)
                &&& find_from(s, seq!['"'], at + 14) == Some(close)
                &&& item_has_words(s, close)
                &&& retick_html(s, pos, seen, target, d) == s.subrange(pos, at) + checked_mark()
                    + checked_value(d) + seq!['"'] + retick_checkbox(s, close + 1, d)
            },
        },
    decreases s.len() - pos,
{
    lemma_find_from(s, checked_mark(), pos);
    match find_from(s, checked_mark(), pos) {
        None => {},
        Some(at) => {
            lemma_find_from(s, seq!['"'], at + 14);
            match find_from(s, seq!['"'], at + 14) {
                None => {},
                Some(close) => {
                    if close + 1 <= pos || close + 1 > s.len() {
                    } else if !item_has_words(s, close) || seen != target {
                        let next: nat = if !item_has_words(s, close) { seen } else { seen + 1 };
                        lemma_tick_shape(s, close + 1, next, target, d);
                        let head = s.subrange(pos, close + 1);
                        match target_item(s, close + 1, next, target) {
                            None => {
                                assert(head + s.subrange(close + 1, s.len() as int) =~= s.subrange(
                                    pos,
                                    s.len() as int,
                                ));
                            },
                            Some((at2, close2)) => {
                                assert(head + s.subrange(close + 1, at2) =~= s.subrange(pos, at2));
                                assert(head + (s.subrange(close + 1, at2) + checked_mark()
                                    + checked_value(d) + seq!['"'] + retick_checkbox(
                                    s,
                                    close2 + 1,
                                    d,
                                )) =~= s.subrange(pos, at2) + checked_mark() + checked_value(d)
                                    + seq!['"'] + retick_checkbox(s, close2 + 1, d));
                            },
                        }
                    } else {
                    }
                },
            }
        },
    }
}

/// A search from `i` stops at or before any occurrence after `i`.
proof fn lemma_find_before(s: Seq<char>, p: Seq<char>, i: int, j: int)
    requires
        0 <= i <= j,
        occurs_at(s, p, j),
    ensures
        find_from(s, p, i) matches Some(n) && i <= n <= j,
    decreases j - i,
{
    if i < j && !occurs_at(s, p, i) {
        lemma_find_before(s, p, i + 1, j);
    }
}

/// The checkbox rewrite after position `k` looks only at the text from `k`.
proof fn lemma_checkbox_shift(s: Seq<char>, k: int, d: bool)
    requires
        0 <= k <= s.len(),
    ensures
        retick_checkbox(s, k, d) == retick_checkbox(s.subrange(k, s.len() as int), 0, d),
{
    let a = s.subrange(0, k);
    let b = s.subrange(k, s.len() as int);
    assert(s =~= a + b);
    lemma_find_shift(a, b, checkbox_start(), 0);
    assert(b.subrange(0, b.len() as int) =~= b);
    match find_from(b, checkbox_start(), 0) {
        None => {},
        Some(ia) => {
            lemma_find_first(b, checkbox_start(), 0);
            lemma_find_shift(a, b, seq!['>'], ia);
            match find_from(b, seq!['>'], ia) {
                None => {},
                Some(e) => {
                    lemma_find_first(b, seq!['>'], ia);
                    assert(s.subrange(k, ia + k) =~= b.subrange(0, ia));
                    assert(s.subrange(e + k + 1, s.len() as int) =~= b.subrange(
                        e + 1,
                        b.len() as int,
                    ));
                },
            }
        },
    }
}

/// Whether an item holds words looks only at the text after its value.
proof fn lemma_item_words_shift(s: Seq<char>, close: int)
    requires
        0 <= close < s.len(),
    ensures
        item_has_words(s, close) == words_ahead(s.subrange(close + 1, s.len() as int)),
{
    let a = s.subrange(0, close + 1);
    let b = s.subrange(close + 1, s.len() as int);
    assert(s =~= a + b);
    lemma_find_shift(a, b, checked_mark(), 0);
    lemma_find_first(b, checked_mark(), 0);
    assert(s.subrange(close + 1, close + 1 + item_end(b)) =~= b.subrange(0, item_end(b)));
}

/// An item that ends before a mark at `at` holds words alike in two texts
/// that agree up to that mark.
proof fn lemma_item_words_agree(s: Seq<char>, s2: Seq<char>, close: int, at: int)
    requires
        0 <= close,
        close + 1 <= at,
        occurs_at(s, checked_mark(), at),
        agree_below(s, s2, at + 14),
    ensures
        item_has_words(s, close) == item_has_words(s2, close),
{
    lemma_find_before(s, checked_mark(), close + 1, at);
    let n = find_from(s, checked_mark(), close + 1)->0;
    lemma_find_agree(s, s2, checked_mark(), close + 1, n, at + 14);
    assert(s.subrange(close + 1, n) =~= s2.subrange(close + 1, n));
}

/// Two texts that agree up to the chosen item's mark, and in the second of
/// which that item's value closes at `close2` and the item holds words,
/// choose the same item.
proof fn lemma_walk_transfer(
    s: Seq<char>,
    s2: Seq<char>,
    pos: int,
    seen: nat,
    target: nat,
    at: int,
    close: int,
    close2: int,
)
    requires
        0 <= pos,
        target_item(s, pos, seen, target) == Some((at, close)),
        agree_below(s, s2, at + 14),
        find_from(s2, seq!['"'], at + 14) == Some(close2),
        close2 + 1 <= s2.len(),
        item_has_words(s2, close2),
    ensures
        target_item(s2, pos, seen, target) == Some((at, close2)),
    decreases s.len() - pos,
{
    lemma_tick_shape(s, pos, seen, target, true);
    lemma_find_from(s, checked_mark(), pos);
    lemma_find_from(s2, seq!['"'], at + 14);
    let ai = find_from(s, checked_mark(), pos)->0;
    lemma_find_from(s, seq!['"'], ai + 14);
    let ci = find_from(s, seq!['"'], ai + 14)->0;
    if item_has_words(s, ci) && seen == target {
        assert(ai == at && ci == close);
        lemma_find_agree(s, s2, checked_mark(), pos, ai, at + 14);
    } else {
        let next: nat = if !item_has_words(s, ci) { seen } else { seen + 1 };
        lemma_tick_shape(s, ci + 1, next, target, true);
        lemma_find_agree(s, s2, checked_mark(), pos, ai, at + 14);
        lemma_find_agree(s, s2, seq!['"'], ai + 14, ci, at + 14);
        lemma_item_words_agree(s, s2, ci, at);
        lemma_walk_transfer(s, s2, ci + 1, next, target, at, close, close2);
    }
}

/// The item chosen for `target` is already written in the state `done`: its
/// value reads as `done` and its checkbox has the shape written for `done`.
/// Holds trivially when no item is chosen.
pub open spec fn written_as(s: Seq<char>, target: nat, done: bool) -> bool {
    match target_item(s, 0, 0, target) {
        None => true,
        Some((at, close)) => {
            &&& s.subrange(at + 14, close) == checked_value(done)
            &&& retick_checkbox(s, close + 1, done) == s.subrange(close + 1, s.len() as int)
        },
    }
}

/// The later of two ticks of the same item wins: ticking it to `a` and then
/// to `b` writes the HTML that ticking it to `b` alone writes. So a tick
/// undone by an untick is an untick, and repeating a tick changes nothing.
pub proof fn law_a_later_tick_wins(s: Seq<char>, target: nat, a: bool, b: bool)
    ensures
        retick_html(retick_html(s, 0, 0, target, a), 0, 0, target, b) == retick_html(
            s,
            0,
            0,
            target,
            b,
        ),
{
    lemma_tick_shape(s, 0, 0, target, a);
    lemma_tick_shape(s, 0, 0, target, b);
    match target_item(s, 0, 0, target) {
        None => {
            assert(s.subrange(0, s.len() as int) =~= s);
        },
        Some((at, close)) => {
            lemma_literal_facts(a);
            let z = s.subrange(close + 1, s.len() as int);
            lemma_checkbox_shift(s, close + 1, a);
            lemma_checkbox_shift(s, close + 1, b);
            let y = retick_checkbox(z, 0, a);
            let head = s.subrange(0, at) + checked_mark() + checked_value(a) + seq!['"'];
            let s1 = head + y;
            assert(s1 == retick_html(s, 0, 0, target, a));
            let close1 = at + 14 + checked_value(a).len();
            assert(head.len() == close1 + 1);
            assert forall|k: int| 0 <= k < at + 14 implies s[k] == s1[k] by {
                if k >= at {
                    assert(s[k] == s.subrange(at, at + 14)[k - at]);
                }
            }
            assert forall|k: int| at + 14 <= k < close1 implies !occurs_at(s1, seq!['"'], k) by {
                lemma_occurs_char(s1, '"', k);
                assert(s1[k] == checked_value(a)[k - at - 14]);
            }
            lemma_occurs_char(s1, '"', close1);
            lemma_find_is(s1, seq!['"'], at + 14, close1);
            assert(s1.subrange(close1 + 1, s1.len() as int) =~= y);
            lemma_item_words_shift(s, close);
            lemma_item_words_shift(s1, close1);
            lemma_rewrite_keeps_words(z, a);
            lemma_walk_transfer(s, s1, 0, 0, target, at, close, close1);
            lemma_tick_shape(s1, 0, 0, target, b);
            lemma_checkbox_shift(s1, close1 + 1, b);
            lemma_rewrite_twice(z, a, b);
            assert(s1.subrange(0, at) =~= s.subrange(0, at));
        },
    }
}

/// A tick that asks for the state an item is already written in changes
/// nothing.
pub proof fn law_a_tick_in_place_changes_nothing(s: Seq<char>, target: nat, done: bool)
    requires
        written_as(s, target, done),
    ensures
        retick_html(s, 0, 0, target, done) == s,
{
    lemma_tick_shape(s, 0, 0, target, done);
    match target_item(s, 0, 0, target) {
        None => {
            assert(s.subrange(0, s.len() as int) =~= s);
        },
        Some((at, close)) => {
            lemma_find_from(s, seq!['"'], at + 14);
            assert(s.subrange(at, at + 14) == checked_mark());
            assert(s.subrange(close, close + 1) =~= seq!['"']);
            assert(s =~= s.subrange(0, at) + s.subrange(at, at + 14) + s.subrange(at + 14, close)
                + s.subrange(close, close + 1) + s.subrange(close + 1, s.len() as int));
        },
    }
}

/// Unticking a ticked item gives back the HTML as it was before the tick,
/// checkbox and `data-checked` value alike, when the item was written
/// unticked to begin with.
pub proof fn law_unticking_restores_the_html(s: Seq<char>, target: nat)
    requires
        written_as(s, target, false),
    ensures
        retick_html(retick_html(s, 0, 0, target, true), 0, 0, target, false) == s,
{
    law_a_later_tick_wins(s, target, true, false);
    law_a_tick_in_place_changes_nothing(s, target, false);
}

} // verus!
