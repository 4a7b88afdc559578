//! The canvas: pointers between cards, topics placed inside topics, links,
//! loose text, and the document assembled from frames.

use vstd::prelude::*;

use crate::domain::{is_uuid_text, new_id, spec_content_hash, CanvasEdge, CanvasNodeKind, Note, NoteKind};
use crate::order::{in_order, insert_in_order, Ranked};
use crate::repo::notes::{create, save_body};
use crate::error::{invalid, is_invalid, AppError};
use crate::text::{
    chars_of, contains, contains_chars, list_holds, occurs_at, push_range, string_of, string_views, trim,
    trim_chars, trim_spaces,
};

verus! {

/// The topic nodes of every board, as edges: `(a, b)` says board `b` is
/// placed on board `a`.
pub open spec fn nest_views(edges: Seq<(String, String)>) -> Seq<(Seq<char>, Seq<char>)> {
    edges.map_values(|e: (String, String)| (e.0@, e.1@))
}

/// Board `v` is reached from board `u` by descending exactly `n` topic nodes.
pub open spec fn reach_n(g: Seq<(Seq<char>, Seq<char>)>, u: Seq<char>, v: Seq<char>, n: nat) -> bool
    decreases n,
{
    if n == 0 {
        u == v
    } else {
        exists|w: Seq<char>| #[trigger] g.contains((u, w)) && reach_n(g, w, v, (n - 1) as nat)
    }
}

/// Board `v` is reached from board `u` by descending topic nodes (possibly
/// none: every board reaches itself).
pub open spec fn reaches(g: Seq<(Seq<char>, Seq<char>)>, u: Seq<char>, v: Seq<char>) -> bool {
    exists|n: nat| reach_n(g, u, v, n)
}

/// No board contains itself, however deep the nesting.
pub open spec fn acyclic(g: Seq<(Seq<char>, Seq<char>)>) -> bool {
    forall|x: Seq<char>, n: nat| n >= 1 ==> !#[trigger] reach_n(g, x, x, n)
}

/// One more step at the end of a descent.
proof fn lemma_reach_extend(
    g: Seq<(Seq<char>, Seq<char>)>,
    u: Seq<char>,
    w: Seq<char>,
    v: Seq<char>,
    n: nat,
)
    requires
        reach_n(g, u, w, n),
        g.contains((w, v)),
    ensures
        reach_n(g, u, v, n + 1),
    decreases n,
{
    if n == 0 {
        assert(reach_n(g, v, v, 0));
        assert(g.contains((u, v)) && reach_n(g, v, v, 0));
    } else {
        let x = choose|x: Seq<char>| #[trigger] g.contains((u, x)) && reach_n(g, x, w, (n - 1) as nat);
        lemma_reach_extend(g, x, w, v, (n - 1) as nat);
        assert(g.contains((u, x)) && reach_n(g, x, v, n));
    }
}

/// Two descents one after the other are one descent.
proof fn lemma_reach_concat(
    g: Seq<(Seq<char>, Seq<char>)>,
    u: Seq<char>,
    w: Seq<char>,
    v: Seq<char>,
    a: nat,
    b: nat,
)
    requires
        reach_n(g, u, w, a),
        reach_n(g, w, v, b),
    ensures
        reach_n(g, u, v, a + b),
    decreases a,
{
    if a > 0 {
        let x = choose|x: Seq<char>| #[trigger] g.contains((u, x)) && reach_n(g, x, w, (a - 1) as nat);
        lemma_reach_concat(g, x, w, v, (a - 1) as nat, b);
        assert(g.contains((u, x)) && reach_n(g, x, v, (a - 1 + b) as nat));
    }
}

/// A set of boards closed under descent holds everything reached from it.
proof fn lemma_closed_holds_reached(
    g: Seq<(Seq<char>, Seq<char>)>,
    r: Seq<Seq<char>>,
    u: Seq<char>,
    v: Seq<char>,
    n: nat,
)
    requires
        forall|a: Seq<char>, b: Seq<char>| r.contains(a) && #[trigger] g.contains((a, b)) ==> r.contains(b),
        r.contains(u),
        reach_n(g, u, v, n),
    ensures
        r.contains(v),
    decreases n,
{
    if n > 0 {
        let x = choose|x: Seq<char>| #[trigger] g.contains((u, x)) && reach_n(g, x, v, (n - 1) as nat);
        lemma_closed_holds_reached(g, r, x, v, (n - 1) as nat);
    }
}

/// How many entries of `s` are still unvisited.
spec fn count_unused(s: Seq<bool>) -> nat
    decreases s.len(),
{
    if s.len() == 0 {
        0
    } else {
        count_unused(s.drop_last()) + if s.last() { 0nat } else { 1nat }
    }
}

/// Visiting an unvisited entry leaves fewer unvisited.
proof fn lemma_count_unused_update(s: Seq<bool>, e: int)
    requires
        0 <= e < s.len(),
        !s[e],
    ensures
        count_unused(s.update(e, true)) < count_unused(s),
    decreases s.len(),
{
    let t = s.update(e, true);
    if e == s.len() - 1 {
        assert(t.drop_last() =~= s.drop_last());
    } else {
        lemma_count_unused_update(s.drop_last(), e);
        assert(t.drop_last() =~= s.drop_last().update(e, true));
    }
}

/// Whether board `to` is reached from board `from` by descending topic nodes.
pub fn reaches_exec(edges: &Vec<(String, String)>, from: &String, to: &String) -> (res: bool)
    ensures
        res == reaches(nest_views(edges@), from@, to@),
{
    let ghost g = nest_views(edges@);
    let n = edges.len();
    let mut reached: Vec<String> = Vec::new();
    reached.push(from.clone());
    let mut used: Vec<bool> = Vec::new();
    let mut k: usize = 0;
    while k < n
        invariant
            k <= n == edges@.len(),
            used@.len() == k,
            forall|e: int| 0 <= e < k ==> !used@[e],
        decreases n - k,
    {
        used.push(false);
        k = k + 1;
    }
    proof {
        assert(reach_n(g, from@, from@, 0));
        assert(string_views(reached@)[0] == from@);
        assert forall|x: Seq<char>| #[trigger] string_views(reached@).contains(x) implies reaches(
            g,
            from@,
            x,
        ) by {
            assert(string_views(reached@) =~= seq![from@]);
            assert(reach_n(g, from@, x, 0));
        }
    }
    loop
        invariant
            g == nest_views(edges@),
            n == edges@.len() == used@.len(),
            string_views(reached@).contains(from@),
            forall|x: Seq<char>| #[trigger] string_views(reached@).contains(x) ==> reaches(g, from@, x),
            forall|e: int|
                0 <= e < n && #[trigger] used@[e] ==> string_views(reached@).contains(g[e].1),
        decreases count_unused(used@),
    {
        let mut e: usize = 0;
        let mut found = false;
        while e < n && !found
            invariant
                n == edges@.len() == used@.len(),
                e <= n,
                g == nest_views(edges@),
                found ==> e < n && !used@[e as int] && string_views(reached@).contains(g[e as int].0),
                !found ==> forall|d: int|
                    0 <= d < e ==> #[trigger] used@[d] || !string_views(reached@).contains(g[d].0),
            decreases n - e + (if found { 0int } else { 1int }),
        {
            if !used[e] && list_holds(&reached, &edges[e].0) {
                found = true;
            } else {
                e = e + 1;
            }
        }
        if !found {
            proof {
                let r = string_views(reached@);
                assert forall|a: Seq<char>, b: Seq<char>| r.contains(a) && #[trigger] g.contains((a, b)) implies r.contains(
                    b,
                ) by {
                    let d = choose|d: int| 0 <= d < g.len() && g[d] == (a, b);
                    assert(used@[d] || !r.contains(g[d].0));
                }
                if reaches(g, from@, to@) {
                    let m = choose|m: nat| reach_n(g, from@, to@, m);
                    lemma_closed_holds_reached(g, r, from@, to@, m);
                }
            }
            return list_holds(&reached, to);
        }
        let ghost before = string_views(reached@);
        let ghost before_used = used@;
        let ghost dst = g[e as int].1;
        proof {
            let src = g[e as int].0;
            assert(reaches(g, from@, src));
            let m = choose|m: nat| reach_n(g, from@, src, m);
            assert(g.contains((src, dst))) by {
                assert(g[e as int] == (src, dst));
            }
            lemma_reach_extend(g, from@, src, dst, m);
            assert(reaches(g, from@, dst));
        }
        used.set(e, true);
        if !list_holds(&reached, &edges[e].1) {
            reached.push(edges[e].1.clone());
            proof {
                assert(string_views(reached@) =~= before.push(dst));
            }
        }
        proof {
            let now_r = string_views(reached@);
            assert(now_r == before || now_r == before.push(dst));
            assert forall|x: Seq<char>| before.contains(x) implies #[trigger] now_r.contains(x) by {
                let c = choose|c: int| 0 <= c < before.len() && before[c] == x;
                assert(now_r[c] == x);
            }
            assert(now_r.contains(dst)) by {
                if now_r != before {
                    assert(now_r[before.len() as int] == dst);
                }
            }
            assert forall|x: Seq<char>| #[trigger] now_r.contains(x) implies reaches(g, from@, x) by {
                if !before.contains(x) {
                    let c = choose|c: int| 0 <= c < now_r.len() && now_r[c] == x;
                    assert(c == before.len());
                }
            }
            assert forall|d: int| 0 <= d < n && #[trigger] used@[d] implies now_r.contains(g[d].1) by {
                if d != e {
                    assert(before_used[d]);
                    assert(before.contains(g[d].1));
                }
            }
            assert(used@ =~= before_used.update(e as int, true));
            lemma_count_unused_update(before_used, e as int);
        }
    }
}

/// Every descent after one more topic node is placed either already existed,
/// or passes through the new placement.
proof fn lemma_reach_after_placing(
    g: Seq<(Seq<char>, Seq<char>)>,
    u: Seq<char>,
    v: Seq<char>,
    a: Seq<char>,
    b: Seq<char>,
    n: nat,
)
    requires
        reach_n(g.push((u, v)), a, b, n),
    ensures
        reach_n(g, a, b, n) || (reaches(g, a, u) && reaches(g, v, b)),
    decreases n,
{
    let h = g.push((u, v));
    if n > 0 {
        let w = choose|w: Seq<char>| #[trigger] h.contains((a, w)) && reach_n(h, w, b, (n - 1) as nat);
        lemma_reach_after_placing(g, u, v, w, b, (n - 1) as nat);
        let d = choose|d: int| 0 <= d < h.len() && h[d] == (a, w);
        if d < g.len() {
            assert(g[d] == (a, w));
            assert(g.contains((a, w)));
            if reach_n(g, w, b, (n - 1) as nat) {
                assert(reach_n(g, a, b, n));
            } else {
                let i = choose|i: nat| reach_n(g, w, u, i);
                lemma_reach_extend(g, a, a, w, 0);
                lemma_reach_concat(g, a, w, u, 1, i);
                assert(reach_n(g, a, u, 1 + i));
            }
        } else {
            assert(a == u && w == v);
            assert(reach_n(g, a, u, 0));
            if reach_n(g, w, b, (n - 1) as nat) {
                assert(reaches(g, v, b));
            }
        }
    }
}

/// Placing topic `v` on board `u` keeps the nesting free of cycles whenever
/// `u` is not already reached from `v`: the check that placing a topic node
/// makes is enough for no board ever to contain itself.
pub proof fn law_placing_a_topic_keeps_nesting_acyclic(
    g: Seq<(Seq<char>, Seq<char>)>,
    u: Seq<char>,
    v: Seq<char>,
)
    requires
        acyclic(g),
        !reaches(g, v, u),
    ensures
        acyclic(g.push((u, v))),
{
    let h = g.push((u, v));
    assert forall|x: Seq<char>, n: nat| n >= 1 implies !#[trigger] reach_n(h, x, x, n) by {
        if reach_n(h, x, x, n) {
            lemma_reach_after_placing(g, u, v, x, x, n);
            if !reach_n(g, x, x, n) {
                let i = choose|i: nat| reach_n(g, x, u, i);
                let j = choose|j: nat| reach_n(g, v, x, j);
                lemma_reach_concat(g, v, x, u, j, i);
                assert(reaches(g, v, u));
            }
        }
    }
}

/// The refusal, if any, of placing topic `target` on board `topic`, given
/// every topic node already placed: a topic cannot contain itself, and
/// nesting may never close a loop.
pub fn check_topic_node(topic_id: &String, target_topic_id: &String, nesting: &Vec<(String, String)>) -> (res: Result<(), AppError>)
    ensures
        topic_id@ == target_topic_id@ ==> (res matches Err(e) && is_invalid(
            e,
            "a topic cannot contain itself"@,
        )),
        topic_id@ != target_topic_id@ && reaches(nest_views(nesting@), target_topic_id@, topic_id@)
            ==> (res matches Err(e) && is_invalid(
            e,
            "that would nest these topics inside each other"@,
        )),
        topic_id@ != target_topic_id@ && !reaches(nest_views(nesting@), target_topic_id@, topic_id@)
            ==> res is Ok,
{
    if *topic_id == *target_topic_id {
        return Err(invalid("a topic cannot contain itself"));
    }
    if reaches_exec(nesting, target_topic_id, topic_id) {
        return Err(invalid("that would nest these topics inside each other"));
    }
    Ok(())
}

/// A drawn pointer from `source` to `target`, given the boards the two nodes
/// that were found stand on and the pointer already drawn between them, if
/// any. Drawing the same arrow twice gives back the first one.
pub fn connect(
    id: Option<String>,
    source_id: &str,
    target_id: &str,
    boards: &Vec<String>,
    existing: Option<CanvasEdge>,
    now: i128,
) -> (res: Result<CanvasEdge, AppError>)
    ensures
        source_id@ == target_id@ ==> (res matches Err(e) && is_invalid(
            e,
            "a card cannot point at itself"@,
        )),
        source_id@ != target_id@ && boards@.len() != 2 ==> (res matches Err(e) && is_invalid(
            e,
            "both ends must be on the board"@,
        )),
        source_id@ != target_id@ && boards@.len() == 2 && boards@[0]@ != boards@[1]@ ==> (res matches Err(
            e,
        ) && is_invalid(e, "a pointer cannot span two boards"@)),
        source_id@ != target_id@ && boards@.len() == 2 && boards@[0]@ == boards@[1]@ ==> (match existing {
            Some(edge) => res == Ok::<CanvasEdge, AppError>(edge),
            None => res matches Ok(edge) && {
                &&& (id matches Some(given) ==> edge.id == given)
                &&& (id is None ==> is_uuid_text(edge.id@))
                &&& edge.topic_id@ == boards@[0]@
                &&& edge.source_id@ == source_id@
                &&& edge.target_id@ == target_id@
                &&& edge.label@ == Seq::<char>::empty()
                &&& edge.created_at == now
            },
        }),
{
    let source = source_id.to_owned();
    let target = target_id.to_owned();
    if source == target {
        return Err(invalid("a card cannot point at itself"));
    }
    if boards.len() != 2 {
        return Err(invalid("both ends must be on the board"));
    }
    if boards[0] != boards[1] {
        return Err(invalid("a pointer cannot span two boards"));
    }
    match existing {
        Some(edge) => Ok(edge),
        None => {
            let id = match id {
                Some(given) => given,
                None => new_id(),
            };
            proof {
                reveal_strlit("");
            }
            Ok(CanvasEdge {
                id,
                topic_id: boards[0].clone(),
                source_id: source,
                target_id: target,
                label: String::new(),
                created_at: now,
            })
        }
    }
}

/// Only images and PDFs are placed from an imported file.
pub fn check_asset_node(kind: CanvasNodeKind) -> (res: Result<(), AppError>)
    ensures
        (kind == CanvasNodeKind::Image || kind == CanvasNodeKind::Pdf) ==> res is Ok,
        !(kind == CanvasNodeKind::Image || kind == CanvasNodeKind::Pdf) ==> (res matches Err(e)
            && is_invalid(e, "asset nodes must be image or pdf"@)),
{
    match kind {
        CanvasNodeKind::Image | CanvasNodeKind::Pdf => Ok(()),
        _ => Err(invalid("asset nodes must be image or pdf")),
    }
}

/// The scheme put in front of an address typed without one.
pub open spec fn https_prefix() -> Seq<char> {
    seq!['h', 't', 't', 'p', 's', ':', '/', '/']
}

/// What separates a scheme from the rest of an address.
pub open spec fn scheme_mark() -> Seq<char> {
    seq![':', '/', '/']
}

/// The address a link node stores for what was typed: trimmed, and taken to
/// mean the web when it names no scheme.
pub open spec fn link_address_of(typed: Seq<char>) -> Seq<char> {
    let t = trim(typed);
    if contains(t, scheme_mark()) {
        t
    } else {
        https_prefix() + t
    }
}

/// The address for a link node, or the refusal of an empty one.
pub fn link_address(url: &str) -> (res: Result<String, AppError>)
    ensures
        trim(url@).len() == 0 ==> (res matches Err(e) && is_invalid(e, "a link needs an address"@)),
        trim(url@).len() != 0 ==> (res matches Ok(a) && a@ == link_address_of(url@)),
{
    let chars = chars_of(url);
    let t = trim_chars(&chars);
    if t.len() == 0 {
        return Err(invalid("a link needs an address"));
    }
    let mark = vec![':', '/', '/'];
    assert(mark@ == scheme_mark());
    if contains_chars(&t, &mark) {
        Ok(string_of(&t))
    } else {
        let mut out = vec!['h', 't', 't', 'p', 's', ':', '/', '/'];
        assert(out@ == https_prefix());
        let n = t.len();
        push_range(&mut out, &t, 0, n);
        assert(t@.subrange(0, n as int) =~= t@);
        Ok(string_of(&out))
    }
}

/// One character as it stands in markup.
pub open spec fn escape_char(c: char) -> Seq<char> {
    if c == '&' {
        seq!['&', 'a', 'm', 'p', ';']
    } else if c == '<' {
        seq!['&', 'l', 't', ';']
    } else if c == '>' {
        seq!['&', 'g', 't', ';']
    } else {
        seq![c]
    }
}

/// Plain text as it stands in markup: `&`, `<` and `>` escaped, nothing else.
pub open spec fn escape_html(s: Seq<char>) -> Seq<char>
    decreases s.len(),
{
    if s.len() == 0 {
        Seq::empty()
    } else {
        escape_html(s.drop_last()) + escape_char(s.last())
    }
}

/// Minimal, and enough: the body is plain text taken from a textarea, so the
/// only characters that can break the markup are these three.
pub fn html_escape(s: &str) -> (res: String)
    ensures
        res@ == escape_html(s@),
{
    let chars = chars_of(s);
    let mut out: Vec<char> = Vec::new();
    let mut i: usize = 0;
    while i < chars.len()
        invariant
            i <= chars@.len(),
            out@ == escape_html(chars@.take(i as int)),
        decreases chars@.len() - i,
    {
        let c = chars[i];
        if c == '&' {
            out.push('&');
            out.push('a');
            out.push('m');
            out.push('p');
            out.push(';');
        } else if c == '<' {
            out.push('&');
            out.push('l');
            out.push('t');
            out.push(';');
        } else if c == '>' {
            out.push('&');
            out.push('g');
            out.push('t');
            out.push(';');
        } else {
            out.push(c);
        }
        proof {
            assert(chars@.take(i + 1).drop_last() =~= chars@.take(i as int));
        }
        i = i + 1;
    }
    assert(chars@.take(chars@.len() as int) =~= chars@);
    string_of(&out)
}

/// The markup a promoted note's body is given: one paragraph of the text.
pub open spec fn paragraph_of(text: Seq<char>) -> Seq<char> {
    seq!['<', 'p', '>'] + escape_html(text) + seq!['<', '/', 'p', '>']
}

/// Loose text made a note: the text, trimmed, becomes the body of a fresh
/// untitled long note (titling it is a separate act), saved at `now`. The id
/// is the one given, or a fresh one.
pub fn promote_text(text: &str, id: Option<String>, now: i128) -> (res: Note)
    ensures
        id matches Some(given) ==> res.id == given,
        id is None ==> is_uuid_text(res.id@),
        res.kind == NoteKind::Long,
        res.title@ == Seq::<char>::empty(),
        res.summary@ == Seq::<char>::empty(),
        res.body_json@ == seq!['{', '}'],
        res.body_html@ == paragraph_of(trim(text@)),
        res.body_text@ == trim(text@),
        res.content_hash@ == spec_content_hash(trim(text@)),
        res.distilled_at == if trim_spaces(trim(text@)).len() != 0 {
            Some(now)
        } else {
            None
        },
        res.content_edited_at == Some(now),
        res.last_recall_at is None,
        res.last_checked_at is None,
        res.last_recall_failed_at is None,
        res.content_hash_at_recall is None,
        res.source_note_id is None,
        res.journal_day is None,
        res.created_at == now,
        res.updated_at == now,
{
    let note = create(id, "", NoteKind::Long, now);
    let chars = chars_of(text);
    let body = trim_chars(&chars);
    let body_text = string_of(&body);
    let escaped = html_escape(body_text.as_str());
    let escaped_chars = chars_of(escaped.as_str());
    let mut html = vec!['<', 'p', '>'];
    let n = escaped_chars.len();
    push_range(&mut html, &escaped_chars, 0, n);
    html.push('<');
    html.push('/');
    html.push('p');
    html.push('>');
    proof {
        assert(escaped_chars@.subrange(0, n as int) =~= escaped_chars@);
        assert(html@ =~= paragraph_of(trim(text@)));
        reveal_strlit("");
        reveal_strlit("{}");
    }
    let body_html = string_of(&html);
    save_body(note, "", "", "{}", body_html.as_str(), body_text.as_str(), now)
}

/// A note placed in a frame, with what orders it there.
pub struct Placement {
    pub note: Note,
    /// Its slot in the frame; a node never given one sits in slot 0.
    pub order_in_frame: Option<i64>,
    /// When the node was placed.
    pub placed_at: i128,
}

/// The slot a placement sorts by.
pub open spec fn slot(p: Placement) -> int {
    match p.order_in_frame {
        Some(o) => o as int,
        None => 0,
    }
}

/// `p` may stand before `q` in a frame's part of the document: a lower slot
/// first, and within a slot the earlier placement.
pub open spec fn goes_before(p: Placement, q: Placement) -> bool {
    slot(p) < slot(q) || (slot(p) == slot(q) && p.placed_at <= q.placed_at)
}

/// The placements whose note has a worked body, in their order.
pub open spec fn distilled_placements(s: Seq<Placement>) -> Seq<Placement>
    decreases s.len(),
{
    if s.len() == 0 {
        Seq::empty()
    } else if s.last().note.distilled_at is Some {
        distilled_placements(s.drop_last()).push(s.last())
    } else {
        distilled_placements(s.drop_last())
    }
}

/// The notes of some placements.
pub open spec fn notes_of(s: Seq<Placement>) -> Seq<Note> {
    s.map_values(|p: Placement| p.note)
}

impl Ranked for Placement {
    open spec fn precedes(self, other: Self) -> bool {
        goes_before(self, other)
    }

    proof fn precedes_total(a: Self, b: Self) {
    }

    proof fn precedes_transitive(a: Self, b: Self, c: Self) {
    }

    fn may_precede(&self, other: &Self) -> (res: bool) {
        let a: i64 = match self.order_in_frame {
            Some(o) => o,
            None => 0,
        };
        let b: i64 = match other.order_in_frame {
            Some(o) => o,
            None => 0,
        };
        a < b || (a == b && self.placed_at <= other.placed_at)
    }
}

/// One frame's part of the document, from the notes placed in it.
///
/// Order comes from the slot in the frame and then from when each node was
/// placed, never from coordinates. A raw note has no worked body, so it
/// never enters a document even when it sits inside a frame.
pub fn frame_notes(placements: Vec<Placement>) -> (res: Vec<Note>)
    ensures
        exists|order: Seq<Placement>|
            {
                &&& #[trigger] order.to_multiset() == distilled_placements(placements@).to_multiset()
                &&& in_order(order)
                &&& res@ == notes_of(order)
            },
        forall|i: int| 0 <= i < res@.len() ==> (#[trigger] res@[i]).distilled_at is Some,
{
    let ghost input = placements@;
    let mut out: Vec<Placement> = Vec::new();
    for p in it: placements.into_iter()
        invariant
            it.seq() == input,
            in_order(out@),
            out@.to_multiset() == distilled_placements(input.take(it.index() as int)).to_multiset(),
            forall|k: int| 0 <= k < out@.len() ==> (#[trigger] out@[k]).note.distilled_at is Some,
    {
        let ghost i = it.index() as int;
        proof {
            assert(input.take(i + 1).drop_last() =~= input.take(i));
            assert(input.take(i + 1).last() == p);
        }
        if p.note.distilled_at.is_some() {
            let ghost before = out@;
            insert_in_order(&mut out, p);
            proof {
                vstd::seq_lib::to_multiset_build(distilled_placements(input.take(i)), p);
                assert forall|k: int| 0 <= k < out@.len() implies (#[trigger] out@[k]).note.distilled_at is Some by {
                    vstd::seq_lib::to_multiset_contains(out@, out@[k]);
                    vstd::seq_lib::to_multiset_contains(before, out@[k]);
                    if out@[k] != p {
                        assert(before.contains(out@[k]));
                    }
                }
            }
        }
    }
    proof {
        assert(input.take(input.len() as int) =~= input);
    }
    let ghost order = out@;
    let mut notes: Vec<Note> = Vec::new();
    for p in it: out.into_iter()
        invariant
            it.seq() == order,
            notes@ == notes_of(order.take(it.index() as int)),
            forall|k: int| 0 <= k < order.len() ==> (#[trigger] order[k]).note.distilled_at is Some,
    {
        proof {
            assert(notes_of(order.take(it.index() + 1)) =~= notes_of(order.take(it.index() as int)).push(p.note));
        }
        notes.push(p.note);
    }
    proof {
        assert(order.take(order.len() as int) =~= order);
        assert(order.to_multiset() == distilled_placements(placements@).to_multiset());
    }
    notes
}

/// The order slot a new frame takes on a board whose frames hold these slots:
/// one past the highest, or the first slot on an empty board. There is none
/// past the largest slot a 64-bit integer holds.
pub fn next_frame_order(orders: &Vec<i64>) -> (res: Option<i64>)
    ensures
        orders@.len() == 0 ==> res == Some(0i64),
        orders@.len() > 0 ==> (forall|k: int| 0 <= k < orders@.len() ==> orders@[k] < i64::MAX)
            ==> (res matches Some(next) && (exists|k: int| 0 <= k < orders@.len() && next == orders@[k] + 1)
            && (forall|k: int| 0 <= k < orders@.len() ==> orders@[k] < next)),
        orders@.len() > 0 ==> (exists|k: int| 0 <= k < orders@.len() && orders@[k] == i64::MAX)
            ==> res is None,
{
    let mut best: i64 = -1;
    let mut i: usize = 0;
    while i < orders.len()
        invariant
            i <= orders@.len(),
            i == 0 ==> best == -1,
            i > 0 ==> exists|k: int| 0 <= k < i && best == orders@[k],
            forall|k: int| 0 <= k < i ==> orders@[k] <= best,
        decreases orders@.len() - i,
    {
        if i == 0 || orders[i] > best {
            best = orders[i];
        }
        i = i + 1;
    }
    if best == i64::MAX {
        None
    } else {
        Some(best + 1)
    }
}

/// An address that already names a scheme, `://` anywhere in its trimmed
/// text, is stored as typed, trimmed and nothing more, so `https://…` and
/// `ftp://…` are never prefixed again; only an address with no `://` is taken
/// to be on the web and gets `https://` in front.
pub proof fn law_a_scheme_is_never_added_twice(typed: Seq<char>, at: int)
    ensures
        occurs_at(trim(typed), seq![':', '/', '/'], at) ==> link_address_of(typed) == trim(typed),
        !contains(trim(typed), seq![':', '/', '/']) ==> link_address_of(typed) == seq![
            'h',
            't',
            't',
            'p',
            's',
            ':',
            '/',
            '/',
        ] + trim(typed),
{
    if occurs_at(trim(typed), seq![':', '/', '/'], at) {
        assert(contains(trim(typed), scheme_mark()));
    }
}

} // verus!
