//! A note's body as the editor stores it: a JSON document of nested nodes.
//!
//! The library holds the document as its own value, [`Json`], read from and
//! written back to text by the caller. Contracts speak of its view,
//! [`JsonView`], where arrays and objects are sequences.

use vstd::prelude::*;

use crate::text::{chars_of, push_range, string_of, trim_chars};

verus! {

/// A JSON value. Numbers keep the text they are written with; an object keeps
/// its members in order, each key once.
#[derive(Debug)]
pub enum Json {
    Null,
    Bool(bool),
    Number(String),
    Str(String),
    Array(Vec<Json>),
    Object(Vec<(String, Json)>),
}

/// A JSON value, as a mathematical object.
pub enum JsonView {
    Null,
    Bool(bool),
    Number(Seq<char>),
    Str(Seq<char>),
    Array(Seq<JsonView>),
    Object(Seq<(Seq<char>, JsonView)>),
}

/// The view of a value.
pub open spec fn jv(j: Json) -> JsonView
    decreases j,
{
    match j {
        Json::Null => JsonView::Null,
        Json::Bool(b) => JsonView::Bool(b),
        Json::Number(n) => JsonView::Number(n@),
        Json::Str(s) => JsonView::Str(s@),
        Json::Array(items) => JsonView::Array(jv_list(items@)),
        Json::Object(members) => JsonView::Object(jv_members(members@)),
    }
}

/// The views of a list of values.
pub open spec fn jv_list(s: Seq<Json>) -> Seq<JsonView>
    decreases s,
{
    if s.len() == 0 {
        Seq::empty()
    } else {
        jv_list(s.drop_last()).push(jv(s.last()))
    }
}

/// The views of a list of members.
pub open spec fn jv_members(s: Seq<(String, Json)>) -> Seq<(Seq<char>, JsonView)>
    decreases s,
{
    if s.len() == 0 {
        Seq::empty()
    } else {
        jv_members(s.drop_last()).push((s.last().0@, jv(s.last().1)))
    }
}

pub proof fn lemma_jv_list(s: Seq<Json>)
    ensures
        jv_list(s).len() == s.len(),
        forall|i: int| 0 <= i < s.len() ==> #[trigger] jv_list(s)[i] == jv(s[i]),
    decreases s.len(),
{
    if s.len() > 0 {
        lemma_jv_list(s.drop_last());
        assert forall|i: int| 0 <= i < s.len() implies #[trigger] jv_list(s)[i] == jv(s[i]) by {
            if i < s.len() - 1 {
                assert(jv_list(s)[i] == jv_list(s.drop_last())[i]);
            }
        }
    }
}

pub proof fn lemma_jv_members(s: Seq<(String, Json)>)
    ensures
        jv_members(s).len() == s.len(),
        forall|i: int|
            0 <= i < s.len() ==> #[trigger] jv_members(s)[i] == (s[i].0@, jv(s[i].1)),
    decreases s.len(),
{
    if s.len() > 0 {
        lemma_jv_members(s.drop_last());
        assert forall|i: int| 0 <= i < s.len() implies #[trigger] jv_members(s)[i] == (
            s[i].0@,
            jv(s[i].1),
        ) by {
            if i < s.len() - 1 {
                assert(jv_members(s)[i] == jv_members(s.drop_last())[i]);
            }
        }
    }
}

/// The index of the first member under `key`, looking from `i` on.
pub open spec fn key_at(members: Seq<(Seq<char>, JsonView)>, key: Seq<char>, i: int) -> Option<int>
    decreases members.len() - i,
{
    if i < 0 || i >= members.len() {
        None
    } else if members[i].0 == key {
        Some(i)
    } else {
        key_at(members, key, i + 1)
    }
}

pub proof fn lemma_key_at(members: Seq<(Seq<char>, JsonView)>, key: Seq<char>, i: int)
    requires
        0 <= i,
    ensures
        key_at(members, key, i) matches Some(j) ==> i <= j < members.len() && members[j].0 == key
            && forall|k: int| i <= k < j ==> (#[trigger] members[k]).0 != key,
        key_at(members, key, i) is None ==> forall|k: int|
            i <= k < members.len() ==> (#[trigger] members[k]).0 != key,
    decreases members.len() - i,
{
    if 0 <= i < members.len() && members[i].0 != key {
        lemma_key_at(members, key, i + 1);
    }
}

/// The value under `key`, when `v` is an object that has one, as
/// `serde_json::Value::get` gives it.
pub open spec fn member(v: JsonView, key: Seq<char>) -> Option<JsonView> {
    match v {
        JsonView::Object(members) => match key_at(members, key, 0) {
            Some(i) => Some(members[i].1),
            None => None,
        },
        _ => None,
    }
}

/// A member lies inside the value it belongs to.
pub proof fn lemma_member_decreases(v: JsonView, key: Seq<char>)
    ensures
        member(v, key) matches Some(x) ==> decreases_to!(v => x),
{
    if let JsonView::Object(members) = v {
        lemma_key_at(members, key, 0);
        if let Some(i) = key_at(members, key, 0) {
            assert(decreases_to!(v => members));
            assert(decreases_to!(members => members[i]));
            assert(decreases_to!(members[i] => members[i].1));
        }
    }
}

/// A member of an object lies inside the object.
proof fn lemma_object_member_decreases(j: Json, i: int)
    requires
        j is Object,
        0 <= i < j->Object_0.len(),
    ensures
        decreases_to!(j => j->Object_0[i].1),
{
    assert(decreases_to!(j => j->Object_0));
    assert(decreases_to!(j->Object_0 => j->Object_0[i]));
    assert(decreases_to!(j->Object_0[i] => j->Object_0[i].1));
}

/// An item of an array lies inside the array.
proof fn lemma_array_item_decreases(j: Json, i: int)
    requires
        j is Array,
        0 <= i < j->Array_0.len(),
    ensures
        decreases_to!(j => j->Array_0[i]),
{
    assert(decreases_to!(j => j->Array_0));
    assert(decreases_to!(j->Array_0 => j->Array_0[i]));
}

/// The value under `key` in `node`, when `node` is an object that has one.
pub fn member_exec<'a>(node: &'a Json, key: &String) -> (res: Option<&'a Json>)
    ensures
        res matches Some(x) ==> member(jv(*node), key@) == Some(jv(*x)) && decreases_to!(*node => *x),
        res is None ==> member(jv(*node), key@) is None,
{
    match node {
        Json::Object(members) => {
            proof {
                lemma_jv_members(members@);
            }
            let ghost ms = jv_members(members@);
            let mut i: usize = 0;
            while i < members.len()
                invariant
                    *node == Json::Object(*members),
                    i <= members@.len() == ms.len(),
                    ms == jv_members(members@),
                    forall|k: int| 0 <= k < ms.len() ==> #[trigger] ms[k] == (members@[k].0@, jv(members@[k].1)),
                    forall|k: int| 0 <= k < i ==> (#[trigger] ms[k]).0 != key@,
                decreases members@.len() - i,
            {
                if members[i].0 == *key {
                    proof {
                        assert(ms[i as int].0 == key@);
                        lemma_key_at(ms, key@, 0);
                        assert(key_at(ms, key@, 0) == Some(i as int));
                        lemma_object_member_decreases(*node, i as int);
                    }
                    return Some(&members[i].1);
                }
                i = i + 1;
            }
            proof {
                lemma_key_at(ms, key@, 0);
                if key_at(ms, key@, 0) is Some {
                    let j = key_at(ms, key@, 0)->0;
                    assert(ms[j].0 == key@);
                }
            }
            None
        },
        _ => None,
    }
}

/// The member name a node's kind is written under.
pub open spec fn type_key() -> Seq<char> {
    seq!['t', 'y', 'p', 'e']
}

/// The member name a node's children are written under.
pub open spec fn content_key() -> Seq<char> {
    seq!['c', 'o', 'n', 't', 'e', 'n', 't']
}

/// The member name a text node's characters are written under.
pub open spec fn text_key() -> Seq<char> {
    seq!['t', 'e', 'x', 't']
}

/// The member name a node's attributes are written under.
pub open spec fn attrs_key() -> Seq<char> {
    seq!['a', 't', 't', 'r', 's']
}

/// The attribute that says whether a task is done.
pub open spec fn checked_key() -> Seq<char> {
    seq!['c', 'h', 'e', 'c', 'k', 'e', 'd']
}

/// The kind of node a task is.
pub open spec fn task_item_kind() -> Seq<char> {
    seq!['t', 'a', 's', 'k', 'I', 't', 'e', 'm']
}

/// The children of a node: its `content`, when that is an array.
pub open spec fn children(v: JsonView) -> Option<Seq<JsonView>> {
    match member(v, content_key()) {
        Some(JsonView::Array(kids)) => Some(kids),
        _ => None,
    }
}

/// The children of a node lie inside it.
pub proof fn lemma_children_decrease(v: JsonView)
    ensures
        children(v) matches Some(kids) ==> decreases_to!(v => kids),
{
    lemma_member_decreases(v, content_key());
    if let Some(x) = member(v, content_key()) {
        if x is Array {
            assert(decreases_to!(x => x->Array_0));
        }
    }
}

/// The text a node holds: its own `text`, when that is a string, then the
/// text of each child in order.
pub open spec fn text_in(v: JsonView) -> Seq<char>
    decreases v, 1nat,
{
    let own = match member(v, text_key()) {
        Some(JsonView::Str(s)) => s,
        _ => Seq::empty(),
    };
    match children(v) {
        Some(kids) => {
            proof {
                lemma_children_decrease(v);
            }
            own + text_in_list(kids, kids.len())
        },
        None => own,
    }
}

/// The text of the first `n` of these nodes, in order.
pub open spec fn text_in_list(kids: Seq<JsonView>, n: nat) -> Seq<char>
    decreases kids, n,
{
    if n == 0 || n > kids.len() {
        Seq::empty()
    } else {
        text_in_list(kids, (n - 1) as nat) + text_in(kids[n - 1])
    }
}

/// A node is a task item.
pub open spec fn is_task_item(v: JsonView) -> bool {
    member(v, type_key()) matches Some(JsonView::Str(k)) && k == task_item_kind()
}

/// Whether a task item is ticked: its `attrs.checked`, when that is a
/// boolean, and not ticked otherwise.
pub open spec fn is_checked(v: JsonView) -> bool {
    match member(v, attrs_key()) {
        Some(attrs) => match member(attrs, checked_key()) {
            Some(JsonView::Bool(b)) => b,
            _ => false,
        },
        None => false,
    }
}

/// The tasks a node holds, in document order: each task item with text that
/// is more than whitespace gives its trimmed text and whether it is ticked.
/// A task item's own children are not searched for further tasks.
pub open spec fn tasks_in(v: JsonView) -> Seq<(Seq<char>, bool)>
    decreases v, 1nat,
{
    if is_task_item(v) {
        let t = crate::text::trim(text_in(v));
        if t.len() == 0 {
            Seq::empty()
        } else {
            seq![(t, is_checked(v))]
        }
    } else {
        match children(v) {
            Some(kids) => {
                proof {
                    lemma_children_decrease(v);
                }
                tasks_in_list(kids, kids.len())
            },
            None => Seq::empty(),
        }
    }
}

/// The tasks of the first `n` of these nodes, in order.
pub open spec fn tasks_in_list(kids: Seq<JsonView>, n: nat) -> Seq<(Seq<char>, bool)>
    decreases kids, n,
{
    if n == 0 || n > kids.len() {
        Seq::empty()
    } else {
        tasks_in_list(kids, (n - 1) as nat) + tasks_in(kids[n - 1])
    }
}

/// A member name, as a string.
fn key_string(chars: Vec<char>) -> (res: String)
    ensures
        res@ == chars@,
{
    string_of(&chars)
}

/// Appends the text `node` holds to `out`.
pub fn gather_text(node: &Json, out: &mut Vec<char>)
    ensures
        final(out)@ == old(out)@ + text_in(jv(*node)),
    decreases node,
{
    let ghost start = out@;
    let tk = key_string(vec!['t', 'e', 'x', 't']);
    assert(tk@ == text_key());
    match member_exec(node, &tk) {
        Some(Json::Str(s)) => {
            let cs = chars_of(s.as_str());
            let n = cs.len();
            push_range(out, &cs, 0, n);
            assert(cs@.subrange(0, n as int) =~= cs@);
        },
        _ => {},
    }
    let ghost own = match member(jv(*node), text_key()) {
        Some(JsonView::Str(t)) => t,
        _ => Seq::empty(),
    };
    assert(out@ == start + own);
    let ck = key_string(vec!['c', 'o', 'n', 't', 'e', 'n', 't']);
    assert(ck@ == content_key());
    match member_exec(node, &ck) {
        Some(x) => {
            match x {
                Json::Array(kids) => {
                    proof {
                        lemma_jv_list(kids@);
                    }
                    let ghost kv = jv_list(kids@);
                    assert(children(jv(*node)) == Some(kv));
                    let mut i: usize = 0;
                    while i < kids.len()
                        invariant
                            *x == Json::Array(*kids),
                            decreases_to!(*node => *x),
                            kv == jv_list(kids@),
                            kv.len() == kids@.len(),
                            forall|k: int| 0 <= k < kids@.len() ==> #[trigger] kv[k] == jv(kids@[k]),
                            i <= kids@.len(),
                            out@ == start + own + text_in_list(kv, i as nat),
                        decreases kids@.len() - i,
                    {
                        proof {
                            lemma_array_item_decreases(*x, i as int);
                        }
                        gather_text(&kids[i], out);
                        proof {
                            assert(text_in_list(kv, (i + 1) as nat) == text_in_list(kv, i as nat)
                                + text_in(kv[i as int]));
                        }
                        i = i + 1;
                    }
                    assert(out@ =~= start + text_in(jv(*node)));
                },
                _ => {
                    assert(children(jv(*node)) is None);
                },
            }
        },
        None => {},
    }
}

/// Whether `node` is a task item.
fn is_task_item_exec(node: &Json) -> (res: bool)
    ensures
        res == is_task_item(jv(*node)),
{
    let tk = key_string(vec!['t', 'y', 'p', 'e']);
    assert(tk@ == type_key());
    let kind = key_string(vec!['t', 'a', 's', 'k', 'I', 't', 'e', 'm']);
    assert(kind@ == task_item_kind());
    match member_exec(node, &tk) {
        Some(Json::Str(k)) => *k == kind,
        _ => false,
    }
}

/// Whether a task item is ticked.
fn is_checked_exec(node: &Json) -> (res: bool)
    ensures
        res == is_checked(jv(*node)),
{
    let ak = key_string(vec!['a', 't', 't', 'r', 's']);
    assert(ak@ == attrs_key());
    let ck = key_string(vec!['c', 'h', 'e', 'c', 'k', 'e', 'd']);
    assert(ck@ == checked_key());
    match member_exec(node, &ak) {
        Some(attrs) => match member_exec(attrs, &ck) {
            Some(Json::Bool(b)) => *b,
            _ => false,
        },
        None => false,
    }
}

/// Tasks as text and ticks.
pub open spec fn task_views(s: Seq<(String, bool)>) -> Seq<(Seq<char>, bool)> {
    s.map_values(|t: (String, bool)| (t.0@, t.1))
}

/// Appends the tasks `node` holds to `out`, in document order.
pub fn collect_tasks(node: &Json, out: &mut Vec<(String, bool)>)
    ensures
        task_views(final(out)@) == task_views(old(out)@) + tasks_in(jv(*node)),
    decreases node,
{
    let ghost start = out@;
    if is_task_item_exec(node) {
        let mut text: Vec<char> = Vec::new();
        gather_text(node, &mut text);
        assert(text@ =~= text_in(jv(*node)));
        let t = trim_chars(&text);
        if t.len() > 0 {
            let done = is_checked_exec(node);
            out.push((string_of(&t), done));
        }
        assert(task_views(out@) =~= task_views(start) + tasks_in(jv(*node)));
        return;
    }
    let ck = key_string(vec!['c', 'o', 'n', 't', 'e', 'n', 't']);
    assert(ck@ == content_key());
    match member_exec(node, &ck) {
        Some(x) => {
            match x {
                Json::Array(kids) => {
                    proof {
                        lemma_jv_list(kids@);
                    }
                    let ghost kv = jv_list(kids@);
                    assert(children(jv(*node)) == Some(kv));
                    let mut i: usize = 0;
                    while i < kids.len()
                        invariant
                            *x == Json::Array(*kids),
                            decreases_to!(*node => *x),
                            kv == jv_list(kids@),
                            kv.len() == kids@.len(),
                            forall|k: int| 0 <= k < kids@.len() ==> #[trigger] kv[k] == jv(kids@[k]),
                            i <= kids@.len(),
                            task_views(out@) == task_views(start) + tasks_in_list(kv, i as nat),
                        decreases kids@.len() - i,
                    {
                        proof {
                            lemma_array_item_decreases(*x, i as int);
                        }
                        collect_tasks(&kids[i], out);
                        proof {
                            assert(tasks_in_list(kv, (i + 1) as nat) == tasks_in_list(kv, i as nat)
                                + tasks_in(kv[i as int]));
                        }
                        i = i + 1;
                    }
                    assert(task_views(out@) =~= task_views(start) + tasks_in(jv(*node)));
                },
                _ => {
                    assert(children(jv(*node)) is None);
                    assert(task_views(out@) =~= task_views(start) + tasks_in(jv(*node)));
                },
            }
        },
        None => {
            assert(task_views(out@) =~= task_views(start) + tasks_in(jv(*node)));
        },
    }
}

/// `members` with `key` set to `value`: replaced where it stands, or added at
/// the end, as `serde_json::Map::insert` leaves it.
pub open spec fn put_member(
    members: Seq<(Seq<char>, JsonView)>,
    key: Seq<char>,
    value: JsonView,
) -> Seq<(Seq<char>, JsonView)> {
    match key_at(members, key, 0) {
        Some(i) => members.update(i, (key, value)),
        None => members.push((key, value)),
    }
}

/// A task item ticked (or unticked): its `attrs.checked` set to `done`, with
/// `attrs` made afresh when the item has none that is an object.
pub open spec fn with_checked(v: JsonView, done: bool) -> JsonView {
    match v {
        JsonView::Object(members) => match member(v, attrs_key()) {
            Some(JsonView::Object(attrs)) => JsonView::Object(
                put_member(
                    members,
                    attrs_key(),
                    JsonView::Object(put_member(attrs, checked_key(), JsonView::Bool(done))),
                ),
            ),
            _ => JsonView::Object(
                put_member(
                    members,
                    attrs_key(),
                    JsonView::Object(seq![(checked_key(), JsonView::Bool(done))]),
                ),
            ),
        },
        _ => v,
    }
}

/// Ticks the task item numbered `target` in document order, counting from
/// `seen` for the first task item met in `v`: the node as it is afterwards,
/// the count after `v`, and whether the item was met. Only task items that
/// hold words are counted, as the task index counts them; one with no words
/// is passed over. A node is left as it is when the item is not inside it.
pub open spec fn tick(v: JsonView, target: nat, done: bool, seen: nat) -> (JsonView, nat, bool)
    decreases v, 1nat,
{
    if is_task_item(v) {
        if crate::text::trim(text_in(v)).len() == 0 {
            (v, seen, false)
        } else if seen == target {
            (with_checked(v, done), seen, true)
        } else {
            (v, seen + 1, false)
        }
    } else {
        match children(v) {
            Some(kids) => {
                proof {
                    lemma_children_decrease(v);
                }
                let r = tick_list(kids, kids.len(), target, done, seen);
                if r.2 {
                    match v {
                        JsonView::Object(members) => (
                            JsonView::Object(put_member(members, content_key(), JsonView::Array(r.0))),
                            r.1,
                            true,
                        ),
                        _ => (v, r.1, true),
                    }
                } else {
                    (v, r.1, false)
                }
            },
            None => (v, seen, false),
        }
    }
}

/// [`tick`] over the first `n` of these nodes in turn, stopping at the item:
/// those nodes as they are afterwards, the count, and whether it was met.
pub open spec fn tick_list(kids: Seq<JsonView>, n: nat, target: nat, done: bool, seen: nat) -> (
    Seq<JsonView>,
    nat,
    bool,
)
    decreases kids, n,
{
    if n == 0 || n > kids.len() {
        (Seq::empty(), seen, false)
    } else {
        let before = tick_list(kids, (n - 1) as nat, target, done, seen);
        if before.2 {
            (before.0.push(kids[n - 1]), before.1, true)
        } else {
            let r = tick(kids[n - 1], target, done, before.1);
            (before.0.push(r.0), r.1, r.2)
        }
    }
}

/// The index of the first member under `key`.
fn find_member(members: &Vec<(String, Json)>, key: &String) -> (res: Option<usize>)
    ensures
        res matches Some(i) ==> key_at(jv_members(members@), key@, 0) == Some(i as int) && i
            < members@.len() && members@[i as int].0@ == key@,
        res is None ==> key_at(jv_members(members@), key@, 0) is None,
{
    proof {
        lemma_jv_members(members@);
    }
    let ghost ms = jv_members(members@);
    let mut i: usize = 0;
    while i < members.len()
        invariant
            i <= members@.len() == ms.len(),
            ms == jv_members(members@),
            forall|k: int| 0 <= k < ms.len() ==> #[trigger] ms[k] == (members@[k].0@, jv(members@[k].1)),
            forall|k: int| 0 <= k < i ==> (#[trigger] ms[k]).0 != key@,
        decreases members@.len() - i,
    {
        if members[i].0 == *key {
            proof {
                assert(ms[i as int].0 == key@);
                lemma_key_at(ms, key@, 0);
            }
            return Some(i);
        }
        i = i + 1;
    }
    proof {
        lemma_key_at(ms, key@, 0);
        if key_at(ms, key@, 0) is Some {
            let j = key_at(ms, key@, 0)->0;
            assert(ms[j].0 == key@);
        }
    }
    None
}

/// Sets `key` to `value` among `members`, as [`put_member`] says.
fn put_member_exec(members: &mut Vec<(String, Json)>, key: String, value: Json)
    ensures
        jv_members(final(members)@) == put_member(jv_members(old(members)@), key@, jv(value)),
{
    proof {
        lemma_jv_members(old(members)@);
    }
    let ghost before = members@;
    match find_member(members, &key) {
        Some(i) => {
            members.set(i, (key, value));
            proof {
                lemma_jv_members(members@);
                assert(jv_members(members@) =~= put_member(jv_members(before), key@, jv(value)));
            }
        },
        None => {
            members.push((key, value));
            proof {
                lemma_jv_members(members@);
                assert(jv_members(members@) =~= put_member(jv_members(before), key@, jv(value)));
            }
        },
    }
}

/// Ticks a task item, as [`with_checked`] says.
fn with_checked_exec(node: Json, done: bool) -> (res: Json)
    ensures
        jv(res) == with_checked(jv(node), done),
{
    let ak = key_string(vec!['a', 't', 't', 'r', 's']);
    assert(ak@ == attrs_key());
    let ck = key_string(vec!['c', 'h', 'e', 'c', 'k', 'e', 'd']);
    assert(ck@ == checked_key());
    match node {
        Json::Object(mut members) => {
            let ghost before = members@;
            proof {
                lemma_jv_members(before);
            }
            match find_member(&members, &ak) {
                Some(i) => {
                    let is_object = match &members[i].1 {
                        Json::Object(_) => true,
                        _ => false,
                    };
                    if is_object {
                        let (k, attrs) = members.remove(i);
                        proof {
                            assert(jv_members(before)[i as int] == (k@, jv(attrs)));
                        }
                        match attrs {
                            Json::Object(mut inner) => {
                                let ghost inner_before = inner@;
                                put_member_exec(&mut inner, ck, Json::Bool(done));
                                members.insert(i, (k, Json::Object(inner)));
                                proof {
                                    lemma_jv_members(members@);
                                    assert(members@ =~= before.update(i as int, members@[i as int]));
                                    assert(jv_members(members@) =~= put_member(
                                        jv_members(before),
                                        attrs_key(),
                                        JsonView::Object(
                                            put_member(
                                                jv_members(inner_before),
                                                checked_key(),
                                                JsonView::Bool(done),
                                            ),
                                        ),
                                    ));
                                }
                                Json::Object(members)
                            },
                            _ => Json::Null,
                        }
                    } else {
                        let mut fresh: Vec<(String, Json)> = Vec::new();
                        fresh.push((ck, Json::Bool(done)));
                        proof {
                            lemma_jv_members(fresh@);
                            assert(jv_members(fresh@)[0] == (checked_key(), JsonView::Bool(done)));
                            assert(jv_members(fresh@) =~= seq![(checked_key(), JsonView::Bool(done))]);
                        }
                        put_member_exec(&mut members, ak, Json::Object(fresh));
                        Json::Object(members)
                    }
                },
                None => {
                    let mut fresh: Vec<(String, Json)> = Vec::new();
                    fresh.push((ck, Json::Bool(done)));
                    proof {
                        lemma_jv_members(fresh@);
                            assert(jv_members(fresh@)[0] == (checked_key(), JsonView::Bool(done)));
                            assert(jv_members(fresh@) =~= seq![(checked_key(), JsonView::Bool(done))]);
                    }
                    put_member_exec(&mut members, ak, Json::Object(fresh));
                    Json::Object(members)
                },
            }
        },
        other => other,
    }
}

/// A node the item is not in comes back as it was.
pub proof fn lemma_tick_unchanged(v: JsonView, target: nat, done: bool, seen: nat)
    ensures
        !tick(v, target, done, seen).2 ==> tick(v, target, done, seen).0 == v,
{
}

/// Nodes the item is not in come back as they were.
pub proof fn lemma_tick_list_unchanged(kids: Seq<JsonView>, n: nat, target: nat, done: bool, seen: nat)
    requires
        n <= kids.len(),
    ensures
        tick_list(kids, n, target, done, seen).0.len() == n,
        !tick_list(kids, n, target, done, seen).2 ==> tick_list(kids, n, target, done, seen).0
            == kids.take(n as int),
    decreases n,
{
    if n > 0 {
        lemma_tick_list_unchanged(kids, (n - 1) as nat, target, done, seen);
        let before = tick_list(kids, (n - 1) as nat, target, done, seen);
        lemma_tick_unchanged(kids[n - 1], target, done, before.1);
        if !before.2 {
            assert(kids.take(n as int) =~= kids.take(n - 1).push(kids[n - 1]));
        }
    }
}

/// Ticks the task item numbered `target` in document order, counting task
/// items from `seen`, as [`tick`] says.
#[verifier::loop_isolation(false)]
pub(crate) fn tick_exec(node: Json, target: usize, done: bool, seen: usize) -> (res: (Json, usize, bool))
    requires
        seen <= target,
    ensures
        (jv(res.0), res.1 as nat, res.2) == tick(jv(node), target as nat, done, seen as nat),
        res.1 <= target,
    decreases node,
{
    let ghost orig = node;
    let ghost v = jv(node);
    if is_task_item_exec(&node) {
        let mut text: Vec<char> = Vec::new();
        gather_text(&node, &mut text);
        assert(text@ =~= text_in(v));
        if trim_chars(&text).len() == 0 {
            return (node, seen, false);
        }
        if seen == target {
            return (with_checked_exec(node, done), seen, true);
        }
        return (node, seen + 1, false);
    }
    let ck = key_string(vec!['c', 'o', 'n', 't', 'e', 'n', 't']);
    assert(ck@ == content_key());
    match node {
        Json::Object(mut members) => {
            let ghost ms0 = members@;
            proof {
                lemma_jv_members(ms0);
            }
            match find_member(&members, &ck) {
                None => {
                    assert(children(v) is None);
                    (Json::Object(members), seen, false)
                },
                Some(i) => {
                    let is_array = match &members[i].1 {
                        Json::Array(_) => true,
                        _ => false,
                    };
                    if !is_array {
                        proof {
                            assert(jv_members(ms0)[i as int] == (ms0[i as int].0@, jv(ms0[i as int].1)));
                            assert(children(v) is None);
                        }
                        return (Json::Object(members), seen, false);
                    }
                    let (k, child) = members.remove(i);
                    let ghost child_ghost = child;
                    proof {
                        assert(ms0[i as int] == (k, child));
                        lemma_object_member_decreases(orig, i as int);
                        assert(decreases_to!(orig => child_ghost));
                    }
                    match child {
                        Json::Array(kids) => {
                            let ghost ks = kids@;
                            let ghost kv = jv_list(ks);
                            proof {
                                lemma_jv_list(ks);
                                assert(jv_members(ms0)[i as int] == (content_key(), JsonView::Array(kv)));
                                assert(children(v) == Some(kv));
                            }
                            let mut out_kids: Vec<Json> = Vec::new();
                            let mut count: usize = seen;
                            let mut found = false;
                            proof {
                                assert(jv_list(out_kids@) =~= Seq::<JsonView>::empty());
                            }
                            for kid in it: kids.into_iter()
                                invariant
                                    it.seq() == ks,
                                    child_ghost == Json::Array(kids),
                                    ks == kids@,
                                    decreases_to!(orig => child_ghost),
                                    kv == jv_list(ks),
                                    kv.len() == ks.len(),
                                    forall|q: int| 0 <= q < ks.len() ==> #[trigger] kv[q] == jv(ks[q]),
                                    count <= target,
                                    seen <= target,
                                    (jv_list(out_kids@), count as nat, found) == tick_list(
                                        kv,
                                        it.index() as nat,
                                        target as nat,
                                        done,
                                        seen as nat,
                                    ),
                            {
                                let ghost j = it.index() as int;
                                let ghost prev = out_kids@;
                                if found {
                                    out_kids.push(kid);
                                    proof {
                                        assert(out_kids@.drop_last() =~= prev);
                                    }
                                } else {
                                    proof {
                                        lemma_array_item_decreases(child_ghost, j);
                                        assert(kid == ks[j]);
                                        assert(decreases_to!(orig => kid));
                                    }
                                    let r = tick_exec(kid, target, done, count);
                                    out_kids.push(r.0);
                                    count = r.1;
                                    found = r.2;
                                    proof {
                                        assert(out_kids@.drop_last() =~= prev);
                                    }
                                }
                            }
                            proof {
                                lemma_tick_list_unchanged(kv, kv.len(), target as nat, done, seen as nat);
                                lemma_jv_list(out_kids@);
                            }
                            let ghost new_kids = jv_list(out_kids@);
                            let ghost r = tick_list(kv, kv.len(), target as nat, done, seen as nat);
                            assert(new_kids == r.0);
                            members.insert(i, (k, Json::Array(out_kids)));
                            proof {
                                lemma_jv_members(members@);
                                assert(members@ =~= ms0.update(i as int, members@[i as int]));
                                assert(kv.take(kv.len() as int) =~= kv);
                                assert(jv_members(members@) =~= jv_members(ms0).update(
                                    i as int,
                                    (content_key(), JsonView::Array(jv_list(members@[i as int].1->Array_0@))),
                                ));
                            }
                            proof {
                                let ms = jv_members(ms0);
                                assert(v == JsonView::Object(ms));
                                assert(jv(Json::Object(members)) == JsonView::Object(ms.update(
                                    i as int,
                                    (content_key(), JsonView::Array(new_kids)),
                                )));
                                if found {
                                    assert(put_member(ms, content_key(), JsonView::Array(new_kids)) == ms.update(
                                        i as int,
                                        (content_key(), JsonView::Array(new_kids)),
                                    ));
                                } else {
                                    assert(new_kids =~= kv);
                                    assert(ms.update(i as int, (content_key(), JsonView::Array(new_kids))) =~= ms);
                                }
                            }
                            assert(tick(v, target as nat, done, seen as nat).1 == count);
                            assert(tick(v, target as nat, done, seen as nat).2 == found);
                            assert(jv(Json::Object(members)) == tick(v, target as nat, done, seen as nat).0);
                            (Json::Object(members), count, found)
                        },
                        _ => {
                            proof {
                                assert(false);
                            }
                            (Json::Null, seen, false)
                        },
                    }
                },
            }
        },
        other => {
            assert(children(v) is None);
            (other, seen, false)
        },
    }
}

/// Setting a member leaves every other member as it was, and holds the new
/// value under its own name.
proof fn lemma_put_member(members: Seq<(Seq<char>, JsonView)>, key: Seq<char>, value: JsonView, other: Seq<char>)
    ensures
        member(JsonView::Object(put_member(members, key, value)), key) == Some(value),
        other != key ==> member(JsonView::Object(put_member(members, key, value)), other) == member(
            JsonView::Object(members),
            other,
        ),
{
    let put = put_member(members, key, value);
    lemma_key_at(members, key, 0);
    lemma_key_at(members, other, 0);
    lemma_key_at(put, key, 0);
    lemma_key_at(put, other, 0);
    match key_at(members, key, 0) {
        Some(i) => {
            assert(put[i].0 == key);
            if let Some(j) = key_at(put, key, 0) {
                assert(j <= i);
                if j < i {
                    assert(put[j] == members[j]);
                }
            }
            if other != key {
                if let Some(j) = key_at(members, other, 0) {
                    assert(j != i);
                    assert(put[j] == members[j]);
                    if let Some(k) = key_at(put, other, 0) {
                        if k < j {
                            assert(k != i);
                            assert(put[k] == members[k]);
                        }
                        if k > j {
                            assert(put[j].0 == other);
                        }
                    }
                } else {
                    if let Some(k) = key_at(put, other, 0) {
                        assert(k != i);
                        assert(put[k] == members[k]);
                    }
                }
            }
        },
        None => {
            assert(put[members.len() as int].0 == key);
            if let Some(j) = key_at(put, key, 0) {
                if j < members.len() {
                    assert(put[j] == members[j]);
                }
            }
            if other != key {
                if let Some(j) = key_at(members, other, 0) {
                    assert(put[j] == members[j]);
                    if let Some(k) = key_at(put, other, 0) {
                        if k < j {
                            assert(put[k] == members[k]);
                        }
                        if k > j {
                            assert(put[j].0 == other);
                        }
                    }
                } else {
                    if let Some(k) = key_at(put, other, 0) {
                        if k < members.len() {
                            assert(put[k] == members[k]);
                        }
                    }
                }
            }
        },
    }
}

/// Ticking a task item makes it ticked and changes nothing else that tasks
/// are read from.
proof fn lemma_with_checked(v: JsonView, done: bool)
    requires
        is_task_item(v),
    ensures
        is_task_item(with_checked(v, done)),
        text_in(with_checked(v, done)) == text_in(v),
        is_checked(with_checked(v, done)) == done,
{
    let w = with_checked(v, done);
    let members = v->Object_0;
    assert(attrs_key().len() == 5);
    assert(type_key().len() == 4);
    assert(text_key().len() == 4);
    assert(content_key().len() == 7);
    let fresh = match member(v, attrs_key()) {
        Some(JsonView::Object(attrs)) => JsonView::Object(
            put_member(attrs, checked_key(), JsonView::Bool(done)),
        ),
        _ => JsonView::Object(seq![(checked_key(), JsonView::Bool(done))]),
    };
    assert(w == JsonView::Object(put_member(members, attrs_key(), fresh)));
    lemma_put_member(members, attrs_key(), fresh, type_key());
    lemma_put_member(members, attrs_key(), fresh, text_key());
    lemma_put_member(members, attrs_key(), fresh, content_key());
    assert(member(w, type_key()) == member(v, type_key()));
    assert(member(w, text_key()) == member(v, text_key()));
    assert(member(w, content_key()) == member(v, content_key()));
    assert(children(w) == children(v));
    assert(member(w, attrs_key()) == Some(fresh));
    match member(v, attrs_key()) {
        Some(JsonView::Object(attrs)) => {
            lemma_put_member(attrs, checked_key(), JsonView::Bool(done), checked_key());
        },
        _ => {
            assert(key_at(seq![(checked_key(), JsonView::Bool(done))], checked_key(), 0) == Some(0int));
        },
    }
    assert(is_checked(w) == done);
}

/// The tasks of the first `n` nodes depend on those nodes alone.
proof fn lemma_tasks_in_list_prefix(a: Seq<JsonView>, b: Seq<JsonView>, n: nat)
    requires
        n <= a.len(),
        n <= b.len(),
        a.take(n as int) == b.take(n as int),
    ensures
        tasks_in_list(a, n) == tasks_in_list(b, n),
    decreases n,
{
    if n > 0 {
        assert(a.take(n - 1) =~= a.take(n as int).take(n - 1));
        assert(b.take(n - 1) =~= b.take(n as int).take(n - 1));
        lemma_tasks_in_list_prefix(a, b, (n - 1) as nat);
        assert(a[n - 1] == a.take(n as int)[n - 1]);
        assert(b[n - 1] == b.take(n as int)[n - 1]);
    }
}

/// What [`tick`] does to the tasks of a node, counting from `seen`: the task numbered `target` is ticked and no
/// other changes, when it is inside the node; otherwise the node comes back
/// as it was, with the count moved past its tasks.
proof fn lemma_tick_tasks(v: JsonView, target: nat, done: bool, seen: nat)
    requires
        seen <= target,
    ensures
        target < seen + tasks_in(v).len() ==> {
            let r = tick(v, target, done, seen);
            &&& r.2
            &&& tasks_in(r.0) == tasks_in(v).update(
                target - seen,
                (tasks_in(v)[target - seen].0, done),
            )
        },
        target >= seen + tasks_in(v).len() ==> tick(v, target, done, seen) == (
            v,
            seen + tasks_in(v).len(),
            false,
        ),
    decreases v, 1nat,
{
    if is_task_item(v) {
        if seen == target && crate::text::trim(text_in(v)).len() != 0 {
            lemma_with_checked(v, done);
            let w = with_checked(v, done);
            assert(tasks_in(w) =~= tasks_in(v).update(0, (tasks_in(v)[0].0, done)));
        }
    } else {
        match children(v) {
            Some(kids) => {
                lemma_children_decrease(v);
                lemma_tick_list_tasks(kids, kids.len(), target, done, seen);
                let r = tick_list(kids, kids.len(), target, done, seen);
                if r.2 {
                    let members = v->Object_0;
                    let w = JsonView::Object(put_member(members, content_key(), JsonView::Array(r.0)));
                    assert(type_key().len() == 4);
                    assert(content_key().len() == 7);
                    lemma_put_member(members, content_key(), JsonView::Array(r.0), type_key());
                    lemma_put_member(members, content_key(), JsonView::Array(r.0), content_key());
                    assert(!is_task_item(w));
                    assert(children(w) == Some(r.0));
                }
            },
            None => {},
        }
    }
}

/// [`lemma_tick_tasks`] over the first `n` of a node's children.
proof fn lemma_tick_list_tasks(kids: Seq<JsonView>, n: nat, target: nat, done: bool, seen: nat)
    requires
        n <= kids.len(),
        seen <= target,
    ensures
        target < seen + tasks_in_list(kids, n).len() ==> {
            let r = tick_list(kids, n, target, done, seen);
            &&& r.2
            &&& r.0.len() == n
            &&& tasks_in_list(r.0, n) == tasks_in_list(kids, n).update(
                target - seen,
                (tasks_in_list(kids, n)[target - seen].0, done),
            )
        },
        target >= seen + tasks_in_list(kids, n).len() ==> {
            let r = tick_list(kids, n, target, done, seen);
            &&& !r.2
            &&& r.1 == seen + tasks_in_list(kids, n).len()
            &&& r.0 == kids.take(n as int)
        },
    decreases kids, n,
{
    lemma_tick_list_unchanged(kids, n, target, done, seen);
    if n > 0 {
        let m = tasks_in_list(kids, (n - 1) as nat).len();
        let node = kids[n - 1];
        let before = tick_list(kids, (n - 1) as nat, target, done, seen);
        lemma_tick_list_tasks(kids, (n - 1) as nat, target, done, seen);
        let all = tasks_in_list(kids, n);
        assert(all == tasks_in_list(kids, (n - 1) as nat) + tasks_in(node));
        if before.2 {
            let r0 = before.0.push(node);
            assert(r0.take(n - 1) =~= before.0);
            assert(before.0.take(n - 1) =~= before.0);
            lemma_tasks_in_list_prefix(r0, before.0, (n - 1) as nat);
            assert(tasks_in_list(r0, n) == tasks_in_list(r0, (n - 1) as nat) + tasks_in(r0[n - 1]));
            assert(tasks_in_list(r0, n) =~= all.update(target - seen, (all[target - seen].0, done)));
        } else {
            lemma_tick_tasks(node, target, done, seen + m);
            let r = tick(node, target, done, seen + m);
            let r0 = before.0.push(r.0);
            assert(before.0 == kids.take(n - 1));
            assert(r0.take(n - 1) =~= kids.take(n - 1));
            lemma_tasks_in_list_prefix(r0, kids, (n - 1) as nat);
            assert(tasks_in_list(r0, n) == tasks_in_list(r0, (n - 1) as nat) + tasks_in(r0[n - 1]));
            if target < seen + all.len() {
                assert(tasks_in_list(r0, n) =~= all.update(target - seen, (all[target - seen].0, done)));
            } else {
                assert(r0 =~= kids.take(n as int));
            }
        }
    }
}

/// Ticking the task at position `p`, as the task index numbers them, ticks
/// that task and no other: task items with no words are skipped by both, so
/// the two always count the same way.
pub proof fn law_a_tick_lands_on_its_task(v: JsonView, p: nat, done: bool)
    requires
        p < tasks_in(v).len(),
    ensures
        tick(v, p, done, 0).2,
        tasks_in(tick(v, p, done, 0).0) == tasks_in(v).update(p as int, (tasks_in(v)[p as int].0, done)),
{
    lemma_tick_tasks(v, p, done, 0);
}

/// Ticking an open task and then unticking it gives the tasks back as they
/// were, with every task at its own position.
pub proof fn law_unticking_restores_the_tasks(v: JsonView, p: nat)
    requires
        p < tasks_in(v).len(),
        !tasks_in(v)[p as int].1,
    ensures
        tick(tick(v, p, true, 0).0, p, false, 0).2,
        tasks_in(tick(tick(v, p, true, 0).0, p, false, 0).0) == tasks_in(v),
{
    let t = tasks_in(v);
    let w = tick(v, p, true, 0).0;
    law_a_tick_lands_on_its_task(v, p, true);
    assert(tasks_in(w).len() == t.len());
    law_a_tick_lands_on_its_task(w, p, false);
    assert(tasks_in(tick(w, p, false, 0).0) =~= t);
}

} // verus!
