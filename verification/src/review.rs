//! Review scheduling: the daily cap and the interleaving of topics.
//!
//! The queue is capped at a day's worth and the true backlog is never returned
//! by anything in this module.

use vstd::prelude::*;
use vstd::set_lib::{lemma_int_range, set_int_range};

verus! {

/// How many cards a single day may show.
pub const DAILY_CAP: i64 = 20;

#[derive(Debug, Clone, Copy, PartialEq, Eq, Structural)]
pub enum Grade {
    Again,
    Hard,
    Good,
    Easy,
}

/// The keys as character sequences.
pub open spec fn key_views(keys: Seq<String>) -> Seq<Seq<char>> {
    keys.map_values(|k: String| k@)
}

/// How many of the first `m` keys equal `k`.
pub open spec fn count_eq(ks: Seq<Seq<char>>, k: Seq<char>, m: int) -> nat
    decreases m,
{
    if m <= 0 {
        0
    } else {
        count_eq(ks, k, m - 1) + if ks[m - 1] == k {
            1nat
        } else {
            0nat
        }
    }
}

/// The position of the first of the first `m` keys that equals `k`, or `m`
/// when there is none.
pub open spec fn first_eq(ks: Seq<Seq<char>>, k: Seq<char>, m: int) -> int
    decreases m,
{
    if m <= 0 {
        0
    } else {
        let f = first_eq(ks, k, m - 1);
        if f < m - 1 {
            f
        } else if ks[m - 1] == k {
            m - 1
        } else {
            m
        }
    }
}

/// How many items before item `i` share its key: its round.
pub open spec fn rank(ks: Seq<Seq<char>>, i: int) -> nat {
    count_eq(ks, ks[i], i)
}

/// Where item `i`'s key first appears: its bucket's place in a round.
pub open spec fn first(ks: Seq<Seq<char>>, i: int) -> int {
    first_eq(ks, ks[i], i + 1)
}

/// Item `i` comes out before item `j`: an earlier round, or the same round
/// and a key that appeared earlier.
pub open spec fn before(ks: Seq<Seq<char>>, i: int, j: int) -> bool {
    rank(ks, i) < rank(ks, j) || (rank(ks, i) == rank(ks, j) && first(ks, i) < first(ks, j))
}

/// `ord` lists every item exactly once, round by round, and within a round in
/// the order in which the keys first appeared.
pub open spec fn is_round_robin(ks: Seq<Seq<char>>, ord: Seq<usize>) -> bool {
    &&& ord.len() == ks.len()
    &&& forall|p: int| 0 <= p < ord.len() ==> #[trigger] ord[p] < ks.len()
    &&& forall|i: usize| i < ks.len() ==> #[trigger] ord.contains(i)
    &&& forall|p: int, q: int|
        0 <= p < q < ord.len() ==> before(ks, #[trigger] ord[p] as int, #[trigger] ord[q] as int)
}

proof fn lemma_first_eq(ks: Seq<Seq<char>>, k: Seq<char>, m: int)
    requires
        0 <= m <= ks.len(),
    ensures
        0 <= first_eq(ks, k, m) <= m,
        first_eq(ks, k, m) < m ==> ks[first_eq(ks, k, m)] == k,
        forall|j: int| 0 <= j < first_eq(ks, k, m) ==> ks[j] != k,
    decreases m,
{
    if m > 0 {
        lemma_first_eq(ks, k, m - 1);
    }
}

proof fn lemma_first_eq_prefix(ks: Seq<Seq<char>>, k: Seq<char>, m: int, j: int)
    requires
        0 <= j < m <= ks.len(),
        ks[j] == k,
    ensures
        first_eq(ks, k, m) <= j,
    decreases m,
{
    lemma_first_eq(ks, k, m);
    if m - 1 > j {
        lemma_first_eq_prefix(ks, k, m - 1, j);
    }
}

/// The first occurrence of item `i`'s key: it is at or before `i`, it holds
/// the same key, and nothing earlier does.
proof fn lemma_first(ks: Seq<Seq<char>>, i: int)
    requires
        0 <= i < ks.len(),
    ensures
        0 <= first(ks, i) <= i,
        ks[first(ks, i)] == ks[i],
        forall|j: int| 0 <= j < first(ks, i) ==> ks[j] != ks[i],
{
    lemma_first_eq(ks, ks[i], i + 1);
    lemma_first_eq_prefix(ks, ks[i], i + 1, i);
}

/// Two items share a first occurrence exactly when they share a key.
proof fn lemma_first_same(ks: Seq<Seq<char>>, i: int, j: int)
    requires
        0 <= i < ks.len(),
        0 <= j < ks.len(),
    ensures
        (first(ks, i) == first(ks, j)) == (ks[i] == ks[j]),
{
    lemma_first(ks, i);
    lemma_first(ks, j);
    if ks[i] == ks[j] {
        if first(ks, i) < first(ks, j) {
        } else if first(ks, j) < first(ks, i) {
        }
    }
}

proof fn lemma_count_mono(ks: Seq<Seq<char>>, k: Seq<char>, a: int, b: int)
    requires
        0 <= a <= b <= ks.len(),
    ensures
        count_eq(ks, k, a) <= count_eq(ks, k, b),
    decreases b - a,
{
    if a < b {
        lemma_count_mono(ks, k, a, b - 1);
    }
}

/// Later items with the same key are in later rounds.
proof fn lemma_rank_increases(ks: Seq<Seq<char>>, i: int, j: int)
    requires
        0 <= i < j < ks.len(),
        ks[i] == ks[j],
    ensures
        rank(ks, i) < rank(ks, j),
{
    lemma_count_mono(ks, ks[i], i + 1, j);
}

/// No earlier occurrence: first position and round zero.
proof fn lemma_new_key(ks: Seq<Seq<char>>, m: int)
    requires
        0 <= m < ks.len(),
        forall|j: int| 0 <= j < m ==> ks[j] != ks[m],
    ensures
        first(ks, m) == m,
        rank(ks, m) == 0,
{
    lemma_first(ks, m);
    lemma_count_zero(ks, ks[m], m);
}

proof fn lemma_count_zero(ks: Seq<Seq<char>>, k: Seq<char>, m: int)
    requires
        0 <= m <= ks.len(),
        forall|j: int| 0 <= j < m ==> ks[j] != k,
    ensures
        count_eq(ks, k, m) == 0,
    decreases m,
{
    if m > 0 {
        lemma_count_zero(ks, k, m - 1);
    }
}

/// The leaders are first occurrences among the first `m` items, in order.
spec fn bk_leaders(ks: Seq<Seq<char>>, m: int, leaders: Seq<usize>) -> bool {
    &&& 0 <= m <= ks.len()
    &&& forall|b: int| 0 <= b < leaders.len() ==> #[trigger] leaders[b] < m
    &&& forall|b: int| 0 <= b < leaders.len() ==> first(ks, #[trigger] leaders[b] as int) == leaders[b]
    &&& forall|b1: int, b2: int|
        0 <= b1 < b2 < leaders.len() ==> #[trigger] leaders[b1] < #[trigger] leaders[b2]
}

/// Each bucket holds as many items as its key has among the first `m`.
spec fn bk_lens(ks: Seq<Seq<char>>, m: int, leaders: Seq<usize>, buckets: Seq<Seq<usize>>) -> bool {
    &&& leaders.len() == buckets.len()
    &&& forall|b: int|
        0 <= b < leaders.len() ==> #[trigger] buckets[b].len() == count_eq(
            ks,
            ks[leaders[b] as int],
            m,
        )
}

/// Entry `r` of a bucket is an item of the bucket's key, in round `r`.
spec fn bk_entries(
    ks: Seq<Seq<char>>,
    m: int,
    leaders: Seq<usize>,
    buckets: Seq<Seq<usize>>,
) -> bool {
    forall|b: int, r: int|
        0 <= b < leaders.len() && 0 <= r < buckets[b].len() ==> {
            &&& #[trigger] buckets[b][r] < m
            &&& ks[buckets[b][r] as int] == ks[leaders[b] as int]
            &&& rank(ks, buckets[b][r] as int) == r
        }
}

/// Every key among the first `m` items has a bucket.
spec fn bk_cover(ks: Seq<Seq<char>>, m: int, leaders: Seq<usize>) -> bool {
    forall|j: int| 0 <= j < m ==> #[trigger] has_bucket(ks, leaders, ks[j])
}

/// Some leader holds key `k`.
spec fn has_bucket(ks: Seq<Seq<char>>, leaders: Seq<usize>, k: Seq<char>) -> bool {
    exists|b: int| 0 <= b < leaders.len() && ks[#[trigger] leaders[b] as int] == k
}

/// The bucket structure after the first `m` items have been sorted into it.
#[verifier::opaque]
spec fn buckets_ok(
    ks: Seq<Seq<char>>,
    m: int,
    leaders: Seq<usize>,
    buckets: Seq<Seq<usize>>,
) -> bool {
    &&& bk_leaders(ks, m, leaders)
    &&& bk_lens(ks, m, leaders, buckets)
    &&& bk_entries(ks, m, leaders, buckets)
    &&& bk_cover(ks, m, leaders)
}

/// Where item `j` sits in a complete bucket structure.
proof fn lemma_bucket_of(
    ks: Seq<Seq<char>>,
    leaders: Seq<usize>,
    buckets: Seq<Seq<usize>>,
    j: int,
) -> (b: int)
    requires
        buckets_ok(ks, ks.len() as int, leaders, buckets),
        0 <= j < ks.len(),
    ensures
        0 <= b < leaders.len(),
        first(ks, j) == leaders[b],
        rank(ks, j) < buckets[b].len(),
        buckets[b][rank(ks, j) as int] == j,
{
    reveal(buckets_ok);
    assert(has_bucket(ks, leaders, ks[j]));
    let b = choose|b: int|
        0 <= b < leaders.len() && ks[#[trigger] leaders[b] as int]
            == ks[j];
    let l = leaders[b] as int;
    lemma_first_same(ks, j, l);
    lemma_count_mono(ks, ks[j], j + 1, ks.len() as int);
    let r = rank(ks, j) as int;
    let x = buckets[b][r] as int;
    if x < j {
        lemma_rank_increases(ks, x, j);
    } else if j < x {
        lemma_rank_increases(ks, j, x);
    }
    b
}

proof fn lemma_step_existing(
    ks: Seq<Seq<char>>,
    m: int,
    leaders: Seq<usize>,
    old_b: Seq<Seq<usize>>,
    b: int,
)
    requires
        buckets_ok(ks, m, leaders, old_b),
        m < ks.len() <= usize::MAX,
        0 <= b < leaders.len(),
        ks[leaders[b] as int] == ks[m],
    ensures
        buckets_ok(ks, m + 1, leaders, old_b.update(b, old_b[b].push(m as usize))),
{
    reveal(buckets_ok);
    lemma_step_existing_lens(ks, m, leaders, old_b, b);
    lemma_step_existing_entries(ks, m, leaders, old_b, b);
    lemma_leaders_grow(ks, m, leaders);
    lemma_cover_existing(ks, m, leaders, b);
}

proof fn lemma_leaders_grow(ks: Seq<Seq<char>>, m: int, leaders: Seq<usize>)
    requires
        bk_leaders(ks, m, leaders),
        m < ks.len(),
    ensures
        bk_leaders(ks, m + 1, leaders),
{
}

proof fn lemma_cover_existing(ks: Seq<Seq<char>>, m: int, leaders: Seq<usize>, b: int)
    requires
        bk_cover(ks, m, leaders),
        0 <= b < leaders.len(),
        ks[leaders[b] as int] == ks[m],
    ensures
        bk_cover(ks, m + 1, leaders),
{
    assert forall|j: int| 0 <= j < m + 1 implies #[trigger] has_bucket(ks, leaders, ks[j]) by {
        if j == m {
            assert(0 <= b < leaders.len() && ks[leaders[b] as int] == ks[j]);
        }
    }
}

proof fn lemma_step_existing_lens(
    ks: Seq<Seq<char>>,
    m: int,
    leaders: Seq<usize>,
    old_b: Seq<Seq<usize>>,
    b: int,
)
    requires
        bk_leaders(ks, m, leaders),
        bk_lens(ks, m, leaders, old_b),
        m < ks.len(),
        0 <= b < leaders.len(),
        ks[leaders[b] as int] == ks[m],
    ensures
        bk_lens(ks, m + 1, leaders, old_b.update(b, old_b[b].push(m as usize))),
{
    let nb = old_b.update(b, old_b[b].push(m as usize));
    assert forall|c: int|
        0 <= c < leaders.len() implies #[trigger] nb[c].len() == count_eq(
        ks,
        ks[leaders[c] as int],
        m + 1,
    ) by {
        if c != b {
            assert(nb[c] == old_b[c]);
            if b < c {
                assert(leaders[b] < leaders[c]);
            } else {
                assert(leaders[c] < leaders[b]);
            }
            lemma_first_same(ks, leaders[c] as int, leaders[b] as int);
        }
    }
}

proof fn lemma_step_existing_entries(
    ks: Seq<Seq<char>>,
    m: int,
    leaders: Seq<usize>,
    old_b: Seq<Seq<usize>>,
    b: int,
)
    requires
        bk_lens(ks, m, leaders, old_b),
        bk_entries(ks, m, leaders, old_b),
        0 <= m < ks.len() <= usize::MAX,
        0 <= b < leaders.len(),
        ks[leaders[b] as int] == ks[m],
    ensures
        bk_entries(ks, m + 1, leaders, old_b.update(b, old_b[b].push(m as usize))),
{
    let nb = old_b.update(b, old_b[b].push(m as usize));
    assert forall|c: int, r: int| 0 <= c < leaders.len() && 0 <= r < nb[c].len() implies {
        &&& #[trigger] nb[c][r] < m + 1
        &&& ks[nb[c][r] as int] == ks[leaders[c] as int]
        &&& rank(ks, nb[c][r] as int) == r
    } by {
        if c == b && r == old_b[b].len() {
            assert(nb[c][r] == m);
        } else {
            assert(nb[c][r] == old_b[c][r]);
        }
    }
}

proof fn lemma_step_new(ks: Seq<Seq<char>>, m: int, leaders: Seq<usize>, old_b: Seq<Seq<usize>>)
    requires
        buckets_ok(ks, m, leaders, old_b),
        m < ks.len() <= usize::MAX,
        forall|c: int| 0 <= c < leaders.len() ==> ks[#[trigger] leaders[c] as int] != ks[m],
    ensures
        buckets_ok(ks, m + 1, leaders.push(m as usize), old_b.push(seq![m as usize])),
{
    reveal(buckets_ok);
    assert forall|j: int| 0 <= j < m implies ks[j] != ks[m] by {
        assert(has_bucket(ks, leaders, ks[j]));
        let c = choose|c: int|
            0 <= c < leaders.len() && ks[#[trigger] leaders[c] as int]
                == ks[j];
        assert(ks[leaders[c] as int] != ks[m]);
    }
    lemma_new_key(ks, m);
    lemma_count_zero(ks, ks[m], m);
    lemma_new_leaders(ks, m, leaders);
    lemma_new_lens(ks, m, leaders, old_b);
    lemma_new_entries(ks, m, leaders, old_b);
    lemma_new_cover(ks, m, leaders);
}

proof fn lemma_new_leaders(ks: Seq<Seq<char>>, m: int, leaders: Seq<usize>)
    requires
        bk_leaders(ks, m, leaders),
        m < ks.len() <= usize::MAX,
        first(ks, m) == m,
    ensures
        bk_leaders(ks, m + 1, leaders.push(m as usize)),
{
    let nl = leaders.push(m as usize);
    assert forall|b: int| 0 <= b < nl.len() implies first(ks, #[trigger] nl[b] as int) == nl[b] by {
        if b < leaders.len() {
            assert(nl[b] == leaders[b]);
        }
    }
}

proof fn lemma_new_lens(ks: Seq<Seq<char>>, m: int, leaders: Seq<usize>, old_b: Seq<Seq<usize>>)
    requires
        bk_lens(ks, m, leaders, old_b),
        0 <= m < ks.len() <= usize::MAX,
        forall|c: int| 0 <= c < leaders.len() ==> ks[#[trigger] leaders[c] as int] != ks[m],
        count_eq(ks, ks[m], m) == 0,
    ensures
        bk_lens(ks, m + 1, leaders.push(m as usize), old_b.push(seq![m as usize])),
{
    let nl = leaders.push(m as usize);
    let nb = old_b.push(seq![m as usize]);
    assert forall|c: int|
        0 <= c < nl.len() implies #[trigger] nb[c].len() == count_eq(
        ks,
        ks[nl[c] as int],
        m + 1,
    ) by {
        if c < leaders.len() {
            assert(nb[c] == old_b[c]);
            assert(nl[c] == leaders[c]);
            assert(ks[leaders[c] as int] != ks[m]);
        } else {
            assert(nb[c] == seq![m as usize]);
            assert(nl[c] == m);
        }
    }
}

proof fn lemma_new_entries(ks: Seq<Seq<char>>, m: int, leaders: Seq<usize>, old_b: Seq<Seq<usize>>)
    requires
        bk_lens(ks, m, leaders, old_b),
        bk_entries(ks, m, leaders, old_b),
        0 <= m < ks.len() <= usize::MAX,
        rank(ks, m) == 0,
    ensures
        bk_entries(ks, m + 1, leaders.push(m as usize), old_b.push(seq![m as usize])),
{
    let nl = leaders.push(m as usize);
    let nb = old_b.push(seq![m as usize]);
    assert forall|c: int, r: int| 0 <= c < nl.len() && 0 <= r < nb[c].len() implies {
        &&& #[trigger] nb[c][r] < m + 1
        &&& ks[nb[c][r] as int] == ks[nl[c] as int]
        &&& rank(ks, nb[c][r] as int) == r
    } by {
        if c == leaders.len() {
            assert(nb[c] == seq![m as usize]);
            assert(nb[c][r] == m);
            assert(nl[c] == m);
        } else {
            assert(nb[c][r] == old_b[c][r]);
            assert(nl[c] == leaders[c]);
        }
    }
}

proof fn lemma_new_cover(ks: Seq<Seq<char>>, m: int, leaders: Seq<usize>)
    requires
        bk_cover(ks, m, leaders),
        0 <= m < ks.len() <= usize::MAX,
    ensures
        bk_cover(ks, m + 1, leaders.push(m as usize)),
{
    let nl = leaders.push(m as usize);
    assert forall|j: int| 0 <= j < m + 1 implies #[trigger] has_bucket(ks, nl, ks[j]) by {
        if j == m {
            let c = leaders.len() as int;
            assert(0 <= c < nl.len() && ks[nl[c] as int] == ks[j]);
        } else {
            assert(has_bucket(ks, leaders, ks[j]));
            let c = choose|c: int|
                0 <= c < leaders.len() && ks[#[trigger] leaders[c] as int]
                    == ks[j];
            assert(0 <= c < nl.len() && ks[nl[c] as int] == ks[j]);
        }
    }
}

/// The leaders of a bucket structure are in range.
proof fn lemma_ok_leaders(ks: Seq<Seq<char>>, m: int, leaders: Seq<usize>, buckets: Seq<Seq<usize>>)
    requires
        buckets_ok(ks, m, leaders, buckets),
    ensures
        bk_leaders(ks, m, leaders),
        leaders.len() == buckets.len(),
{
    reveal(buckets_ok);
}

/// Sorts item indices into buckets by key, in order of first appearance.
fn make_buckets(keys: &Vec<String>) -> (res: (Vec<usize>, Vec<Vec<usize>>))
    ensures
        buckets_ok(
            key_views(keys@),
            keys@.len() as int,
            res.0@,
            res.1@.map_values(|v: Vec<usize>| v@),
        ),
{
    let ghost ks = key_views(keys@);
    let mut leaders: Vec<usize> = Vec::new();
    let mut buckets: Vec<Vec<usize>> = Vec::new();
    let mut m: usize = 0;
    assert(buckets@.map_values(|v: Vec<usize>| v@) =~= Seq::<Seq<usize>>::empty());
    proof {
        reveal(buckets_ok);
    }
    while m < keys.len()
        invariant
            ks == key_views(keys@),
            m <= keys@.len(),
            ks.len() == keys@.len(),
            buckets_ok(ks, m as int, leaders@, buckets@.map_values(|v: Vec<usize>| v@)),
        decreases keys.len() - m,
    {
        let ghost old_b = buckets@.map_values(|v: Vec<usize>| v@);
        proof {
            lemma_ok_leaders(ks, m as int, leaders@, old_b);
        }
        let mut b: usize = 0;
        let mut found = false;
        while !found && b < leaders.len()
            invariant
                m < keys@.len(),
                b <= leaders@.len(),
                forall|c: int| 0 <= c < b ==> keys@[#[trigger] leaders@[c] as int]@ != keys@[m as int]@,
                found ==> b < leaders@.len() && keys@[leaders@[b as int] as int]@ == keys@[m as int]@,
                buckets_ok(ks, m as int, leaders@, old_b),
                bk_leaders(ks, m as int, leaders@),
                ks.len() == keys@.len(),
            decreases leaders.len() - b + (if found { 0int } else { 1int }),
        {
            if keys[leaders[b]] == keys[m] {
                found = true;
            } else {
                b = b + 1;
            }
        }
        if found {
            proof {
                assert(ks[leaders@[b as int] as int] == keys@[leaders@[b as int] as int]@);
                lemma_step_existing(ks, m as int, leaders@, old_b, b as int);
            }
            let mut bucket = buckets.remove(b);
            bucket.push(m);
            buckets.insert(b, bucket);
            assert(buckets@.map_values(|v: Vec<usize>| v@) =~= old_b.update(
                b as int,
                old_b[b as int].push(m),
            ));
        } else {
            proof {
                assert forall|c: int| 0 <= c < leaders@.len() implies ks[#[trigger] leaders@[c] as int] != ks[m as int] by {
                    assert(ks[leaders@[c] as int] == keys@[leaders@[c] as int]@);
                }
                lemma_step_new(ks, m as int, leaders@, old_b);
            }
            leaders.push(m);
            let mut bucket: Vec<usize> = Vec::new();
            bucket.push(m);
            buckets.push(bucket);
            assert(buckets@.map_values(|v: Vec<usize>| v@) =~= old_b.push(seq![m]));
        }
        m = m + 1;
    }
    (leaders, buckets)
}

/// The items taken once round `r` has reached bucket `b`: every earlier
/// round, and this round up to the bucket whose leader is `lim`.
spec fn taken(ks: Seq<Seq<char>>, i: int, r: int, lim: int) -> bool {
    rank(ks, i) < r || (rank(ks, i) == r && first(ks, i) < lim)
}

/// The leader of bucket `b`, or past every leader.
spec fn lim_of(ks: Seq<Seq<char>>, leaders: Seq<usize>, b: int) -> int {
    if b < leaders.len() {
        leaders[b] as int
    } else {
        ks.len() as int
    }
}

proof fn lemma_perm_len(ord: Seq<usize>, n: nat)
    requires
        forall|p: int| 0 <= p < ord.len() ==> #[trigger] ord[p] < n,
        forall|i: usize| i < n ==> #[trigger] ord.contains(i),
        ord.no_duplicates(),
        n <= usize::MAX,
    ensures
        ord.len() == n,
{
    let oi = ord.map_values(|x: usize| x as int);
    assert(oi.no_duplicates()) by {
        assert forall|a: int, b: int| 0 <= a < oi.len() && 0 <= b < oi.len() && a != b implies oi[a]
            != oi[b] by {
            assert(ord[a] != ord[b]);
        }
    }
    assert(oi.to_set() =~= set_int_range(0, n as int)) by {
        assert forall|x: int| #[trigger] oi.to_set().contains(x) <==> set_int_range(
            0,
            n as int,
        ).contains(x) by {
            if 0 <= x < n {
                assert(ord.contains(x as usize));
                let p = choose|p: int| 0 <= p < ord.len() && ord[p] == x as usize;
                assert(oi[p] == x);
            }
            if oi.to_set().contains(x) {
                let p = choose|p: int| 0 <= p < oi.len() && oi[p] == x;
                assert(ord[p] < n);
            }
        }
    }
    oi.unique_seq_to_set();
    lemma_int_range(0, n as int);
}

/// The order in which `interleave` emits items with these keys.
fn round_robin_order(keys: &Vec<String>) -> (ord: Vec<usize>)
    ensures
        is_round_robin(key_views(keys@), ord@),
{
    let ghost ks = key_views(keys@);
    let (leaders, buckets) = make_buckets(keys);
    let ghost bv = buckets@.map_values(|v: Vec<usize>| v@);
    proof {
        lemma_ok_leaders(ks, ks.len() as int, leaders@, bv);
        reveal(buckets_ok);
    }
    let nb = buckets.len();
    let mut maxlen: usize = 0;
    let mut c: usize = 0;
    while c < nb
        invariant
            nb == buckets@.len(),
            c <= nb,
            forall|d: int| 0 <= d < c ==> buckets@[d]@.len() <= maxlen,
        decreases nb - c,
    {
        if buckets[c].len() > maxlen {
            maxlen = buckets[c].len();
        }
        c = c + 1;
    }
    let mut ord: Vec<usize> = Vec::new();
    let mut r: usize = 0;
    while r < maxlen
        invariant
            buckets_ok(ks, ks.len() as int, leaders@, bv),
            bk_leaders(ks, ks.len() as int, leaders@),
            bv == buckets@.map_values(|v: Vec<usize>| v@),
            nb == buckets@.len() == leaders@.len(),
            ks.len() == keys@.len(),
            r <= maxlen,
            forall|d: int| 0 <= d < nb ==> buckets@[d]@.len() <= maxlen,
            forall|p: int| 0 <= p < ord@.len() ==> #[trigger] ord@[p] < ks.len(),
            forall|p: int, q: int|
                0 <= p < q < ord@.len() ==> before(ks, #[trigger] ord@[p] as int, #[trigger] ord@[q] as int),
            forall|p: int| 0 <= p < ord@.len() ==> rank(ks, #[trigger] ord@[p] as int) < r,
            forall|i: usize| i < ks.len() && rank(ks, i as int) < r ==> #[trigger] ord@.contains(i),
        decreases maxlen - r,
    {
        proof {
            assert forall|i: usize|
                i < ks.len() && taken(ks, i as int, r as int, lim_of(ks, leaders@, 0)) implies #[trigger] ord@.contains(i) by {
                let bi = lemma_bucket_of(ks, leaders@, bv, i as int);
                if bi > 0 {
                    assert(leaders@[0] < leaders@[bi]);
                }
            }
        }
        let mut b: usize = 0;
        while b < nb
            invariant
                buckets_ok(ks, ks.len() as int, leaders@, bv),
                bk_leaders(ks, ks.len() as int, leaders@),
                bv == buckets@.map_values(|v: Vec<usize>| v@),
                nb == buckets@.len() == leaders@.len(),
                ks.len() == keys@.len(),
                r < maxlen,
                b <= nb,
                forall|p: int| 0 <= p < ord@.len() ==> #[trigger] ord@[p] < ks.len(),
                forall|p: int, q: int|
                    0 <= p < q < ord@.len() ==> before(ks, #[trigger] ord@[p] as int, #[trigger] ord@[q] as int),
                forall|p: int|
                    0 <= p < ord@.len() ==> taken(
                        ks,
                        #[trigger] ord@[p] as int,
                        r as int,
                        lim_of(ks, leaders@, b as int),
                    ),
                forall|i: usize|
                    i < ks.len() && taken(ks, i as int, r as int, lim_of(ks, leaders@, b as int))
                        ==> #[trigger] ord@.contains(i),
            decreases nb - b,
        {
            proof {
                lemma_ok_leaders(ks, ks.len() as int, leaders@, bv);
            }
            let ghost prev = ord@;
            if r < buckets[b].len() {
                let x = buckets[b][r];
                proof {
                    assert(bv[b as int] == buckets@[b as int]@);
                    reveal(buckets_ok);
                    assert(bk_entries(ks, ks.len() as int, leaders@, bv));
                    assert(ks[bv[b as int][r as int] as int] == ks[leaders@[b as int] as int]);
                    lemma_first_same(ks, x as int, leaders@[b as int] as int);
                    assert(rank(ks, x as int) == r);
                    assert(first(ks, x as int) == leaders@[b as int]);
                }
                ord.push(x);
            }
            proof {
                let old_lim = lim_of(ks, leaders@, b as int);
                let new_lim = lim_of(ks, leaders@, b + 1);
                assert forall|i: usize|
                    i < ks.len() && taken(ks, i as int, r as int, new_lim) implies #[trigger] ord@.contains(i) by {
                    if !taken(ks, i as int, r as int, old_lim) {
                        let bi = lemma_bucket_of(ks, leaders@, bv, i as int);
                        if bi < b {
                            assert(leaders@[bi] < leaders@[b as int]);
                        } else if bi > b {
                            assert(leaders@[b + 1] <= leaders@[bi]);
                        }
                        assert(bi == b);
                        assert(ord@.last() == i);
                    } else {
                        assert(prev.contains(i));
                        let p = choose|p: int| 0 <= p < prev.len() && prev[p] == i;
                        assert(ord@[p] == i);
                    }
                }
                assert forall|p: int| 0 <= p < ord@.len() implies taken(
                    ks,
                    #[trigger] ord@[p] as int,
                    r as int,
                    new_lim,
                ) by {
                    if b + 1 < nb {
                        assert(leaders@[b as int] < leaders@[b + 1]);
                    }
                    lemma_first(ks, ord@[p] as int);
                }
            }
            b = b + 1;
        }
        proof {
            assert forall|i: usize| i < ks.len() && rank(ks, i as int) < r + 1 implies #[trigger] ord@.contains(i) by {
                lemma_first(ks, i as int);
                assert(taken(ks, i as int, r as int, lim_of(ks, leaders@, nb as int)));
            }
        }
        r = r + 1;
        proof {
            if nb > 0 {
                assert forall|p: int| 0 <= p < ord@.len() implies rank(ks, #[trigger] ord@[p] as int) < r by {
                    let bi = lemma_bucket_of(ks, leaders@, bv, ord@[p] as int);
                    assert(taken(ks, ord@[p] as int, (r - 1) as int, lim_of(ks, leaders@, nb as int)));
                    lemma_first(ks, ord@[p] as int);
                }
            }
        }
    }
    proof {
        assert forall|i: usize| i < ks.len() implies #[trigger] ord@.contains(i) by {
            let bi = lemma_bucket_of(ks, leaders@, bv, i as int);
            assert(bv[bi] == buckets@[bi]@);
        }
        assert(ord@.no_duplicates()) by {
            assert forall|p: int, q: int| 0 <= p < ord@.len() && 0 <= q < ord@.len() && p != q implies ord@[p]
                != ord@[q] by {
                if p < q {
                    assert(before(ks, ord@[p] as int, ord@[q] as int));
                } else {
                    assert(before(ks, ord@[q] as int, ord@[p] as int));
                }
            }
        }
        assert(ks.len() == keys.len());
        lemma_perm_len(ord@, ks.len());
    }
    ord
}

/// Round-robin across topics, with `keys[i]` the topic of `items[i]`: the
/// result lists every item once, round by round (an item's round is how many
/// earlier items share its key), and within a round in the order in which
/// the keys first appeared.
pub fn interleave_by<T>(items: Vec<T>, keys: &Vec<String>) -> (res: Vec<T>)
    requires
        items@.len() == keys@.len(),
    ensures
        exists|ord: Seq<usize>|
            #[trigger] is_round_robin(key_views(keys@), ord) && res@ == ord.map_values(
                |i: usize| items@[i as int],
            ),
{
    let ghost orig = items@;
    let ord = round_robin_order(keys);
    let ghost ks = key_views(keys@);
    let mut slots: Vec<Option<T>> = Vec::new();
    for item in it: items
        invariant
            slots@ == it.seq().take(it.index() as int).map_values(|x: T| Some(x)),
            it.seq() == orig,
    {
        slots.push(Some(item));
        assert(slots@ =~= it.seq().take(it.index() + 1).map_values(|x: T| Some(x)));
    }
    assert(orig.take(orig.len() as int) =~= orig);
    let n = ord.len();
    let mut out: Vec<T> = Vec::new();
    let mut p: usize = 0;
    while p < n
        invariant
            is_round_robin(ks, ord@),
            n == ord@.len() == orig.len() == slots@.len(),
            p <= n,
            out@ == ord@.take(p as int).map_values(|i: usize| orig[i as int]),
            forall|j: int|
                0 <= j < n ==> #[trigger] slots@[j] == if ord@.take(p as int).contains(j as usize) {
                    None
                } else {
                    Some(orig[j])
                },
        decreases n - p,
    {
        let i = ord[p];
        proof {
            assert(!ord@.take(p as int).contains(i)) by {
                if ord@.take(p as int).contains(i) {
                    let q = choose|q: int| 0 <= q < p && ord@.take(p as int)[q] == i;
                    assert(before(ks, ord@[q] as int, ord@[p as int] as int));
                }
            }
        }
        let x = slots[i].take();
        match x {
            Some(v) => {
                out.push(v);
            },
            None => {
                assert(false);
            },
        }
        proof {
            assert(ord@.take(p + 1) =~= ord@.take(p as int).push(i));
            assert(out@ =~= ord@.take(p + 1).map_values(|i: usize| orig[i as int]));
            assert forall|j: int| 0 <= j < n implies #[trigger] slots@[j] == if ord@.take(
                p + 1,
            ).contains(j as usize) {
                None
            } else {
                Some(orig[j])
            } by {
                if j == i {
                    assert(ord@.take(p + 1)[p as int] == i);
                } else {
                    if ord@.take(p + 1).contains(j as usize) {
                        let q = choose|q: int| 0 <= q < p + 1 && #[trigger] ord@.take(p + 1)[q] == j as usize;
                        assert(ord@.take(p as int)[q] == j as usize);
                    }
                    if ord@.take(p as int).contains(j as usize) {
                        let q = choose|q: int| 0 <= q < p && #[trigger] ord@.take(p as int)[q] == j as usize;
                        assert(ord@.take(p + 1)[q] == j as usize);
                    }
                }
            }
        }
        p = p + 1;
    }
    assert(ord@.take(n as int) =~= ord@);
    out
}

proof fn lemma_count_all(ks: Seq<Seq<char>>, k: Seq<char>, m: int)
    requires
        0 <= m <= ks.len(),
        forall|j: int| 0 <= j < ks.len() ==> ks[j] == k,
    ensures
        count_eq(ks, k, m) == m,
    decreases m,
{
    if m > 0 {
        lemma_count_all(ks, k, m - 1);
    }
}

proof fn lemma_increasing_is_identity(ord: Seq<usize>, n: int)
    requires
        ord.len() == n,
        forall|p: int| 0 <= p < n ==> #[trigger] ord[p] < n,
        forall|p: int, q: int| 0 <= p < q < n ==> #[trigger] ord[p] < #[trigger] ord[q],
    ensures
        forall|p: int| 0 <= p < n ==> #[trigger] ord[p] == p,
{
    assert forall|p: int| 0 <= p < n implies #[trigger] ord[p] >= p by {
        lemma_increasing_lower(ord, n, p);
    }
    assert forall|p: int| 0 <= p < n implies #[trigger] ord[p] <= p by {
        lemma_increasing_upper(ord, n, p);
    }
}

proof fn lemma_increasing_lower(ord: Seq<usize>, n: int, p: int)
    requires
        ord.len() == n,
        0 <= p < n,
        forall|p: int, q: int| 0 <= p < q < n ==> #[trigger] ord[p] < #[trigger] ord[q],
    ensures
        ord[p] >= p,
    decreases p,
{
    if p > 0 {
        lemma_increasing_lower(ord, n, p - 1);
        assert(ord[p - 1] < ord[p]);
    }
}

proof fn lemma_increasing_upper(ord: Seq<usize>, n: int, p: int)
    requires
        ord.len() == n,
        0 <= p < n,
        forall|p: int| 0 <= p < n ==> #[trigger] ord[p] < n,
        forall|p: int, q: int| 0 <= p < q < n ==> #[trigger] ord[p] < #[trigger] ord[q],
    ensures
        ord[p] <= p,
    decreases n - p,
{
    if p < n - 1 {
        lemma_increasing_upper(ord, n, p + 1);
        assert(ord[p] < ord[p + 1]);
    }
}

/// Interleaving items that all share one topic changes nothing: they come
/// out in the order they went in.
pub proof fn law_one_topic_changes_nothing(ks: Seq<Seq<char>>, ord: Seq<usize>)
    requires
        is_round_robin(ks, ord),
        forall|i: int, j: int| 0 <= i < ks.len() && 0 <= j < ks.len() ==> ks[i] == ks[j],
    ensures
        forall|p: int| 0 <= p < ord.len() ==> #[trigger] ord[p] == p,
{
    let n = ks.len() as int;
    if n > 0 {
        let k = ks[0];
        assert forall|i: int| 0 <= i < n implies #[trigger] rank(ks, i) == i by {
            lemma_count_all(ks, k, i);
        }
        assert forall|p: int, q: int| 0 <= p < q < n implies #[trigger] ord[p] < #[trigger] ord[q] by {
            assert(before(ks, ord[p] as int, ord[q] as int));
            assert(rank(ks, ord[p] as int) == ord[p]);
            assert(rank(ks, ord[q] as int) == ord[q]);
        }
        lemma_increasing_is_identity(ord, n);
    }
}

/// Within one topic the order given is kept: of two items with the same
/// key, the earlier one comes out first.
pub proof fn law_order_within_a_topic_is_kept(ks: Seq<Seq<char>>, ord: Seq<usize>, p: int, q: int)
    requires
        is_round_robin(ks, ord),
        0 <= p < q < ord.len(),
        ks[ord[p] as int] == ks[ord[q] as int],
    ensures
        ord[p] < ord[q],
{
    let i = ord[p] as int;
    let j = ord[q] as int;
    assert(before(ks, i, j));
    lemma_first_same(ks, i, j);
    if j < i {
        lemma_rank_increases(ks, j, i);
    } else if i == j {
    }
}

/// Two items of the same round never share a topic.
pub proof fn law_a_round_has_one_item_per_topic(ks: Seq<Seq<char>>, i: int, j: int)
    requires
        0 <= i < j < ks.len(),
        rank(ks, i) == rank(ks, j),
    ensures
        ks[i] != ks[j],
{
    if ks[i] == ks[j] {
        lemma_rank_increases(ks, i, j);
    }
}

/// The topics of keyed items.
pub open spec fn keys_of<T>(items: Seq<(String, T)>) -> Seq<Seq<char>> {
    items.map_values(|p: (String, T)| p.0@)
}

/// Round-robin across topics so consecutive cards rarely come from the same
/// one. Each item comes with its topic; the result lists every item once,
/// round by round (an item's round is how many earlier items share its
/// topic), and within a round in the order in which the topics first
/// appeared. Interleaving is most of what makes review transfer rather than
/// becoming pattern-matching within a single subject.
pub fn interleave<T>(items: Vec<(String, T)>) -> (res: Vec<(String, T)>)
    ensures
        exists|ord: Seq<usize>|
            #[trigger] is_round_robin(keys_of(items@), ord) && res@ == ord.map_values(
                |i: usize| items@[i as int],
            ),
{
    let mut keys: Vec<String> = Vec::new();
    let mut i: usize = 0;
    while i < items.len()
        invariant
            i <= items@.len(),
            key_views(keys@) == keys_of(items@).take(i as int),
        decreases items@.len() - i,
    {
        let k = items[i].0.clone();
        let ghost kv = k@;
        let ghost prev = keys@;
        proof {
            assert(kv == items@[i as int].0@);
            assert(keys_of(items@)[i as int] == kv);
            assert(key_views(prev).len() == prev.len());
        }
        keys.push(k);
        proof {
            assert(key_views(keys@) =~= key_views(prev).push(kv));
            assert(key_views(keys@) =~= keys_of(items@).take(i + 1));
        }
        i = i + 1;
    }
    assert(key_views(keys@) =~= keys_of(items@));
    interleave_by(items, &keys)
}

} // verus!
