//! Lists kept in an order of precedence: the document within a frame, the
//! question queue, the sidebar.
//!
//! Each such list says which of two items may stand first; ties are left in
//! no particular order, as the store leaves them.

use vstd::prelude::*;

verus! {

/// Items that can be put in an order of precedence.
pub trait Ranked: Sized {
    /// `self` may stand before `other`.
    spec fn precedes(self, other: Self) -> bool;

    /// Of any two items, one may stand before the other.
    proof fn precedes_total(a: Self, b: Self)
        ensures
            a.precedes(b) || b.precedes(a),
    ;

    /// Precedence chains.
    proof fn precedes_transitive(a: Self, b: Self, c: Self)
        requires
            a.precedes(b),
            b.precedes(c),
        ensures
            a.precedes(c),
    ;

    /// Whether `self` may stand before `other`.
    fn may_precede(&self, other: &Self) -> (res: bool)
        ensures
            res == self.precedes(*other),
    ;
}

/// Every item may stand before every later one.
pub open spec fn in_order<T: Ranked>(s: Seq<T>) -> bool {
    forall|i: int, j: int| 0 <= i < j < s.len() ==> (#[trigger] s[i]).precedes(#[trigger] s[j])
}

/// Puts `x` into a list already in order, keeping it in order: after every
/// item that may stand before it, before the first that may not.
pub(crate) fn insert_in_order<T: Ranked>(out: &mut Vec<T>, x: T)
    requires
        in_order(old(out)@),
    ensures
        in_order(final(out)@),
        final(out)@.to_multiset() == old(out)@.to_multiset().insert(x),
{
    let mut j: usize = 0;
    while j < out.len() && out[j].may_precede(&x)
        invariant
            j <= out@.len(),
            forall|k: int| 0 <= k < j ==> (#[trigger] out@[k]).precedes(x),
        decreases out@.len() - j,
    {
        j = j + 1;
    }
    let ghost before = out@;
    proof {
        if j < before.len() {
            T::precedes_total(before[j as int], x);
            assert forall|k: int| j <= k < before.len() implies x.precedes(#[trigger] before[k]) by {
                if k > j {
                    T::precedes_transitive(x, before[j as int], before[k]);
                }
            }
        }
    }
    out.insert(j, x);
    proof {
        vstd::seq_lib::to_multiset_insert(before, j as int, x);
        assert forall|a: int, b: int| 0 <= a < b < out@.len() implies (#[trigger] out@[a]).precedes(
            #[trigger] out@[b],
        ) by {
            if b < j {
                assert(out@[a] == before[a] && out@[b] == before[b]);
            } else if b == j {
                assert(out@[a] == before[a]);
            } else if a == j {
                assert(out@[b] == before[b - 1]);
            } else if a < j {
                assert(out@[a] == before[a] && out@[b] == before[b - 1]);
            } else {
                assert(out@[a] == before[a - 1] && out@[b] == before[b - 1]);
            }
        }
    }
}

} // verus!
