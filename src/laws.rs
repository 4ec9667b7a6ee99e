//! Properties that relate several operations of the library.
use vstd::prelude::*;
use crate::bitmask::{complement, contains_all, contains_any, contains_none, count_true, Bitmask};
use crate::dep_graph::{group_bits, target_bits, Target};

verus! {

/// A set with every one of `n` flags counts `n` ones (so no zeros), and an
/// empty set counts no ones (so `n` zeros).
pub proof fn law_counts_of_all_and_none(n: nat)
    ensures
        count_true(Seq::new(n, |i: int| true)) == n,
        count_true(Seq::new(n, |i: int| false)) == 0,
    decreases n,
{
    if n > 0 {
        law_counts_of_all_and_none((n - 1) as nat);
        assert(Seq::new(n, |i: int| true).drop_last() =~= Seq::new((n - 1) as nat, |i: int| true));
        assert(Seq::new(n, |i: int| false).drop_last() =~= Seq::new((n - 1) as nat, |i: int| false));
    }
}

/// `a` has all of `b` exactly when `a AND b` is `b`; `a` has none of `b`
/// exactly when `a AND b` is empty; `a` has some of `b` exactly when it
/// does not have none of it.
pub proof fn law_membership_by_and(a: Seq<bool>, b: Seq<bool>)
    requires
        a.len() == b.len(),
    ensures
        contains_all(a, b) == (Seq::new(a.len(), |i: int| a[i] && b[i]) == b),
        contains_none(a, b) == (Seq::new(a.len(), |i: int| a[i] && b[i]) == Seq::new(
            a.len(),
            |i: int| false,
        )),
        contains_any(a, b) == !contains_none(a, b),
{
    let both = Seq::new(a.len(), |i: int| a[i] && b[i]);
    if contains_all(a, b) {
        assert(both =~= b);
    } else {
        let i = choose|i: int| 0 <= i < b.len() && #[trigger] b[i] && !a[i];
        assert(both[i] != b[i]);
    }
    if contains_none(a, b) {
        assert(both =~= Seq::new(a.len(), |i: int| false));
    } else {
        let i = choose|i: int| 0 <= i < b.len() && #[trigger] b[i] && a[i];
        assert(both[i]);
    }
}

/// Negating twice gives back the same flags and, on well-formed bitmasks,
/// the same words: negation keeps the unused bits clear.
pub proof fn law_double_negation(v: Bitmask, once: Bitmask, twice: Bitmask)
    requires
        v.wf(),
        once.wf(),
        twice.wf(),
        once.same_shape(v),
        twice.same_shape(v),
        once@ == complement(v@),
        twice@ == complement(once@),
    ensures
        twice@ == v@,
        twice.masks@ == v.masks@,
{
    assert(twice@ =~= v@);
    Bitmask::lemma_view_eq(twice, v);
}

/// A flag that a group removes is not in the group, even where the group
/// also adds it: all additions are applied before the removals.
pub proof fn law_removal_wins(n: nat, vals: Seq<Seq<bool>>, adds: Seq<Target>, rems: Seq<Target>, k: int, b: int)
    requires
        0 <= k < rems.len(),
        0 <= b < n,
        target_bits(n, vals, rems[k])[b],
    ensures
        !group_bits(n, vals, adds, rems)[b],
{
}

/// A group's bits depend only on which names it adds and removes, not on
/// their order or repetition.
pub proof fn law_order_free(
    n: nat,
    vals: Seq<Seq<bool>>,
    adds1: Seq<Target>,
    rems1: Seq<Target>,
    adds2: Seq<Target>,
    rems2: Seq<Target>,
)
    requires
        adds1.to_set() == adds2.to_set(),
        rems1.to_set() == rems2.to_set(),
    ensures
        group_bits(n, vals, adds1, rems1) == group_bits(n, vals, adds2, rems2),
{
    assert forall|b: int| 0 <= b < n implies group_bits(n, vals, adds1, rems1)[b] == group_bits(
        n,
        vals,
        adds2,
        rems2,
    )[b] by {
        lemma_any_same(n, vals, adds1, adds2, b);
        lemma_any_same(n, vals, rems1, rems2, b);
    }
    assert(group_bits(n, vals, adds1, rems1) =~= group_bits(n, vals, adds2, rems2));
}

proof fn lemma_any_same(n: nat, vals: Seq<Seq<bool>>, t1: Seq<Target>, t2: Seq<Target>, b: int)
    requires
        t1.to_set() == t2.to_set(),
    ensures
        (exists|k: int| 0 <= k < t1.len() && #[trigger] target_bits(n, vals, t1[k])[b]) == (exists|k: int|
            0 <= k < t2.len() && #[trigger] target_bits(n, vals, t2[k])[b]),
{
    if exists|k: int| 0 <= k < t1.len() && #[trigger] target_bits(n, vals, t1[k])[b] {
        let k = choose|k: int| 0 <= k < t1.len() && #[trigger] target_bits(n, vals, t1[k])[b];
        assert(t1.to_set().contains(t1[k]));
        assert(t2.to_set().contains(t1[k]));
        let j = choose|j: int| 0 <= j < t2.len() && t2[j] == t1[k];
        assert(target_bits(n, vals, t2[j])[b]);
    }
    if exists|k: int| 0 <= k < t2.len() && #[trigger] target_bits(n, vals, t2[k])[b] {
        let k = choose|k: int| 0 <= k < t2.len() && #[trigger] target_bits(n, vals, t2[k])[b];
        assert(t2.to_set().contains(t2[k]));
        assert(t1.to_set().contains(t2[k]));
        let j = choose|j: int| 0 <= j < t1.len() && t1[j] == t2[k];
        assert(target_bits(n, vals, t1[j])[b]);
    }
}

} // verus!
