use vstd::prelude::*;
use crate::bitmask::Bitmask;
use vstd::arithmetic::div_mod::{lemma_mod_self_0, lemma_small_mod};
use vstd::set_lib::{lemma_int_range, lemma_len_subset, set_int_range};
use crate::decl::{names, group_defs, ConstGroup, GroupDef};
use crate::error::FlagError;

verus! {

/// The index of the first occurrence of `x` in `v`, or -1.
pub open spec fn position(v: Seq<Seq<char>>, x: Seq<char>) -> int
    decreases v.len(),
{
    if v.len() == 0 {
        -1
    } else if v[0] == x {
        0
    } else {
        let p = position(v.drop_first(), x);
        if p < 0 {
            -1
        } else {
            p + 1
        }
    }
}

proof fn lemma_position(v: Seq<Seq<char>>, x: Seq<char>, p: int)
    requires
        (p == -1 && forall|j: int| 0 <= j < v.len() ==> v[j] != x) || (0 <= p < v.len() && v[p]
            == x && forall|j: int| 0 <= j < p ==> v[j] != x),
    ensures
        position(v, x) == p,
    decreases v.len(),
{
    if v.len() > 0 && v[0] != x {
        if p == -1 {
            lemma_position(v.drop_first(), x, -1);
        } else {
            lemma_position(v.drop_first(), x, p - 1);
        }
    }
}

/// What a name used in a group refers to.
#[derive(Clone, Copy, Debug, PartialEq, Eq, Structural)]
pub enum Target {
    /// The single flag with this bit index.
    Single(usize),
    /// The group with this index in the flattened group list.
    Group(usize),
    /// Nothing declared under this name.
    Unknown,
}

pub open spec fn group_names(g: Seq<GroupDef>) -> Seq<Seq<char>> {
    g.map_values(|d: GroupDef| d.0)
}

/// The target of the name `x`: a single flag first, then a group.
pub open spec fn target_of(s: Seq<Seq<char>>, g: Seq<GroupDef>, x: Seq<char>) -> Target {
    if position(s, x) >= 0 {
        Target::Single(position(s, x) as usize)
    } else if position(group_names(g), x) >= 0 {
        Target::Group(position(group_names(g), x) as usize)
    } else {
        Target::Unknown
    }
}

pub open spec fn targets(s: Seq<Seq<char>>, g: Seq<GroupDef>, xs: Seq<Seq<char>>) -> Seq<Target> {
    xs.map_values(|x: Seq<char>| target_of(s, g, x))
}

/// Every name that group `a` adds or removes.
pub open spec fn references(g: Seq<GroupDef>, a: int) -> Seq<Seq<char>> {
    g[a].1 + g[a].2
}

/// Group `a` adds or removes group `b`.
pub open spec fn depends_on(s: Seq<Seq<char>>, g: Seq<GroupDef>, a: int, b: int) -> bool {
    exists|k: int|
        0 <= k < references(g, a).len() && target_of(s, g, #[trigger] references(g, a)[k])
            == Target::Group(b as usize)
}

/// `c` lists groups each of which references the next, the last one the first.
pub open spec fn is_cycle(s: Seq<Seq<char>>, g: Seq<GroupDef>, c: Seq<int>) -> bool {
    &&& c.len() > 0
    &&& forall|k: int| 0 <= k < c.len() ==> 0 <= #[trigger] c[k] < g.len()
    &&& forall|k: int| 0 <= k < c.len() ==> depends_on(s, g, #[trigger] c[k], c[(k + 1) % (c.len() as int)])
}

/// The bits of a single flag, a group, or of nothing.
pub open spec fn target_bits(n: nat, vals: Seq<Seq<bool>>, t: Target) -> Seq<bool> {
    match t {
        Target::Single(i) => Seq::new(n, |b: int| b == i),
        Target::Group(j) => vals[j as int],
        Target::Unknown => Seq::new(n, |b: int| false),
    }
}

/// A group's bits: every bit of an addition, then without every bit of a removal.
pub open spec fn group_bits(n: nat, vals: Seq<Seq<bool>>, adds: Seq<Target>, rems: Seq<Target>) -> Seq<bool> {
    Seq::new(
        n,
        |b: int|
            (exists|k: int| 0 <= k < adds.len() && #[trigger] target_bits(n, vals, adds[k])[b])
                && !(exists|k: int| 0 <= k < rems.len() && #[trigger] target_bits(n, vals, rems[k])[b]),
    )
}

/// The bits of group `a` when the groups have the bits `vals`.
pub open spec fn eval_group(s: Seq<Seq<char>>, g: Seq<GroupDef>, vals: Seq<Seq<bool>>, a: int) -> Seq<bool> {
    group_bits(s.len(), vals, targets(s, g, g[a].1), targets(s, g, g[a].2))
}

pub open spec fn views(v: Seq<Bitmask>) -> Seq<Seq<bool>> {
    v.map_values(|m: Bitmask| m@)
}

/// The index of the first occurrence of `x` in `v`.
fn find_name(v: &Vec<String>, x: &String) -> (r: Option<usize>)
    ensures
        match r {
            Some(p) => p as int == position(names(v@), x@) && p < v@.len(),
            None => position(names(v@), x@) == -1,
        },
{
    let mut j: usize = 0;
    while j < v.len()
        invariant
            j <= v@.len(),
            forall|k: int| 0 <= k < j ==> names(v@)[k] != x@,
        decreases v@.len() - j,
    {
        if v[j] == *x {
            proof {
                lemma_position(names(v@), x@, j as int);
            }
            return Some(j);
        }
        j = j + 1;
    }
    proof {
        lemma_position(names(v@), x@, -1);
    }
    None
}

fn find_group(groups: &Vec<ConstGroup>, x: &String) -> (r: Option<usize>)
    ensures
        match r {
            Some(p) => p as int == position(group_names(group_defs(groups@)), x@) && p < groups@.len(),
            None => position(group_names(group_defs(groups@)), x@) == -1,
        },
{
    let ghost gn = group_names(group_defs(groups@));
    let mut j: usize = 0;
    while j < groups.len()
        invariant
            gn == group_names(group_defs(groups@)),
            j <= groups@.len(),
            forall|k: int| 0 <= k < j ==> gn[k] != x@,
        decreases groups@.len() - j,
    {
        if groups[j].name == *x {
            proof {
                lemma_position(gn, x@, j as int);
            }
            return Some(j);
        }
        j = j + 1;
    }
    proof {
        lemma_position(gn, x@, -1);
    }
    None
}

/// What the name `x` refers to.
pub fn lookup(singles: &Vec<String>, groups: &Vec<ConstGroup>, x: &String) -> (r: Target)
    ensures
        r == target_of(names(singles@), group_defs(groups@), x@),
{
    match find_name(singles, x) {
        Some(i) => Target::Single(i),
        None => match find_group(groups, x) {
            Some(j) => Target::Group(j),
            None => Target::Unknown,
        },
    }
}

/// The targets of the names `xs`.
fn lookup_all(singles: &Vec<String>, groups: &Vec<ConstGroup>, xs: &Vec<String>) -> (r: Vec<Target>)
    ensures
        r@ == targets(names(singles@), group_defs(groups@), names(xs@)),
{
    let ghost s = names(singles@);
    let ghost g = group_defs(groups@);
    let mut r: Vec<Target> = Vec::new();
    let mut k: usize = 0;
    while k < xs.len()
        invariant
            s == names(singles@),
            g == group_defs(groups@),
            k <= xs@.len(),
            r@ == targets(s, g, names(xs@)).take(k as int),
        decreases xs@.len() - k,
    {
        let t = lookup(singles, groups, &xs[k]);
        r.push(t);
        proof {
            assert(targets(s, g, names(xs@)).take(k + 1) =~= targets(s, g, names(xs@)).take(k as int).push(t));
        }
        k = k + 1;
    }
    proof {
        assert(targets(s, g, names(xs@)).take(k as int) =~= targets(s, g, names(xs@)));
    }
    r
}

/// The bits set by at least one of the first `upto` targets.
pub open spec fn any_bits(n: nat, vals: Seq<Seq<bool>>, ts: Seq<Target>, upto: int) -> Seq<bool> {
    Seq::new(n, |b: int| exists|k: int| 0 <= k < upto && #[trigger] target_bits(n, vals, ts[k])[b])
}

/// The targets can be evaluated against `vals`: flags below `n`, groups
/// within `vals`.
pub open spec fn targets_in_range(ts: Seq<Target>, n: nat, groups: nat) -> bool {
    forall|k: int|
        0 <= k < ts.len() ==> match #[trigger] ts[k] {
            Target::Single(i) => i < n,
            Target::Group(j) => j < groups,
            Target::Unknown => true,
        }
}

/// Every value has `n` bits in words of `w` bits.
pub open spec fn all_shaped(vals: Seq<Bitmask>, n: nat, w: nat) -> bool {
    forall|j: int|
        0 <= j < vals.len() ==> (#[trigger] vals[j]).wf() && vals[j].bit_count == n
            && vals[j].mask_bits == w
}

/// The bits of one target.
fn target_value(n: u32, mask_bits: u32, vals: &Vec<Bitmask>, t: Target) -> (r: Bitmask)
    requires
        Bitmask::shape_ok(n as nat, mask_bits as nat),
        all_shaped(vals@, n as nat, mask_bits as nat),
        targets_in_range(seq![t], n as nat, vals@.len()),
    ensures
        r.wf(),
        r.bit_count == n,
        r.mask_bits == mask_bits,
        r@ == target_bits(n as nat, views(vals@), t),
{
    assert(seq![t][0] == t);
    match t {
        Target::Single(i) => {
            let r = Bitmask::zero(n, mask_bits).with_bit(i as u32);
            assert(r@ =~= target_bits(n as nat, views(vals@), t));
            r
        },
        Target::Group(j) => {
            let r = vals[j].duplicate();
            assert(r@ =~= target_bits(n as nat, views(vals@), t));
            r
        },
        Target::Unknown => {
            let r = Bitmask::zero(n, mask_bits);
            assert(r@ =~= target_bits(n as nat, views(vals@), t));
            r
        },
    }
}

/// Evaluates a group: the union of its additions, less the union of its removals.
pub fn eval_targets(
    n: u32,
    mask_bits: u32,
    vals: &Vec<Bitmask>,
    adds: &Vec<Target>,
    rems: &Vec<Target>,
) -> (r: Bitmask)
    requires
        Bitmask::shape_ok(n as nat, mask_bits as nat),
        all_shaped(vals@, n as nat, mask_bits as nat),
        targets_in_range(adds@, n as nat, vals@.len()),
        targets_in_range(rems@, n as nat, vals@.len()),
    ensures
        r.wf(),
        r.bit_count == n,
        r.mask_bits == mask_bits,
        r@ == group_bits(n as nat, views(vals@), adds@, rems@),
{
    let ghost vs = views(vals@);
    let mut acc = Bitmask::zero(n, mask_bits);
    proof {
        assert(acc@ =~= any_bits(n as nat, vs, adds@, 0));
    }
    let mut k: usize = 0;
    while k < adds.len()
        invariant
            vs == views(vals@),
            Bitmask::shape_ok(n as nat, mask_bits as nat),
            all_shaped(vals@, n as nat, mask_bits as nat),
            targets_in_range(adds@, n as nat, vals@.len()),
            k <= adds@.len(),
            acc.wf(),
            acc.bit_count == n,
            acc.mask_bits == mask_bits,
            acc@ == any_bits(n as nat, vs, adds@, k as int),
        decreases adds@.len() - k,
    {
        proof {
            assert(seq![adds@[k as int]][0] == adds@[k as int]);
        }
        let v = target_value(n, mask_bits, vals, adds[k]);
        let ghost before = acc@;
        acc.add(&v);
        proof {
            assert forall|b: int| 0 <= b < n implies #[trigger] acc@[b] == any_bits(
                n as nat,
                vs,
                adds@,
                k + 1,
            )[b] by {
                if before[b] {
                    let w = choose|w: int| 0 <= w < k && #[trigger] target_bits(n as nat, vs, adds@[w])[b];
                }
                if any_bits(n as nat, vs, adds@, k + 1)[b] {
                    let w = choose|w: int| 0 <= w < k + 1 && #[trigger] target_bits(n as nat, vs, adds@[w])[b];
                    if w < k {
                        assert(before[b]);
                    }
                }
            }
            assert(acc@ =~= any_bits(n as nat, vs, adds@, k + 1));
        }
        k = k + 1;
    }
    let ghost added = acc@;
    let mut k: usize = 0;
    while k < rems.len()
        invariant
            vs == views(vals@),
            Bitmask::shape_ok(n as nat, mask_bits as nat),
            all_shaped(vals@, n as nat, mask_bits as nat),
            targets_in_range(rems@, n as nat, vals@.len()),
            k <= rems@.len(),
            added == any_bits(n as nat, vs, adds@, adds@.len() as int),
            acc.wf(),
            acc.bit_count == n,
            acc.mask_bits == mask_bits,
            acc@ == Seq::new(
                n as nat,
                |b: int| added[b] && !any_bits(n as nat, vs, rems@, k as int)[b],
            ),
        decreases rems@.len() - k,
    {
        proof {
            assert(seq![rems@[k as int]][0] == rems@[k as int]);
        }
        let v = target_value(n, mask_bits, vals, rems[k]);
        let ghost before = acc@;
        acc.remove(&v);
        proof {
            assert forall|b: int| 0 <= b < n implies #[trigger] acc@[b] == (added[b] && !any_bits(
                n as nat,
                vs,
                rems@,
                k + 1,
            )[b]) by {
                if any_bits(n as nat, vs, rems@, k as int)[b] {
                    let w = choose|w: int| 0 <= w < k && #[trigger] target_bits(n as nat, vs, rems@[w])[b];
                    assert(any_bits(n as nat, vs, rems@, k + 1)[b]);
                }
                if any_bits(n as nat, vs, rems@, k + 1)[b] {
                    let w = choose|w: int| 0 <= w < k + 1 && #[trigger] target_bits(n as nat, vs, rems@[w])[b];
                    if w < k {
                        assert(any_bits(n as nat, vs, rems@, k as int)[b]);
                    }
                }
            }
            assert(acc@ =~= Seq::new(
                n as nat,
                |b: int| added[b] && !any_bits(n as nat, vs, rems@, k + 1)[b],
            ));
        }
        k = k + 1;
    }
    proof {
        assert(acc@ =~= group_bits(n as nat, vs, adds@, rems@));
    }
    acc
}

/// Every group that the targets reference is resolved.
pub open spec fn deps_done(ts: Seq<Target>, done: Seq<bool>) -> bool {
    forall|k: int| 0 <= k < ts.len() && (#[trigger] ts[k]) is Group ==> done[ts[k]->Group_0 as int]
}

/// The number of groups not yet resolved.
pub open spec fn count_false(s: Seq<bool>) -> nat
    decreases s.len(),
{
    if s.len() == 0 {
        0
    } else {
        count_false(s.drop_last()) + if s.last() {
            0nat
        } else {
            1nat
        }
    }
}

proof fn lemma_count_false_update(s: Seq<bool>, i: int)
    requires
        0 <= i < s.len(),
        !s[i],
    ensures
        count_false(s.update(i, true)) + 1 == count_false(s),
    decreases s.len(),
{
    let t = s.update(i, true);
    if i == s.len() - 1 {
        assert(t.drop_last() =~= s.drop_last());
    } else {
        assert(t.drop_last() =~= s.drop_last().update(i, true));
        lemma_count_false_update(s.drop_last(), i);
    }
}

proof fn lemma_count_false_all(n: nat)
    ensures
        count_false(Seq::new(n, |b: int| false)) == n,
    decreases n,
{
    if n > 0 {
        assert(Seq::new(n, |b: int| false).drop_last() =~= Seq::new((n - 1) as nat, |b: int| false));
        lemma_count_false_all((n - 1) as nat);
    }
}

proof fn lemma_count_false_none(s: Seq<bool>)
    requires
        forall|i: int| 0 <= i < s.len() ==> s[i],
    ensures
        count_false(s) == 0,
    decreases s.len(),
{
    if s.len() > 0 {
        lemma_count_false_none(s.drop_last());
    }
}

proof fn lemma_count_false_zero(s: Seq<bool>)
    requires
        count_false(s) == 0,
    ensures
        forall|i: int| 0 <= i < s.len() ==> s[i],
    decreases s.len(),
{
    if s.len() > 0 {
        lemma_count_false_zero(s.drop_last());
        assert forall|i: int| 0 <= i < s.len() implies s[i] by {
            if i < s.len() - 1 {
                assert(s.drop_last()[i] == s[i]);
            }
        }
    }
}

proof fn lemma_position_bound(v: Seq<Seq<char>>, x: Seq<char>)
    ensures
        -1 <= position(v, x) < v.len(),
        position(v, x) >= 0 ==> v[position(v, x)] == x,
    decreases v.len(),
{
    if v.len() > 0 && v[0] != x {
        lemma_position_bound(v.drop_first(), x);
    }
}

pub proof fn lemma_target_bound(s: Seq<Seq<char>>, g: Seq<GroupDef>, x: Seq<char>)
    ensures
        match target_of(s, g, x) {
            Target::Single(i) => i < s.len(),
            Target::Group(j) => j < g.len(),
            Target::Unknown => true,
        },
{
    lemma_position_bound(s, x);
    lemma_position_bound(group_names(g), x);
}

proof fn lemma_targets_in_range(s: Seq<Seq<char>>, g: Seq<GroupDef>, xs: Seq<Seq<char>>)
    ensures
        targets_in_range(targets(s, g, xs), s.len(), g.len()),
{
    assert forall|k: int| 0 <= k < xs.len() implies match #[trigger] targets(s, g, xs)[k] {
        Target::Single(i) => i < s.len(),
        Target::Group(j) => j < g.len(),
        Target::Unknown => true,
    } by {
        lemma_position_bound(s, xs[k]);
        lemma_position_bound(group_names(g), xs[k]);
    }
}

/// The bits of a group do not depend on groups it does not reference.
proof fn lemma_group_bits_frame(
    n: nat,
    v1: Seq<Seq<bool>>,
    v2: Seq<Seq<bool>>,
    adds: Seq<Target>,
    rems: Seq<Target>,
)
    requires
        forall|k: int| 0 <= k < adds.len() && (#[trigger] adds[k]) is Group ==> v1[adds[k]->Group_0 as int] == v2[adds[k]->Group_0 as int],
        forall|k: int| 0 <= k < rems.len() && (#[trigger] rems[k]) is Group ==> v1[rems[k]->Group_0 as int] == v2[rems[k]->Group_0 as int],
    ensures
        group_bits(n, v1, adds, rems) == group_bits(n, v2, adds, rems),
{
    assert forall|k: int| 0 <= k < adds.len() implies target_bits(n, v1, adds[k]) == target_bits(n, v2, adds[k]) by {}
    assert forall|k: int| 0 <= k < rems.len() implies target_bits(n, v1, rems[k]) == target_bits(n, v2, rems[k]) by {}
    assert(group_bits(n, v1, adds, rems) =~= group_bits(n, v2, adds, rems));
}

/// An unresolved group that the targets reference, if any.
fn unresolved_dependency(adds: &Vec<Target>, rems: &Vec<Target>, done: &Vec<bool>) -> (r: Option<usize>)
    requires
        targets_in_range(adds@, 0x1_0000_0000, done@.len()),
        targets_in_range(rems@, 0x1_0000_0000, done@.len()),
    ensures
        match r {
            Some(b) => b < done@.len() && !done@[b as int] && ((exists|k: int| 0 <= k < adds@.len() && adds@[k] == Target::Group(b)) || (exists|k: int| 0 <= k < rems@.len() && rems@[k] == Target::Group(b))),
            None => deps_done(adds@, done@) && deps_done(rems@, done@),
        },
{
    let mut k: usize = 0;
    while k < adds.len()
        invariant
            targets_in_range(adds@, 0x1_0000_0000, done@.len()),
            k <= adds@.len(),
            forall|t: int| 0 <= t < k && (#[trigger] adds@[t]) is Group ==> done@[adds@[t]->Group_0 as int],
        decreases adds@.len() - k,
    {
        match adds[k] {
            Target::Group(b) => {
                assert(match adds@[k as int] {
                    Target::Single(i) => i < 0x1_0000_0000,
                    Target::Group(j) => j < done@.len(),
                    Target::Unknown => true,
                });
                if !done[b] {
                    return Some(b);
                }
            },
            _ => {},
        }
        k = k + 1;
    }
    let mut k: usize = 0;
    while k < rems.len()
        invariant
            targets_in_range(rems@, 0x1_0000_0000, done@.len()),
            deps_done(adds@, done@),
            k <= rems@.len(),
            forall|t: int| 0 <= t < k && (#[trigger] rems@[t]) is Group ==> done@[rems@[t]->Group_0 as int],
        decreases rems@.len() - k,
    {
        match rems[k] {
            Target::Group(b) => {
                assert(match rems@[k as int] {
                    Target::Single(i) => i < 0x1_0000_0000,
                    Target::Group(j) => j < done@.len(),
                    Target::Unknown => true,
                });
                if !done[b] {
                    return Some(b);
                }
            },
            _ => {},
        }
        k = k + 1;
    }
    None
}

/// A sequence of distinct numbers below `n` has at most `n` elements.
proof fn lemma_distinct_bound(p: Seq<int>, n: int)
    requires
        n >= 0,
        p.no_duplicates(),
        forall|k: int| 0 <= k < p.len() ==> 0 <= #[trigger] p[k] < n,
    ensures
        p.len() <= n,
{
    p.unique_seq_to_set();
    lemma_int_range(0, n);
    assert(p.to_set().subset_of(set_int_range(0, n)));
    lemma_len_subset(p.to_set(), set_int_range(0, n));
}

/// Follows `next` from `start` until a group repeats, and returns the
/// groups of the cycle that closes there.
#[verifier::rlimit(50)]
fn find_cycle(next: &Vec<usize>, start: usize, Ghost(live): Ghost<Seq<bool>>) -> (c: Vec<usize>)
    requires
        start < next@.len(),
        live.len() == next@.len(),
        live[start as int],
        forall|a: int| 0 <= a < next@.len() ==> #[trigger] next@[a] < next@.len(),
        forall|a: int| 0 <= a < next@.len() && #[trigger] live[a] ==> live[next@[a] as int],
    ensures
        c@.len() > 0,
        forall|k: int| 0 <= k < c@.len() ==> live[#[trigger] c@[k] as int],
        forall|k: int| 0 <= k < c@.len() ==> #[trigger] c@[k] < next@.len(),
        forall|k: int| 0 <= k < c@.len() ==> next@[#[trigger] c@[k] as int] == c@[(k + 1) % (c@.len() as int)],
{
    let n = next.len();
    let mut pos: Vec<usize> = Vec::new();
    let mut t: usize = 0;
    while t < n
        invariant
            n == next@.len(),
            t <= n,
            pos@.len() == t,
            forall|x: int| 0 <= x < t ==> pos@[x] == 0,
        decreases n - t,
    {
        pos.push(0);
        t = t + 1;
    }
    let mut path: Vec<usize> = Vec::new();
    let mut cur = start;
    while pos[cur] == 0
        invariant
            n == next@.len(),
            forall|a: int| 0 <= a < n ==> #[trigger] next@[a] < n,
            pos@.len() == n,
            cur < n,
            live.len() == n,
            live[cur as int],
            forall|a: int| 0 <= a < n && #[trigger] live[a] ==> live[next@[a] as int],
            forall|k: int| 0 <= k < path@.len() ==> live[#[trigger] path@[k] as int],
            path@.len() < n || pos@[cur as int] != 0,
            forall|k: int| 0 <= k < path@.len() ==> #[trigger] path@[k] < n && pos@[path@[k] as int] == k + 1,
            forall|x: int| 0 <= x < n && #[trigger] pos@[x] != 0 ==> pos@[x] - 1 < path@.len() && path@[pos@[x] - 1] == x,
            forall|k: int| 0 <= k < path@.len() - 1 ==> next@[#[trigger] path@[k] as int] == path@[k + 1],
            path@.len() > 0 ==> next@[path@[path@.len() - 1] as int] == cur,
        decreases n - path@.len(),
    {
        let ghost old_path = path@;
        pos.set(cur, path.len() + 1);
        path.push(cur);
        cur = next[cur];
        proof {
            let ip = path@.map_values(|x: usize| x as int);
            assert forall|i: int, j: int| 0 <= i < ip.len() && 0 <= j < ip.len() && i != j implies ip[i] != ip[j] by {
                assert(pos@[path@[i] as int] == i + 1);
                assert(pos@[path@[j] as int] == j + 1);
            }
            assert(ip.no_duplicates());
            if pos@[cur as int] == 0 {
                let longer = ip.push(cur as int);
                assert forall|i: int, j: int| 0 <= i < longer.len() && 0 <= j < longer.len() && i != j implies longer[i] != longer[j] by {
                    if i < ip.len() && j < ip.len() {
                    } else if i < ip.len() {
                        assert(pos@[path@[i] as int] == i + 1);
                    } else {
                        assert(pos@[path@[j] as int] == j + 1);
                    }
                }
                lemma_distinct_bound(longer, n as int);
            }
        }
    }
    let first = pos[cur] - 1;
    let mut c: Vec<usize> = Vec::new();
    let mut k = first;
    while k < path.len()
        invariant
            n == next@.len(),
            first < path@.len(),
            path@[first as int] == cur,
            first <= k <= path@.len(),
            c@ == path@.subrange(first as int, k as int),
            forall|j: int| 0 <= j < path@.len() ==> #[trigger] path@[j] < n,
            forall|j: int| 0 <= j < path@.len() ==> live[#[trigger] path@[j] as int],
            forall|j: int| 0 <= j < path@.len() - 1 ==> next@[#[trigger] path@[j] as int] == path@[j + 1],
            next@[path@[path@.len() - 1] as int] == cur,
        decreases path@.len() - k,
    {
        c.push(path[k]);
        proof {
            assert(path@.subrange(first as int, k + 1) =~= path@.subrange(first as int, k as int).push(path@[k as int]));
        }
        k = k + 1;
    }
    proof {
        assert forall|j: int| 0 <= j < c@.len() implies next@[#[trigger] c@[j] as int] == c@[(j + 1) % (c@.len() as int)] by {
            assert(c@[j] == path@[first + j]);
            if j + 1 < c@.len() {
                lemma_small_mod((j + 1) as nat, c@.len());
            } else {
                lemma_mod_self_0(c@.len() as int);
            }
        }
    }
    c
}

/// Every name that a group adds or removes is declared.
pub open spec fn all_known(s: Seq<Seq<char>>, g: Seq<GroupDef>) -> bool {
    forall|a: int, k: int|
        0 <= a < g.len() && 0 <= k < references(g, a).len() ==> target_of(
            s,
            g,
            #[trigger] references(g, a)[k],
        ) != Target::Unknown
}

/// Some groups reference each other in a cycle.
pub open spec fn has_cycle(s: Seq<Seq<char>>, g: Seq<GroupDef>) -> bool {
    exists|c: Seq<int>| is_cycle(s, g, c)
}

/// The group names of the groups `c`.
pub open spec fn cycle_names(g: Seq<GroupDef>, c: Seq<int>) -> Seq<Seq<char>> {
    c.map_values(|j: int| g[j].0)
}

proof fn lemma_depends(s: Seq<Seq<char>>, g: Seq<GroupDef>, a: int, b: int, adds: Seq<Target>, rems: Seq<Target>)
    requires
        0 <= a < g.len(),
        adds == targets(s, g, g[a].1),
        rems == targets(s, g, g[a].2),
        (exists|k: int| 0 <= k < adds.len() && adds[k] == Target::Group(b as usize)) || (exists|k: int|
            0 <= k < rems.len() && rems[k] == Target::Group(b as usize)),
    ensures
        depends_on(s, g, a, b),
{
    if exists|k: int| 0 <= k < adds.len() && adds[k] == Target::Group(b as usize) {
        let k = choose|k: int| 0 <= k < adds.len() && adds[k] == Target::Group(b as usize);
        assert(references(g, a)[k] == g[a].1[k]);
    } else {
        let k = choose|k: int| 0 <= k < rems.len() && rems[k] == Target::Group(b as usize);
        assert(references(g, a)[g[a].1.len() + k] == g[a].2[k]);
    }
}

/// The first position of an unknown target, if any.
fn first_unknown(ts: &Vec<Target>) -> (r: Option<usize>)
    ensures
        match r {
            Some(k) => k < ts@.len() && ts@[k as int] == Target::Unknown,
            None => forall|k: int| 0 <= k < ts@.len() ==> ts@[k] != Target::Unknown,
        },
{
    let mut k: usize = 0;
    while k < ts.len()
        invariant
            k <= ts@.len(),
            forall|t: int| 0 <= t < k ==> ts@[t] != Target::Unknown,
        decreases ts@.len() - k,
    {
        if ts[k] == Target::Unknown {
            return Some(k);
        }
        k = k + 1;
    }
    None
}

pub open spec fn tview(v: Seq<Vec<Target>>) -> Seq<Seq<Target>> {
    v.map_values(|t: Vec<Target>| t@)
}

/// The evaluated groups (`done`) have their bits in `vals`, computed from
/// groups that are themselves evaluated.
pub open spec fn table_ok(
    n: nat,
    w: nat,
    vals: Seq<Bitmask>,
    done: Seq<bool>,
    adds: Seq<Seq<Target>>,
    rems: Seq<Seq<Target>>,
) -> bool {
    &&& vals.len() == done.len()
    &&& adds.len() == done.len()
    &&& rems.len() == done.len()
    &&& all_shaped(vals, n, w)
    &&& forall|b: int| 0 <= b < done.len() ==> targets_in_range(#[trigger] adds[b], n, done.len())
    &&& forall|b: int| 0 <= b < done.len() ==> targets_in_range(#[trigger] rems[b], n, done.len())
    &&& forall|b: int|
        0 <= b < done.len() && #[trigger] done[b] ==> deps_done(adds[b], done) && deps_done(rems[b], done)
            && vals[b]@ == group_bits(n, views(vals), adds[b], rems[b])
}

/// Evaluates group `a`, whose referenced groups are all evaluated.
fn evaluate_into(
    n: u32,
    mask_bits: u32,
    vals: &mut Vec<Bitmask>,
    done: &mut Vec<bool>,
    a: usize,
    adds: &Vec<Target>,
    rems: &Vec<Target>,
    Ghost(at): Ghost<Seq<Seq<Target>>>,
    Ghost(rt): Ghost<Seq<Seq<Target>>>,
)
    requires
        Bitmask::shape_ok(n as nat, mask_bits as nat),
        table_ok(n as nat, mask_bits as nat, old(vals)@, old(done)@, at, rt),
        a < old(done)@.len(),
        !old(done)@[a as int],
        at[a as int] == adds@,
        rt[a as int] == rems@,
        deps_done(adds@, old(done)@),
        deps_done(rems@, old(done)@),
    ensures
        table_ok(n as nat, mask_bits as nat, final(vals)@, final(done)@, at, rt),
        final(done)@ == old(done)@.update(a as int, true),
{
    let ghost vals0 = vals@;
    let ghost dn = done@;
    let count = done.len();
    proof {
        assert(targets_in_range(at[a as int], n as nat, dn.len()));
    }
    let v = eval_targets(n, mask_bits, vals, adds, rems);
    vals.set(a, v);
    done.set(a, true);
    proof {
        assert forall|j: int| 0 <= j < count implies #[trigger] vals@[j].wf() && vals@[j].bit_count == n
            && vals@[j].mask_bits == mask_bits by {
            if j != a {
                assert(vals@[j] == vals0[j]);
            }
        }
        assert forall|b: int| 0 <= b < count && #[trigger] done@[b] implies deps_done(at[b], done@)
            && deps_done(rt[b], done@) && vals@[b]@ == group_bits(
            n as nat,
            views(vals@),
            at[b],
            rt[b],
        ) by {
            let ad = at[b];
            let rm = rt[b];
            assert(targets_in_range(ad, n as nat, count as nat));
            assert(targets_in_range(rm, n as nat, count as nat));
            assert forall|k: int| 0 <= k < ad.len() && (#[trigger] ad[k]) is Group implies views(
                vals0,
            )[ad[k]->Group_0 as int] == views(vals@)[ad[k]->Group_0 as int] by {
                let j = ad[k]->Group_0 as int;
                assert(match ad[k] {
                    Target::Single(i) => i < n,
                    Target::Group(j) => j < count,
                    Target::Unknown => true,
                });
                assert(dn[j]);
                assert(vals@[j] == vals0[j]);
            }
            assert forall|k: int| 0 <= k < rm.len() && (#[trigger] rm[k]) is Group implies views(
                vals0,
            )[rm[k]->Group_0 as int] == views(vals@)[rm[k]->Group_0 as int] by {
                let j = rm[k]->Group_0 as int;
                assert(match rm[k] {
                    Target::Single(i) => i < n,
                    Target::Group(j) => j < count,
                    Target::Unknown => true,
                });
                assert(dn[j]);
                assert(vals@[j] == vals0[j]);
            }
            lemma_group_bits_frame(n as nat, views(vals0), views(vals@), ad, rm);
            if b != a {
                assert(dn[b]);
                assert(vals@[b] == vals0[b]);
            }
        }
    }
}

/// Looks up every name of every group. `UnknownIdentifier` for the first
/// name, in group order, that nothing declares.
fn lookup_groups(singles: &Vec<String>, groups: &Vec<ConstGroup>) -> (r: Result<
    (Vec<Vec<Target>>, Vec<Vec<Target>>),
    FlagError,
>)
    ensures
        match r {
            Ok((add_t, rem_t)) => {
                &&& add_t@.len() == groups@.len()
                &&& rem_t@.len() == groups@.len()
                &&& forall|b: int|
                    0 <= b < groups@.len() ==> (#[trigger] add_t@[b])@ == targets(
                        names(singles@),
                        group_defs(groups@),
                        group_defs(groups@)[b].1,
                    )
                &&& forall|b: int|
                    0 <= b < groups@.len() ==> (#[trigger] rem_t@[b])@ == targets(
                        names(singles@),
                        group_defs(groups@),
                        group_defs(groups@)[b].2,
                    )
                &&& all_known(names(singles@), group_defs(groups@))
            },
            Err(FlagError::UnknownIdentifier { name, group }) => exists|a: int, k: int|
                0 <= a < groups@.len() && 0 <= k < references(group_defs(groups@), a).len()
                    && #[trigger] references(group_defs(groups@), a)[k] == name@ && target_of(
                    names(singles@),
                    group_defs(groups@),
                    name@,
                ) == Target::Unknown && group@ == group_defs(groups@)[a].0,
            Err(_) => false,
        },
{
    let ghost s = names(singles@);
    let ghost g = group_defs(groups@);
    let count = groups.len();
    let mut add_t: Vec<Vec<Target>> = Vec::new();
    let mut rem_t: Vec<Vec<Target>> = Vec::new();
    let mut a: usize = 0;
    while a < count
        invariant
            s == names(singles@),
            g == group_defs(groups@),
            count == groups@.len(),
            a <= count,
            add_t@.len() == a,
            rem_t@.len() == a,
            forall|b: int| 0 <= b < a ==> (#[trigger] add_t@[b])@ == targets(s, g, g[b].1),
            forall|b: int| 0 <= b < a ==> (#[trigger] rem_t@[b])@ == targets(s, g, g[b].2),
            forall|b: int, k: int|
                0 <= b < a && 0 <= k < references(g, b).len() ==> target_of(
                    s,
                    g,
                    #[trigger] references(g, b)[k],
                ) != Target::Unknown,
        decreases count - a,
    {
        let group = &groups[a];
        assert(g[a as int] == group.def());
        let adds = lookup_all(singles, groups, &group.additions);
        let rems = lookup_all(singles, groups, &group.removals);
        match first_unknown(&adds) {
            Some(k) => {
                proof {
                    assert(references(g, a as int)[k as int] == g[a as int].1[k as int]);
                }
                return Err(
                    FlagError::UnknownIdentifier {
                        name: group.additions[k].clone(),
                        group: group.name.clone(),
                    },
                );
            },
            None => {},
        }
        match first_unknown(&rems) {
            Some(k) => {
                proof {
                    assert(references(g, a as int)[g[a as int].1.len() + k] == g[a as int].2[k as int]);
                }
                return Err(
                    FlagError::UnknownIdentifier {
                        name: group.removals[k].clone(),
                        group: group.name.clone(),
                    },
                );
            },
            None => {},
        }
        proof {
            assert forall|k: int| 0 <= k < references(g, a as int).len() implies target_of(
                s,
                g,
                #[trigger] references(g, a as int)[k],
            ) != Target::Unknown by {
                if k < g[a as int].1.len() {
                    assert(references(g, a as int)[k] == g[a as int].1[k]);
                    assert(adds@[k] == target_of(s, g, g[a as int].1[k]));
                } else {
                    let k2 = k - g[a as int].1.len();
                    assert(references(g, a as int)[k] == g[a as int].2[k2]);
                    assert(rems@[k2] == target_of(s, g, g[a as int].2[k2]));
                }
            }
        }
        add_t.push(adds);
        rem_t.push(rems);
        a = a + 1;
    }
    Ok((add_t, rem_t))
}

/// The names of the groups `cycle`.
fn cycle_group_names(groups: &Vec<ConstGroup>, cycle: &Vec<usize>) -> (r: Vec<String>)
    requires
        forall|j: int| 0 <= j < cycle@.len() ==> #[trigger] cycle@[j] < groups@.len(),
    ensures
        names(r@) == cycle_names(group_defs(groups@), cycle@.map_values(|x: usize| x as int)),
{
    let ghost g = group_defs(groups@);
    let ghost c = cycle@.map_values(|x: usize| x as int);
    let mut found: Vec<String> = Vec::new();
    let mut k: usize = 0;
    while k < cycle.len()
        invariant
            g == group_defs(groups@),
            c == cycle@.map_values(|x: usize| x as int),
            forall|j: int| 0 <= j < cycle@.len() ==> #[trigger] cycle@[j] < groups@.len(),
            k <= cycle@.len(),
            names(found@) == cycle_names(g, c).take(k as int),
        decreases cycle@.len() - k,
    {
        let ghost before = found@;
        found.push(groups[cycle[k]].name.clone());
        proof {
            assert(g[cycle@[k as int] as int] == groups@[cycle@[k as int] as int].def());
            assert(names(found@) =~= names(before).push(groups@[cycle@[k as int] as int].name@));
            assert(cycle_names(g, c).take(k + 1) =~= cycle_names(g, c).take(k as int).push(
                g[cycle@[k as int] as int].0,
            ));
        }
        k = k + 1;
    }
    proof {
        assert(cycle_names(g, c).take(k as int) =~= cycle_names(g, c));
    }
    found
}

/// Each evaluated group has a rank below `next`, above the ranks of the
/// groups it references.
pub open spec fn ranked(done: Seq<bool>, rank: Seq<nat>, next: nat, at: Seq<Seq<Target>>, rt: Seq<Seq<Target>>) -> bool {
    &&& rank.len() == done.len()
    &&& forall|b: int| 0 <= b < done.len() && #[trigger] done[b] ==> rank[b] < next
    &&& forall|b: int, k: int|
        0 <= b < done.len() && done[b] && 0 <= k < at[b].len() && (#[trigger] at[b][k]) is Group
            ==> rank[at[b][k]->Group_0 as int] < rank[b]
    &&& forall|b: int, k: int|
        0 <= b < done.len() && done[b] && 0 <= k < rt[b].len() && (#[trigger] rt[b][k]) is Group
            ==> rank[rt[b][k]->Group_0 as int] < rank[b]
}

proof fn lemma_rank_step(
    done: Seq<bool>,
    rank: Seq<nat>,
    next: nat,
    at: Seq<Seq<Target>>,
    rt: Seq<Seq<Target>>,
    a: int,
)
    requires
        ranked(done, rank, next, at, rt),
        0 <= a < done.len(),
        !done[a],
        forall|b: int| 0 <= b < done.len() && #[trigger] done[b] ==> deps_done(at[b], done) && deps_done(rt[b], done),
        deps_done(at[a], done),
        deps_done(rt[a], done),
        forall|b: int| 0 <= b < done.len() ==> targets_in_range(#[trigger] at[b], 0x1_0000_0000, done.len()),
        forall|b: int| 0 <= b < done.len() ==> targets_in_range(#[trigger] rt[b], 0x1_0000_0000, done.len()),
    ensures
        ranked(done.update(a, true), rank.update(a, next), next + 1, at, rt),
{
    let d2 = done.update(a, true);
    let r2 = rank.update(a, next);
    assert forall|b: int, k: int|
        0 <= b < d2.len() && d2[b] && 0 <= k < at[b].len() && (#[trigger] at[b][k]) is Group implies r2[at[b][k]->Group_0 as int] < r2[b] by {
        let j = at[b][k]->Group_0 as int;
        assert(targets_in_range(at[b], 0x1_0000_0000, done.len()));
        assert(match at[b][k] {
            Target::Single(i) => i < 0x1_0000_0000,
            Target::Group(j) => j < done.len(),
            Target::Unknown => true,
        });
        if b == a {
            assert(done[j]);
        } else {
            assert(done[b]);
            assert(done[j]);
        }
    }
    assert forall|b: int, k: int|
        0 <= b < d2.len() && d2[b] && 0 <= k < rt[b].len() && (#[trigger] rt[b][k]) is Group implies r2[rt[b][k]->Group_0 as int] < r2[b] by {
        let j = rt[b][k]->Group_0 as int;
        assert(targets_in_range(rt[b], 0x1_0000_0000, done.len()));
        assert(match rt[b][k] {
            Target::Single(i) => i < 0x1_0000_0000,
            Target::Group(j) => j < done.len(),
            Target::Unknown => true,
        });
        if b == a {
            assert(done[j]);
        } else {
            assert(done[b]);
            assert(done[j]);
        }
    }
}

proof fn lemma_rank_chain(rank: Seq<nat>, c: Seq<int>, k: int)
    requires
        c.len() > 0,
        0 <= k <= c.len(),
        forall|t: int| 0 <= t < c.len() ==> 0 <= #[trigger] c[t] < rank.len(),
        forall|t: int| 0 <= t < c.len() ==> rank[c[(t + 1) % (c.len() as int)]] < rank[#[trigger] c[t]],
    ensures
        rank[c[k % (c.len() as int)]] + k <= rank[c[0]],
    decreases k,
{
    let n = c.len() as int;
    if k == 0 {
        lemma_small_mod(0, c.len());
    } else {
        lemma_rank_chain(rank, c, k - 1);
        lemma_small_mod((k - 1) as nat, c.len());
        assert(rank[c[k % n]] < rank[c[k - 1]]);
    }
}

/// A ranking that decreases along every reference leaves no cycle.
proof fn lemma_ranked_acyclic(s: Seq<Seq<char>>, g: Seq<GroupDef>, rank: Seq<nat>, next: nat, at: Seq<Seq<Target>>, rt: Seq<Seq<Target>>)
    requires
        g.len() <= usize::MAX,
        at.len() == g.len(),
        rt.len() == g.len(),
        forall|b: int| 0 <= b < g.len() ==> #[trigger] at[b] == targets(s, g, g[b].1),
        forall|b: int| 0 <= b < g.len() ==> #[trigger] rt[b] == targets(s, g, g[b].2),
        ranked(Seq::new(g.len(), |b: int| true), rank, next, at, rt),
    ensures
        !has_cycle(s, g),
{
    let done = Seq::new(g.len(), |b: int| true);
    if has_cycle(s, g) {
        let c = choose|c: Seq<int>| is_cycle(s, g, c);
        let n = c.len() as int;
        assert forall|t: int| 0 <= t < c.len() implies rank[c[(t + 1) % n]] < rank[#[trigger] c[t]] by {
            let a = c[t];
            let b = c[(t + 1) % n];
            assert(depends_on(s, g, a, b));
            let k = choose|k: int|
                0 <= k < references(g, a).len() && target_of(s, g, #[trigger] references(g, a)[k])
                    == Target::Group(b as usize);
            assert(done[a]);
            if k < g[a].1.len() {
                assert(references(g, a)[k] == g[a].1[k]);
                assert(at[a][k] == target_of(s, g, g[a].1[k]));
            } else {
                let k2 = k - g[a].1.len();
                assert(references(g, a)[k] == g[a].2[k2]);
                assert(rt[a][k2] == target_of(s, g, g[a].2[k2]));
            }
            lemma_target_bound(s, g, references(g, a)[k]);
        }
        lemma_rank_chain(rank, c, n);
        lemma_mod_self_0(n);
    }
}

/// Evaluates groups in passes over the groups in declaration order: each
/// pass evaluates every group whose referenced groups are all evaluated,
/// until a pass evaluates none. Then each group left references a group
/// that is left too, which `blocker` names.
#[verifier::rlimit(80)]
fn run_passes(
    n: u32,
    mask_bits: u32,
    add_t: &Vec<Vec<Target>>,
    rem_t: &Vec<Vec<Target>>,
    Ghost(s): Ghost<Seq<Seq<char>>>,
    Ghost(g): Ghost<Seq<GroupDef>>,
) -> (r: (Vec<Bitmask>, Vec<bool>, Vec<usize>, Ghost<(Seq<nat>, nat)>))
    requires
        Bitmask::shape_ok(n as nat, mask_bits as nat),
        n == s.len(),
        add_t@.len() == g.len(),
        rem_t@.len() == g.len(),
        forall|b: int| 0 <= b < g.len() ==> (#[trigger] add_t@[b])@ == targets(s, g, g[b].1),
        forall|b: int| 0 <= b < g.len() ==> (#[trigger] rem_t@[b])@ == targets(s, g, g[b].2),
    ensures
        table_ok(n as nat, mask_bits as nat, r.0@, r.1@, tview(add_t@), tview(rem_t@)),
        r.1@.len() == g.len(),
        r.2@.len() == g.len(),
        ranked(r.1@, r.3@.0, r.3@.1, tview(add_t@), tview(rem_t@)),
        forall|b: int| 0 <= b < g.len() ==> #[trigger] r.2@[b] < g.len(),
        forall|b: int|
            0 <= b < g.len() && !(#[trigger] r.1@[b]) ==> r.2@[b] < g.len() && !r.1@[r.2@[b] as int]
                && depends_on(s, g, b, r.2@[b] as int),
{
    let count = add_t.len();
    let ghost at = tview(add_t@);
    let ghost rt = tview(rem_t@);
    let mut vals: Vec<Bitmask> = Vec::new();
    let mut done: Vec<bool> = Vec::new();
    let mut blocker: Vec<usize> = Vec::new();
    let mut a: usize = 0;
    while a < count
        invariant
            a <= count,
            vals@.len() == a,
            done@.len() == a,
            blocker@.len() == a,
            Bitmask::shape_ok(n as nat, mask_bits as nat),
            all_shaped(vals@, n as nat, mask_bits as nat),
            forall|b: int| 0 <= b < a ==> !(#[trigger] done@[b]),
            forall|b: int| 0 <= b < a ==> #[trigger] blocker@[b] == 0,
        decreases count - a,
    {
        vals.push(Bitmask::zero(n, mask_bits));
        done.push(false);
        blocker.push(0);
        a = a + 1;
    }
    let mut remaining: usize = count;
    let ghost mut rank: Seq<nat> = Seq::new(count as nat, |b: int| 0nat);
    let ghost mut next_rank: nat = 0;
    proof {
        assert(done@ =~= Seq::new(count as nat, |b: int| false));
        lemma_count_false_all(count as nat);
        assert forall|b: int| 0 <= b < count implies targets_in_range(#[trigger] at[b], n as nat, count as nat) && targets_in_range(rt[b], n as nat, count as nat) by {
            lemma_targets_in_range(s, g, g[b].1);
            lemma_targets_in_range(s, g, g[b].2);
            assert(at[b] == add_t@[b]@);
            assert(rt[b] == rem_t@[b]@);
        }
        assert forall|b: int| 0 <= b < count implies targets_in_range(#[trigger] rt[b], n as nat, count as nat) by {
            lemma_targets_in_range(s, g, g[b].2);
            assert(rt[b] == rem_t@[b]@);
        }
        assert(table_ok(n as nat, mask_bits as nat, vals@, done@, at, rt));
    }
    // Passes over the groups in declaration order evaluate each group whose
    // referenced groups are all evaluated, until a pass evaluates none.
    let mut progress = true;
    while progress
        invariant
            n == s.len(),
            count == g.len(),
            Bitmask::shape_ok(n as nat, mask_bits as nat),
            at == tview(add_t@),
            rt == tview(rem_t@),
            add_t@.len() == count,
            rem_t@.len() == count,
            forall|b: int| 0 <= b < count ==> (#[trigger] add_t@[b])@ == targets(s, g, g[b].1),
            forall|b: int| 0 <= b < count ==> (#[trigger] rem_t@[b])@ == targets(s, g, g[b].2),
            done@.len() == count,
            blocker@.len() == count,
            table_ok(n as nat, mask_bits as nat, vals@, done@, at, rt),
            ranked(done@, rank, next_rank, at, rt),
            remaining == count_false(done@),
            forall|b: int| 0 <= b < count ==> #[trigger] blocker@[b] < count,
            !progress ==> forall|b: int|
                0 <= b < count && !(#[trigger] done@[b]) ==> blocker@[b] < count && !done@[blocker@[b] as int]
                    && depends_on(s, g, b, blocker@[b] as int),
        decreases remaining + if progress {
            1int
        } else {
            0int
        },
    {
        progress = false;
        let ghost remaining0 = remaining;
        let ghost done0 = done@;
        let mut a: usize = 0;
        while a < count
            invariant
                n == s.len(),
                count == g.len(),
                Bitmask::shape_ok(n as nat, mask_bits as nat),
                at == tview(add_t@),
                rt == tview(rem_t@),
                add_t@.len() == count,
                rem_t@.len() == count,
                forall|b: int| 0 <= b < count ==> (#[trigger] add_t@[b])@ == targets(s, g, g[b].1),
                forall|b: int| 0 <= b < count ==> (#[trigger] rem_t@[b])@ == targets(s, g, g[b].2),
                done@.len() == count,
                blocker@.len() == count,
                table_ok(n as nat, mask_bits as nat, vals@, done@, at, rt),
                ranked(done@, rank, next_rank, at, rt),
                remaining == count_false(done@),
                forall|b: int| 0 <= b < count ==> #[trigger] blocker@[b] < count,
                a <= count,
                !progress ==> remaining == remaining0 && done@ == done0,
                progress ==> remaining < remaining0,
                !progress ==> forall|b: int|
                    0 <= b < a && !(#[trigger] done@[b]) ==> blocker@[b] < count
                        && !done@[blocker@[b] as int] && depends_on(s, g, b, blocker@[b] as int),
            decreases count - a,
        {
            if !done[a] {
                proof {
                    assert(at[a as int] == add_t@[a as int]@);
                    assert(rt[a as int] == rem_t@[a as int]@);
                    assert(targets_in_range(at[a as int], n as nat, count as nat));
                    assert(targets_in_range(rt[a as int], n as nat, count as nat));
                    assert(targets_in_range(at[a as int], 0x1_0000_0000, count as nat));
                    assert(targets_in_range(rt[a as int], 0x1_0000_0000, count as nat));
                }
                match unresolved_dependency(&add_t[a], &rem_t[a], &done) {
                    Some(b) => {
                        proof {
                            lemma_depends(s, g, a as int, b as int, add_t@[a as int]@, rem_t@[a as int]@);
                        }
                        blocker.set(a, b);
                    },
                    None => {
                        let ghost dn = done@;
                        evaluate_into(n, mask_bits, &mut vals, &mut done, a, &add_t[a], &rem_t[a], Ghost(at), Ghost(rt));
                        proof {
                            lemma_count_false_update(dn, a as int);
                            assert forall|b: int| 0 <= b < count implies targets_in_range(#[trigger] at[b], 0x1_0000_0000, count as nat) by {
                                assert(targets_in_range(at[b], n as nat, count as nat));
                            }
                            assert forall|b: int| 0 <= b < count implies targets_in_range(#[trigger] rt[b], 0x1_0000_0000, count as nat) by {
                                assert(targets_in_range(rt[b], n as nat, count as nat));
                            }
                            lemma_rank_step(dn, rank, next_rank, at, rt, a as int);
                            rank = rank.update(a as int, next_rank);
                            next_rank = next_rank + 1;
                        }
                        remaining = remaining - 1;
                        progress = true;
                    },
                }
            }
            a = a + 1;
        }
    }
    (vals, done, blocker, Ghost((rank, next_rank)))
}

/// When every group is evaluated, the table holds the groups' bits and no
/// groups reference each other in a cycle.
proof fn lemma_all_done(
    s: Seq<Seq<char>>,
    g: Seq<GroupDef>,
    vals: Seq<Bitmask>,
    done: Seq<bool>,
    at: Seq<Seq<Target>>,
    rt: Seq<Seq<Target>>,
    rank: Seq<nat>,
    next: nat,
    n: nat,
    w: nat,
)
    requires
        g.len() <= usize::MAX,
        n == s.len(),
        done.len() == g.len(),
        forall|b: int| 0 <= b < g.len() ==> done[b],
        forall|b: int| 0 <= b < g.len() ==> #[trigger] at[b] == targets(s, g, g[b].1),
        forall|b: int| 0 <= b < g.len() ==> #[trigger] rt[b] == targets(s, g, g[b].2),
        table_ok(n, w, vals, done, at, rt),
        ranked(done, rank, next, at, rt),
    ensures
        forall|b: int| 0 <= b < vals.len() ==> (#[trigger] vals[b])@ == eval_group(s, g, views(vals), b),
        !has_cycle(s, g),
{
    assert forall|b: int| 0 <= b < vals.len() implies (#[trigger] vals[b])@ == eval_group(s, g, views(vals), b) by {
        assert(done[b]);
    }
    assert(done =~= Seq::new(g.len(), |b: int| true));
    lemma_ranked_acyclic(s, g, rank, next, at, rt);
}

/// Computes the bits of every group from the flattened declarations.
///
/// Fails with `UnknownIdentifier` when a group adds or removes a name that
/// nothing declares, and with `CyclicGroupReference`, naming the groups of
/// a cycle, when groups reference each other in a cycle. Otherwise each
/// group's bits are the union of the bits of its additions less those of
/// its removals, where a name stands for a single flag's bit or for the
/// bits of the group of that name.
#[verifier::rlimit(80)]
pub fn resolve(singles: &Vec<String>, groups: &Vec<ConstGroup>, mask_bits: u32) -> (r: Result<
    Vec<Bitmask>,
    FlagError,
>)
    requires
        Bitmask::shape_ok(singles@.len(), mask_bits as nat),
    ensures
        match r {
            Ok(vals) => {
                &&& vals@.len() == groups@.len()
                &&& all_shaped(vals@, singles@.len(), mask_bits as nat)
                &&& forall|a: int|
                    0 <= a < vals@.len() ==> (#[trigger] vals@[a])@ == eval_group(
                        names(singles@),
                        group_defs(groups@),
                        views(vals@),
                        a,
                    )
            },
            Err(FlagError::UnknownIdentifier { name, group }) => exists|a: int, k: int|
                0 <= a < groups@.len() && 0 <= k < references(group_defs(groups@), a).len()
                    && #[trigger] references(group_defs(groups@), a)[k] == name@ && target_of(
                    names(singles@),
                    group_defs(groups@),
                    name@,
                ) == Target::Unknown && group@ == group_defs(groups@)[a].0,
            Err(FlagError::CyclicGroupReference { names: found }) => exists|c: Seq<int>|
                is_cycle(names(singles@), group_defs(groups@), c) && names(found@) == cycle_names(
                    group_defs(groups@),
                    c,
                ),
            Err(_) => false,
        },
        r is Ok ==> all_known(names(singles@), group_defs(groups@)) && !has_cycle(
            names(singles@),
            group_defs(groups@),
        ),
        all_known(names(singles@), group_defs(groups@)) && !has_cycle(
            names(singles@),
            group_defs(groups@),
        ) ==> r is Ok,
{
    let ghost s = names(singles@);
    let ghost g = group_defs(groups@);
    let n: u32 = singles.len() as u32;
    let count = groups.len();
    let (add_t, rem_t) = match lookup_groups(singles, groups) {
        Ok(found) => found,
        Err(e) => {
            return Err(e);
        },
    };
    let ghost at = tview(add_t@);
    let ghost rt = tview(rem_t@);
    let (vals, done, blocker, ranks) = run_passes(n, mask_bits, &add_t, &rem_t, Ghost(s), Ghost(g));
    let mut start: usize = 0;
    while start < count && done[start]
        invariant
            start <= count,
            done@.len() == count,
            forall|b: int| 0 <= b < start ==> done@[b],
        decreases count - start,
    {
        start = start + 1;
    }
    if start == count {
        proof {
            lemma_all_done(s, g, vals@, done@, at, rt, ranks@.0, ranks@.1, n as nat, mask_bits as nat);
        }
        return Ok(vals);
    }
    // Some group is left, and each group left references one that is left
    // too: following those references closes a cycle.
    let ghost live = done@.map_values(|d: bool| !d);
    let cycle = find_cycle(&blocker, start, Ghost(live));
    let found = cycle_group_names(groups, &cycle);
    proof {
        let c = cycle@.map_values(|x: usize| x as int);
        assert forall|j: int| 0 <= j < c.len() implies depends_on(
            s,
            g,
            #[trigger] c[j],
            c[(j + 1) % c.len() as int],
        ) by {
            let x = cycle@[j];
            assert(blocker@[x as int] == cycle@[(j + 1) % (cycle@.len() as int)]);
            assert(live[x as int]);
        }
        assert(is_cycle(s, g, c));
    }
    Err(FlagError::CyclicGroupReference { names: found })
}

} // verus!
