//! Subset sums of the quarters of a list, one entry per distinct sum, and
//! the sums of pairs of them: the tables behind the four-quadrant merge.
use vstd::prelude::*;
use crate::model::{reach, solvable, lemma_reach_iff_solvable};
use crate::bignat::{BigNat, vals, big_add, big_le, big_eq};
use crate::masks::{nat_mask_sum, fits, lemma_solvable_has_mask_nat};
use crate::sums::build_sums_big;
use crate::sort::sort_positions;

verus! {

/// `s` lists subsets of `l` (as masks) with sum at most `t`, sums
/// strictly increasing.
pub open spec fn quad_entries(l: Seq<BigNat>, t: nat, s: Seq<(BigNat, u64)>) -> bool {
    &&& forall|i: int|
        0 <= i < s.len() ==> fits(#[trigger] s[i].1, l.len()) && s[i].0@ == nat_mask_sum(vals(l), s[i].1)
            && s[i].0@ <= t
    &&& forall|i: int, j: int| 0 <= i < j < s.len() ==> s[i].0@ < s[j].0@
}

/// Every amount up to `t` reachable in `l` is the sum of an entry of `s`.
pub open spec fn quad_complete(l: Seq<BigNat>, t: nat, s: Seq<(BigNat, u64)>) -> bool {
    forall|v: nat|
        v <= t && #[trigger] reach(vals(l), v) ==> exists|i: int| 0 <= i < s.len() && #[trigger] s[i].0@ == v
}

/// One `(sum, mask)` per distinct subset sum of `l` that is at most
/// `target`, in increasing order of sum.
pub fn quadrant_sums(l: &[BigNat], target: &BigNat) -> (r: Vec<(BigNat, u64)>)
    requires
        l.len() < 64,
    ensures
        quad_entries(l@, target@, r@),
        quad_complete(l@, target@, r@),
{
    let all = build_sums_big(l, target);
    let mut r: Vec<(BigNat, u64)> = Vec::new();
    let mut k: usize = 0;
    while k < all.len()
        invariant
            k <= all.len(),
            l.len() < 64,
            forall|i: int|
                0 <= i < all.len() ==> fits(#[trigger] all@[i].1, l@.len()) && all@[i].0@ == nat_mask_sum(
                    vals(l@),
                    all@[i].1,
                ) && all@[i].0@ <= target@,
            forall|i: int, j: int| 0 <= i < j < all.len() ==> all@[i].0@ <= all@[j].0@,
            quad_entries(l@, target@, r@),
            k > 0 ==> r.len() > 0 && r@[r.len() - 1].0@ == all@[k - 1].0@,
            k == 0 ==> r.len() == 0,
            forall|j: int| #![trigger all@[j]] 0 <= j < k ==> exists|i: int| 0 <= i < r.len() && #[trigger] r@[i].0@ == all@[j].0@,
        decreases all.len() - k,
    {
        let fresh = r.len() == 0 || !big_eq(&r[r.len() - 1].0, &all[k].0);
        if fresh {
            let ghost before = r@;
            r.push((all[k].0.copy(), all[k].1));
            proof {
                assert forall|j: int| #![trigger all@[j]] 0 <= j < k + 1 implies exists|i: int| 0 <= i < r.len() && #[trigger] r@[i].0@ == all@[j].0@ by {
                    if j < k {
                        let i = choose|i: int| 0 <= i < before.len() && #[trigger] before[i].0@ == all@[j].0@;
                        assert(r@[i] == before[i]);
                    } else {
                        assert(r@[r.len() - 1].0@ == all@[j].0@);
                    }
                }
                if k > 0 {
                    assert(all@[k - 1].0@ <= all@[k as int].0@);
                    assert(before[before.len() - 1].0@ < all@[k as int].0@);
                }
                assert forall|a: int, b: int| 0 <= a < b < r.len() implies r@[a].0@ < r@[b].0@ by {
                    assert(r@[a] == before[a]);
                    if b < before.len() {
                        assert(r@[b] == before[b]);
                    } else if a < before.len() - 1 {
                        assert(before[a].0@ < before[before.len() - 1].0@);
                    }
                }
            }
        } else {
            proof {
                assert(r@[r.len() - 1].0@ == all@[k as int].0@);
            }
        }
        k += 1;
    }
    proof {
        assert forall|v: nat| v <= target@ && #[trigger] reach(vals(l@), v) implies exists|i: int|
            0 <= i < r.len() && #[trigger] r@[i].0@ == v by {
            lemma_reach_iff_solvable(vals(l@), v);
            lemma_solvable_has_mask_nat(vals(l@), v);
            let m = choose|m: u64| fits(m, vals(l@).len()) && #[trigger] nat_mask_sum(vals(l@), m) == v;
            let j = choose|j: int| 0 <= j < all.len() && #[trigger] all@[j].1 == m;
            assert(all@[j].0@ == v);
        }
    }
    r
}

/// `c` lists pairs of entries of `s0` and `s1` (by mask) whose sums add up
/// to at most `t`, with the total.
pub open spec fn pair_entries(
    l0: Seq<BigNat>,
    l1: Seq<BigNat>,
    t: nat,
    c: Seq<(BigNat, u64, u64)>,
) -> bool {
    forall|i: int|
        0 <= i < c.len() ==> fits(#[trigger] c[i].1, l0.len()) && fits(c[i].2, l1.len()) && c[i].0@
            == nat_mask_sum(vals(l0), c[i].1) + nat_mask_sum(vals(l1), c[i].2) && c[i].0@ <= t
}

/// Every total of an entry of `s0` and one of `s1` up to `t` is in `c`.
pub open spec fn pair_complete(
    s0: Seq<(BigNat, u64)>,
    s1: Seq<(BigNat, u64)>,
    t: nat,
    c: Seq<(BigNat, u64, u64)>,
) -> bool {
    forall|a: int, b: int|
        0 <= a < s0.len() && 0 <= b < s1.len() && #[trigger] s0[a].0@ + #[trigger] s1[b].0@ <= t ==> exists|i: int|
            0 <= i < c.len() && #[trigger] c[i].0@ == s0[a].0@ + s1[b].0@
}

/// Every total of an entry of `s0` and one of `s1` that is at most
/// `target`, each pair with its two masks.
fn pair_sums(
    l0: &[BigNat],
    s0: &Vec<(BigNat, u64)>,
    l1: &[BigNat],
    s1: &Vec<(BigNat, u64)>,
    target: &BigNat,
) -> (c: Vec<(BigNat, u64, u64)>)
    requires
        quad_entries(l0@, target@, s0@),
        quad_entries(l1@, target@, s1@),
    ensures
        pair_entries(l0@, l1@, target@, c@),
        pair_complete(s0@, s1@, target@, c@),
{
    let mut c: Vec<(BigNat, u64, u64)> = Vec::new();
    let mut a: usize = 0;
    while a < s0.len()
        invariant
            a <= s0.len(),
            quad_entries(l0@, target@, s0@),
            quad_entries(l1@, target@, s1@),
            pair_entries(l0@, l1@, target@, c@),
            forall|x: int, y: int|
                0 <= x < a && 0 <= y < s1.len() && #[trigger] s0@[x].0@ + #[trigger] s1@[y].0@ <= target@
                    ==> exists|i: int| 0 <= i < c.len() && #[trigger] c@[i].0@ == s0@[x].0@ + s1@[y].0@,
        decreases s0.len() - a,
    {
        let mut b: usize = 0;
        while b < s1.len()
            invariant
                a < s0.len(),
                b <= s1.len(),
                quad_entries(l0@, target@, s0@),
                quad_entries(l1@, target@, s1@),
                pair_entries(l0@, l1@, target@, c@),
                forall|x: int, y: int|
                    0 <= x < a && 0 <= y < s1.len() && #[trigger] s0@[x].0@ + #[trigger] s1@[y].0@ <= target@
                        ==> exists|i: int| 0 <= i < c.len() && #[trigger] c@[i].0@ == s0@[x].0@ + s1@[y].0@,
                forall|y: int|
                    0 <= y < b && #[trigger] s0@[a as int].0@ + s1@[y].0@ <= target@ ==> exists|i: int|
                        0 <= i < c.len() && #[trigger] c@[i].0@ == s0@[a as int].0@ + s1@[y].0@,
            decreases s1.len() - b,
        {
            let total = big_add(&s0[a].0, &s1[b].0);
            let ghost before = c@;
            if big_le(&total, target) {
                c.push((total, s0[a].1, s1[b].1));
                proof {
                    assert forall|i: int| 0 <= i < c.len() implies fits(#[trigger] c@[i].1, l0@.len()) && fits(
                        c@[i].2,
                        l1@.len(),
                    ) && c@[i].0@ == nat_mask_sum(vals(l0@), c@[i].1) + nat_mask_sum(vals(l1@), c@[i].2)
                        && c@[i].0@ <= target@ by {
                        if i < before.len() {
                            assert(c@[i] == before[i]);
                        }
                    }
                }
            }
            proof {
                assert forall|x: int, y: int|
                    0 <= x < a && 0 <= y < s1.len() && #[trigger] s0@[x].0@ + #[trigger] s1@[y].0@ <= target@
                        implies exists|i: int| 0 <= i < c.len() && #[trigger] c@[i].0@ == s0@[x].0@ + s1@[y].0@ by {
                    let i = choose|i: int| 0 <= i < before.len() && #[trigger] before[i].0@ == s0@[x].0@ + s1@[y].0@;
                    assert(c@[i] == before[i]);
                }
                assert forall|y: int|
                    0 <= y < b + 1 && #[trigger] s0@[a as int].0@ + s1@[y].0@ <= target@ implies exists|i: int|
                        0 <= i < c.len() && #[trigger] c@[i].0@ == s0@[a as int].0@ + s1@[y].0@ by {
                    if y < b {
                        let i = choose|i: int| 0 <= i < before.len() && #[trigger] before[i].0@ == s0@[a as int].0@ + s1@[y].0@;
                        assert(c@[i] == before[i]);
                    } else {
                        assert(c@[c.len() - 1].0@ == s0@[a as int].0@ + s1@[y].0@);
                    }
                }
            }
            b += 1;
        }
        a += 1;
    }
    c
}

/// One pair per distinct total: the totals of `s0` and `s1` entries up to
/// `target`, each with the masks of one pair that gives it.
pub fn distinct_pair_sums(
    l0: &[BigNat],
    s0: &Vec<(BigNat, u64)>,
    l1: &[BigNat],
    s1: &Vec<(BigNat, u64)>,
    target: &BigNat,
) -> (r: Vec<(BigNat, u64, u64)>)
    requires
        quad_entries(l0@, target@, s0@),
        quad_entries(l1@, target@, s1@),
    ensures
        pair_entries(l0@, l1@, target@, r@),
        pair_complete(s0@, s1@, target@, r@),
{
    let c = pair_sums(l0, s0, l1, s1, target);
    let mut keys: Vec<BigNat> = Vec::new();
    let mut k: usize = 0;
    while k < c.len()
        invariant
            k <= c.len(),
            keys.len() == k,
            forall|q: int| 0 <= q < k ==> #[trigger] keys@[q]@ == c@[q].0@,
        decreases c.len() - k,
    {
        keys.push(c[k].0.copy());
        k += 1;
    }
    let order = sort_positions(&keys, false);
    let mut r: Vec<(BigNat, u64, u64)> = Vec::new();
    let mut q: usize = 0;
    while q < order.len()
        invariant
            q <= order.len(),
            order.len() == c.len(),
            keys.len() == c.len(),
            forall|j: int| 0 <= j < order.len() ==> order@[j] < c.len(),
            forall|j: int| 0 <= j < c.len() ==> #[trigger] keys@[j]@ == c@[j].0@,
            pair_entries(l0@, l1@, target@, c@),
            pair_entries(l0@, l1@, target@, r@),
            forall|j: int| #![trigger order@[j]] 0 <= j < q ==> exists|i: int| 0 <= i < r.len() && #[trigger] r@[i].0@ == c@[order@[j] as int].0@,
            q > 0 ==> r.len() > 0 && r@[r.len() - 1].0@ == c@[order@[q - 1] as int].0@,
        decreases order.len() - q,
    {
        let src = &c[order[q]];
        let fresh = r.len() == 0 || !big_eq(&r[r.len() - 1].0, &src.0);
        if fresh {
            let ghost before = r@;
            r.push((src.0.copy(), src.1, src.2));
            proof {
                assert forall|i: int| 0 <= i < r.len() implies fits(#[trigger] r@[i].1, l0@.len()) && fits(
                    r@[i].2,
                    l1@.len(),
                ) && r@[i].0@ == nat_mask_sum(vals(l0@), r@[i].1) + nat_mask_sum(vals(l1@), r@[i].2)
                    && r@[i].0@ <= target@ by {
                    if i < before.len() {
                        assert(r@[i] == before[i]);
                    }
                }
                assert forall|j: int| #![trigger order@[j]] 0 <= j < q + 1 implies exists|i: int| 0 <= i < r.len() && #[trigger] r@[i].0@ == c@[order@[j] as int].0@ by {
                    if j < q {
                        let i = choose|i: int| 0 <= i < before.len() && #[trigger] before[i].0@ == c@[order@[j] as int].0@;
                        assert(r@[i] == before[i]);
                    } else {
                        assert(r@[r.len() - 1].0@ == c@[order@[j] as int].0@);
                    }
                }
            }
        } else {
            proof {
                assert(r@[r.len() - 1].0@ == c@[order@[q as int] as int].0@);
            }
        }
        q += 1;
    }
    proof {
        broadcast use vstd::seq_lib::group_to_multiset_ensures, vstd::multiset::group_multiset_axioms;
        assert forall|a: int, b: int|
            0 <= a < s0.len() && 0 <= b < s1.len() && #[trigger] s0@[a].0@ + #[trigger] s1@[b].0@ <= target@ implies exists|i: int|
                0 <= i < r.len() && #[trigger] r@[i].0@ == s0@[a].0@ + s1@[b].0@ by {
            let k = choose|k: int| 0 <= k < c.len() && #[trigger] c@[k].0@ == s0@[a].0@ + s1@[b].0@;
            let ps = crate::sort::positions(c.len() as nat);
            assert(ps[k] == k as usize);
            assert(ps.to_multiset().count(k as usize) > 0);
            assert(order@.contains(k as usize));
            let j = choose|j: int| 0 <= j < order.len() && order@[j] == k as usize;
            let i = choose|i: int| 0 <= i < r.len() && #[trigger] r@[i].0@ == c@[order@[j] as int].0@;
            assert(r@[i].0@ == c@[k].0@);
        }
    }
    r
}

/// The two parts of a subset-sum over `a + b`.
pub proof fn lemma_solvable_split(a: Seq<nat>, b: Seq<nat>, t: nat)
    requires
        solvable(a + b, t),
    ensures
        exists|t1: nat| t1 <= t && #[trigger] reach(a, t1) && reach(b, (t - t1) as nat),
{
    lemma_reach_iff_solvable(a + b, t);
    crate::model::lemma_reach_split(a, b, t);
}

} // verus!
