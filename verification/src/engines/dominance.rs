//! Super-increasing instances: when every number exceeds the sum of all
//! smaller ones, greedy descent from the largest decides the instance.
use vstd::prelude::*;
use std::sync::atomic::AtomicBool;
use crate::model::{sum_nat, reach, solvable, is_solution, sub_multiset, lemma_reach_push, lemma_reach_le_sum, lemma_reach_iff_solvable};
use crate::bignat::{BigNat, vals, big_add, big_le, big_sub, big_eq};
use crate::profile::Profile;
use crate::stop::stop_requested;
use crate::sort::{sort_asc, asc_sorted};
use super::Search;

verus! {

/// The values in increasing order.
pub open spec fn ascending(s: Seq<nat>) -> Seq<nat> {
    s.sort_by(|x: nat, y: nat| x <= y)
}

/// Every value exceeds the sum of the values before it.
pub open spec fn super_increasing(s: Seq<nat>) -> bool {
    forall|i: int| 0 <= i < s.len() ==> #[trigger] s[i] > sum_nat(s.take(i))
}

/// An increasing arrangement of the values is the one `ascending` gives.
pub proof fn lemma_ascending_unique(s: Seq<nat>, t: Seq<nat>)
    requires
        asc_sorted(t),
        t.to_multiset() == s.to_multiset(),
    ensures
        t == ascending(s),
{
    let leq = |x: nat, y: nat| x <= y;
    assert(vstd::relations::total_ordering(leq));
    s.lemma_sort_by_ensures(leq);
    assert(vstd::relations::sorted_by(t, leq));
    vstd::seq_lib::lemma_sorted_unique(t, s.sort_by(leq), leq);
}

/// In a super-increasing sequence, the amounts reachable with the first
/// `j` values: the `j`-th is needed exactly when it fits.
proof fn lemma_greedy_step(s: Seq<nat>, j: int, rem: nat)
    requires
        super_increasing(s),
        0 < j <= s.len(),
    ensures
        s[j - 1] <= rem ==> reach(s.take(j), rem) == reach(s.take(j - 1), (rem - s[j - 1]) as nat),
        s[j - 1] > rem ==> reach(s.take(j), rem) == reach(s.take(j - 1), rem),
{
    let t = s.take(j - 1);
    let x = s[j - 1];
    assert(s.take(j) =~= t.push(x));
    lemma_reach_push(t, x, rem);
    assert(x > sum_nat(t));
    if reach(t, rem) && x <= rem {
        lemma_reach_le_sum(t, rem);
    }
}

/// Taking `s[j-1]` in front of a sub-multiset of `s[j..]` gives a
/// sub-multiset of `s[j-1..]`.
proof fn lemma_take_front(s: Seq<nat>, before: Seq<nat>, j: int)
    requires
        0 < j <= s.len(),
        sub_multiset(before, s.subrange(j, s.len() as int)),
    ensures
        sub_multiset(before.push(s[j - 1]), s.subrange(j - 1, s.len() as int)),
{
    broadcast use vstd::seq_lib::group_to_multiset_ensures, vstd::multiset::group_multiset_axioms;

    let n = s.len() as int;
    let x = s[j - 1];
    crate::model::lemma_sub_multiset_push(before, s.subrange(j, n), x);
    assert(s.subrange(j - 1, n) =~= seq![x] + s.subrange(j, n));
    vstd::seq_lib::lemma_multiset_commutative(seq![x], s.subrange(j, n));
    assert(s.subrange(j, n).push(x) =~= s.subrange(j, n) + seq![x]);
}

/// Whether the numbers, in increasing order, each exceed the sum of the
/// ones before them.
pub fn is_super_increasing(p: &Profile) -> (r: bool)
    requires
        p.wf(),
    ensures
        r == super_increasing(ascending(p.values())),
{
    let sorted = sort_asc(&p.numbers);
    let ghost s = vals(sorted@);
    proof {
        lemma_ascending_unique(p.values(), s);
    }
    let n = sorted.len();
    let mut acc = BigNat::zero();
    let mut k: usize = 0;
    while k < n
        invariant
            k <= n,
            n == sorted.len(),
            s == vals(sorted@),
            s == ascending(p.values()),
            acc@ == sum_nat(s.take(k as int)),
            forall|i: int| 0 <= i < k ==> #[trigger] s[i] > sum_nat(s.take(i)),
        decreases n - k,
    {
        if big_le(&sorted[k], &acc) {
            proof {
                assert(!(s[k as int] > sum_nat(s.take(k as int))));
                assert(!super_increasing(s));
            }
            return false;
        }
        proof {
            assert(s.take(k + 1) =~= s.take(k as int).push(s[k as int]));
            crate::model::lemma_sum_nat_push(s.take(k as int), s[k as int]);
        }
        acc = big_add(&acc, &sorted[k]);
        k += 1;
    }
    true
}

/// The engine.
pub struct DominanceEngine;

impl DominanceEngine {
    pub fn name(&self) -> (r: &'static str)
        ensures
            r@ == "Dominance"@,
    {
        "Dominance"
    }

    /// For at least three numbers: when they are super-increasing, greedy
    /// descent from the largest, which then finds a subset exactly when one
    /// exists.  Otherwise nothing is done.
    pub fn run(&self, p: &Profile, stop: &AtomicBool) -> (r: Search)
        requires
            p.wf(),
        ensures
            r matches Search::Found(sol) ==> is_solution(p.values(), vals(sol@), p.target@),
            r is Found || r is Done || r is Stopped,
            p.n < 3 ==> r is Done,
            p.n >= 3 && !super_increasing(ascending(p.values())) ==> r is Done,
            p.n >= 3 && super_increasing(ascending(p.values())) && !(r is Stopped) ==> (r is Found
                <==> solvable(p.values(), p.target@)),
    {
        if p.n < 3 {
            return Search::Done;
        }
        let sorted = sort_asc(&p.numbers);
        let ghost s = vals(sorted@);
        proof {
            lemma_ascending_unique(p.values(), s);
        }
        let n = sorted.len();
        let mut acc = BigNat::zero();
        let mut super_inc = true;
        let mut k: usize = 0;
        while k < n
            invariant_except_break
                super_inc,
            invariant
                k <= n,
                n == sorted.len(),
                s == vals(sorted@),
                acc@ == sum_nat(s.take(k as int)),
                forall|i: int| 0 <= i < k ==> #[trigger] s[i] > sum_nat(s.take(i)),
            ensures
                super_inc <==> super_increasing(s),
            decreases n - k,
        {
            if big_le(&sorted[k], &acc) {
                super_inc = false;
                proof {
                    assert(!(s[k as int] > sum_nat(s.take(k as int))));
                }
                break;
            }
            proof {
                assert(s.take(k + 1) =~= s.take(k as int).push(s[k as int]));
                crate::model::lemma_sum_nat_push(s.take(k as int), s[k as int]);
            }
            acc = big_add(&acc, &sorted[k]);
            k += 1;
        }
        if !super_inc {
            return Search::Done;
        }
        if stop_requested(stop) {
            return Search::Stopped;
        }
        let mut remaining = p.target.copy();
        let mut chosen: Vec<BigNat> = Vec::new();
        let mut j: usize = n;
        proof {
            assert(s.take(n as int) =~= s);
            crate::model::lemma_sub_multiset_empty(s.subrange(n as int, n as int));
            assert(vals(chosen@) =~= Seq::<nat>::empty());
        }
        while j > 0
            invariant
                j <= n,
                n == sorted.len(),
                s == vals(sorted@),
                super_increasing(s),
                p.wf(),
                p.n >= 3,
                s == ascending(p.values()),
                s.to_multiset() == p.values().to_multiset(),
                reach(s.take(j as int), remaining@) == reach(s, p.target@),
                sum_nat(vals(chosen@)) + remaining@ == p.target@,
                sub_multiset(vals(chosen@), s.subrange(j as int, n as int)),
            decreases j,
        {
            let x = &sorted[j - 1];
            proof {
                lemma_greedy_step(s, j as int, remaining@);
            }
            if big_le(x, &remaining) {
                let ghost before = chosen@;
                chosen.push(x.copy());
                remaining = big_sub(&remaining, x);
                proof {
                    assert(vals(chosen@) =~= vals(before).push(x@));
                    crate::model::lemma_sum_nat_push(vals(before), x@);
                    lemma_take_front(s, vals(before), j as int);
                }
                if big_eq(&remaining, &BigNat::zero()) {
                    proof {
                        crate::model::lemma_slice_sub(s, j - 1, n as int);
                        crate::model::lemma_sub_multiset_trans(vals(chosen@), s.subrange(j - 1, n as int), s);
                        super::lemma_perm_found(p, sorted@, chosen@);
                    }
                    return Search::Found(chosen);
                }
            } else {
                proof {
                    crate::model::lemma_suffix_sub(s, j - 1, j as int, n as int);
                    crate::model::lemma_sub_multiset_trans(vals(chosen@), s.subrange(j as int, n as int), s.subrange(j - 1, n as int));
                }
            }
            j -= 1;
        }
        proof {
            assert(s.take(0).len() == 0);
            lemma_reach_iff_solvable(s, p.target@);
            super::lemma_perm_solvable(s, p.values(), p.target@);
            if remaining@ == 0 {
                crate::model::lemma_slice_sub(s, 0, n as int);
                assert(s.subrange(0, n as int) =~= s);
            }
        }
        if big_eq(&remaining, &BigNat::zero()) {
            proof {
                super::lemma_perm_found(p, sorted@, chosen@);
            }
            return Search::Found(chosen);
        }
        Search::Done
    }
}

} // verus!
