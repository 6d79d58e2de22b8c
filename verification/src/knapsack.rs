//! The four-list merge behind the Schroeppel–Shamir style searches: the
//! subset sums of each list (one per distinct sum, at most the target),
//! the totals of the first two lists, then every combination with the
//! last two.
use vstd::prelude::*;
use std::sync::atomic::AtomicBool;
use crate::model::{sum_nat, solvable, reach, sub_multiset, lemma_reach_split};
use crate::bignat::{BigNat, vals, big_add, big_sub, big_le};
use crate::stop::stop_requested;
use crate::masks::select_big;
use crate::engines::{Search, find_sum, to_big};
use crate::engines::quadrants::{quadrant_sums, distinct_pair_sums, quad_entries, pair_entries, lemma_solvable_split};

verus! {

/// Searches the four lists for subsets (one from each) whose sums add up
/// to `target`.  It answers `Done` only when no such subsets exist.
pub fn schroeppel_shamir_big(
    l0: &[BigNat],
    l1: &[BigNat],
    l2: &[BigNat],
    l3: &[BigNat],
    target: &BigNat,
    stop: &AtomicBool,
) -> (r: Search)
    requires
        l0.len() < 64,
        l1.len() < 64,
        l2.len() < 64,
        l3.len() < 64,
    ensures
        r matches Search::Found(sol) ==> sub_multiset(
            vals(sol@),
            vals(l0@) + vals(l1@) + vals(l2@) + vals(l3@),
        ) && sum_nat(vals(sol@)) == target@,
        r is Done ==> !solvable(vals(l0@) + vals(l1@) + vals(l2@) + vals(l3@), target@),
        r is Found || r is Done || r is Stopped,
{
    let ghost v01 = vals(l0@) + vals(l1@);
    let ghost v012 = v01 + vals(l2@);
    let s0 = quadrant_sums(l0, target);
    let s1 = quadrant_sums(l1, target);
    let s2 = quadrant_sums(l2, target);
    let s3 = quadrant_sums(l3, target);
    if stop_requested(stop) {
        return Search::Stopped;
    }
    let c01 = distinct_pair_sums(l0, &s0, l1, &s1, target);
    let mut i: usize = 0;
    while i < c01.len()
        invariant
            i <= c01.len(),
            l0.len() < 64 && l1.len() < 64 && l2.len() < 64 && l3.len() < 64,
            v012 == v01 + vals(l2@),
            v01 == vals(l0@) + vals(l1@),
            quad_entries(l0@, target@, s0@),
            quad_entries(l1@, target@, s1@),
            quad_entries(l2@, target@, s2@),
            quad_entries(l3@, target@, s3@),
            pair_entries(l0@, l1@, target@, c01@),
            forall|a: int, b: int, c: int|
                0 <= a < i && 0 <= b < s2.len() && 0 <= c < s3.len() ==> #[trigger] c01@[a].0@
                    + #[trigger] s2@[b].0@ + #[trigger] s3@[c].0@ != target@,
        decreases c01.len() - i,
    {
        let mut j: usize = 0;
        while j < s2.len()
            invariant
                i < c01.len(),
                j <= s2.len(),
                l0.len() < 64 && l1.len() < 64 && l2.len() < 64 && l3.len() < 64,
                v012 == v01 + vals(l2@),
                v01 == vals(l0@) + vals(l1@),
                quad_entries(l0@, target@, s0@),
                quad_entries(l1@, target@, s1@),
                quad_entries(l2@, target@, s2@),
                quad_entries(l3@, target@, s3@),
                pair_entries(l0@, l1@, target@, c01@),
                forall|a: int, b: int, c: int|
                    0 <= a < i && 0 <= b < s2.len() && 0 <= c < s3.len() ==> #[trigger] c01@[a].0@
                        + #[trigger] s2@[b].0@ + #[trigger] s3@[c].0@ != target@,
                forall|b: int, c: int|
                    0 <= b < j && 0 <= c < s3.len() ==> c01@[i as int].0@ + #[trigger] s2@[b].0@
                        + #[trigger] s3@[c].0@ != target@,
            decreases s2.len() - j,
        {
            if stop_requested(stop) {
                return Search::Stopped;
            }
            let ab = big_add(&c01[i].0, &s2[j].0);
            if big_le(&ab, target) {
                let rem = big_sub(target, &ab);
                match find_sum(&s3, &rem) {
                    Some(k) => {
                        let mut full = select_big(l0, c01[i].1);
                        let mut p1 = select_big(l1, c01[i].2);
                        let mut p2 = select_big(l2, s2[j].1);
                        let mut p3 = select_big(l3, s3[k].1);
                        let ghost (g0, g1, g2, g3) = (vals(full@), vals(p1@), vals(p2@), vals(p3@));
                        full.append(&mut p1);
                        full.append(&mut p2);
                        full.append(&mut p3);
                        proof {
                            assert(vals(full@) =~= ((g0 + g1) + g2) + g3);
                            crate::masks::lemma_picked_sub(vals(l0@), c01@[i as int].1);
                            crate::masks::lemma_picked_sub(vals(l1@), c01@[i as int].2);
                            crate::masks::lemma_picked_sub(vals(l2@), s2@[j as int].1);
                            crate::masks::lemma_picked_sub(vals(l3@), s3@[k as int].1);
                            crate::model::lemma_sub_multiset_concat(g0, vals(l0@), g1, vals(l1@));
                            crate::model::lemma_sub_multiset_concat(g0 + g1, v01, g2, vals(l2@));
                            crate::model::lemma_sub_multiset_concat((g0 + g1) + g2, v012, g3, vals(l3@));
                            crate::model::lemma_sum_nat_concat(g0, g1);
                            crate::model::lemma_sum_nat_concat(g0 + g1, g2);
                            crate::model::lemma_sum_nat_concat((g0 + g1) + g2, g3);
                        }
                        return Search::Found(full);
                    },
                    None => {},
                }
            }
            j += 1;
        }
        i += 1;
    }
    proof {
        if solvable(v012 + vals(l3@), target@) {
            let t = target@;
            lemma_solvable_split(v012, vals(l3@), t);
            let t012 = choose|x: nat| x <= t && #[trigger] reach(v012, x) && reach(vals(l3@), (t - x) as nat);
            lemma_reach_split(v01, vals(l2@), t012);
            let t01 = choose|x: nat| x <= t012 && #[trigger] reach(v01, x) && reach(vals(l2@), (t012 - x) as nat);
            lemma_reach_split(vals(l0@), vals(l1@), t01);
            let t0 = choose|x: nat| x <= t01 && #[trigger] reach(vals(l0@), x) && reach(vals(l1@), (t01 - x) as nat);
            let a = choose|a: int| 0 <= a < s0.len() && #[trigger] s0@[a].0@ == t0;
            let b = choose|b: int| 0 <= b < s1.len() && #[trigger] s1@[b].0@ == (t01 - t0) as nat;
            assert(s0@[a].0@ + s1@[b].0@ <= t);
            let ci = choose|ci: int| 0 <= ci < c01.len() && #[trigger] c01@[ci].0@ == s0@[a].0@ + s1@[b].0@;
            let cj = choose|cj: int| 0 <= cj < s2.len() && #[trigger] s2@[cj].0@ == (t012 - t01) as nat;
            let ck = choose|ck: int| 0 <= ck < s3.len() && #[trigger] s3@[ck].0@ == (t - t012) as nat;
            assert(c01@[ci].0@ + s2@[cj].0@ + s3@[ck].0@ == t);
        }
    }
    Search::Done
}

/// The same search on `u128` lists; a subset is returned as values.
pub fn schroeppel_shamir_u128(
    qa: &Vec<u128>,
    qb: &Vec<u128>,
    qc: &Vec<u128>,
    qd: &Vec<u128>,
    target: &BigNat,
    stop: &AtomicBool,
) -> (r: Search)
    requires
        qa.len() < 64,
        qb.len() < 64,
        qc.len() < 64,
        qd.len() < 64,
    ensures
        r matches Search::Found(sol) ==> sub_multiset(
            vals(sol@),
            crate::model::nats(qa@) + crate::model::nats(qb@) + crate::model::nats(qc@) + crate::model::nats(qd@),
        ) && sum_nat(vals(sol@)) == target@,
        r is Done ==> !solvable(
            crate::model::nats(qa@) + crate::model::nats(qb@) + crate::model::nats(qc@) + crate::model::nats(qd@),
            target@,
        ),
        r is Found || r is Done || r is Stopped,
{
    let a = to_big(qa);
    let b = to_big(qb);
    let c = to_big(qc);
    let d = to_big(qd);
    schroeppel_shamir_big(a.as_slice(), b.as_slice(), c.as_slice(), d.as_slice(), target, stop)
}

} // verus!
