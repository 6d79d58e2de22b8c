//! Solutions of three numbers (a pair and a looked-up third) and of four
//! (two pairs whose totals meet).
use vstd::prelude::*;
use std::sync::atomic::AtomicBool;
use crate::model::{sum_nat, is_solution};
use crate::bignat::{BigNat, vals, big_add, big_sub, big_le, big_eq};
use crate::profile::Profile;
use crate::stop::stop_requested;
use crate::sort::sort_asc;
use super::Search;

verus! {

broadcast use vstd::seq_lib::group_to_multiset_ensures, vstd::multiset::group_multiset_axioms;

/// The k-sum engine.
pub struct KSumEngine;

/// `pairs` holds `(a_i + a_j, i, j)` with `i < j`, sums strictly
/// increasing.
pub open spec fn pair_table(nums: Seq<nat>, pairs: Seq<(BigNat, usize, usize)>) -> bool {
    &&& forall|k: int|
        0 <= k < pairs.len() ==> (#[trigger] pairs[k]).1 < pairs[k].2 < nums.len() && pairs[k].0@ == nums[pairs[k].1 as int]
            + nums[pairs[k].2 as int]
    &&& forall|a: int, b: int| 0 <= a < b < pairs.len() ==> pairs[a].0@ < pairs[b].0@
}

/// Positions `i < j` whose values stay below `t` and whose complement
/// `t - v_i - v_j`, with them, fits in the numbers (each value used at
/// most as often as it occurs).
pub open spec fn three_at(vs: Seq<nat>, t: nat, i: int, j: int) -> bool {
    &&& 0 <= i < j < vs.len()
    &&& vs[i] + vs[j] < t
    &&& forall|k: int|
        0 <= k < 3 ==> triple(vs, t, i, j).to_multiset().count(#[trigger] triple(vs, t, i, j)[k]) <= vs.to_multiset().count(
            triple(vs, t, i, j)[k],
        )
}

/// The two values at `i` and `j` and their complement to `t`.
pub open spec fn triple(vs: Seq<nat>, t: nat, i: int, j: int) -> Seq<nat> {
    seq![vs[i], vs[j], (t - vs[i] - vs[j]) as nat]
}

/// Some three numbers of `vs` sum to `t`, found as a pair and a complement.
pub open spec fn has_three(vs: Seq<nat>, t: nat) -> bool {
    exists|i: int, j: int| #[trigger] three_at(vs, t, i, j)
}

/// The total of the values at `a` and `b`.
pub open spec fn pair_sum(vs: Seq<nat>, a: int, b: int) -> nat {
    vs[a] + vs[b]
}

/// Position pair `(a, b)` comes before `(i, j)` in the order the pairs are
/// walked (by first position, then by second).
pub open spec fn processed(a: int, b: int, i: int, j: int) -> bool {
    a < i || (a == i && b < j)
}

/// `(a, b)` is the first position pair, in walking order, whose values
/// total `s`.
pub open spec fn least_pair(vs: Seq<nat>, s: nat, a: int, b: int) -> bool {
    &&& 0 <= a < b < vs.len()
    &&& pair_sum(vs, a, b) == s
    &&& forall|c: int, d: int| 0 <= c < d < vs.len() && #[trigger] pair_sum(vs, c, d) == s ==> !processed(c, d, a, b)
}

/// `c` uses each of its values at most as often as `vs` holds it.
pub open spec fn fits_counts(c: Seq<nat>, vs: Seq<nat>) -> bool {
    forall|k: int| 0 <= k < c.len() ==> c.to_multiset().count(#[trigger] c[k]) <= vs.to_multiset().count(c[k])
}

/// The four-number step for the pair `(i, j)` finds nothing: its total is
/// not below `t`, or the first earlier pair totalling the rest (below `t`)
/// shares a position with it or needs a value more often than the numbers
/// hold it.
pub open spec fn four_dead(vs: Seq<nat>, t: nat, i: int, j: int) -> bool {
    pair_sum(vs, i, j) < t ==> forall|a: int, b: int|
        #[trigger] least_pair(vs, (t - pair_sum(vs, i, j)) as nat, a, b) && t - pair_sum(vs, i, j) < t && processed(a, b, i, j)
            ==> (a == i || a == j || b == i || b == j || !fits_counts(seq![vs[a], vs[b], vs[i], vs[j]], vs))
}

/// The first pair of a total is unique.
proof fn lemma_least_unique(vs: Seq<nat>, s: nat, a: int, b: int, c: int, d: int)
    requires
        least_pair(vs, s, a, b),
        least_pair(vs, s, c, d),
    ensures
        a == c && b == d,
{
    assert(pair_sum(vs, c, d) == s);
    assert(pair_sum(vs, a, b) == s);
}

/// Where `x` is among the sums of `pairs`: `(true, k)` when at `k`, else
/// `(false, k)` with every sum before `k` smaller and every other larger.
fn locate(pairs: &Vec<(BigNat, usize, usize)>, x: &BigNat) -> (r: (bool, usize))
    requires
        forall|a: int, b: int| 0 <= a < b < pairs.len() ==> pairs@[a].0@ < pairs@[b].0@,
    ensures
        r.1 <= pairs.len(),
        r.0 ==> r.1 < pairs.len() && pairs@[r.1 as int].0@ == x@,
        !r.0 ==> (forall|k: int| 0 <= k < r.1 ==> pairs@[k].0@ < x@) && (forall|k: int|
            r.1 <= k < pairs.len() ==> pairs@[k].0@ > x@),
{
    let mut lo: usize = 0;
    let mut hi: usize = pairs.len();
    while lo < hi
        invariant
            lo <= hi <= pairs.len(),
            forall|a: int, b: int| 0 <= a < b < pairs.len() ==> pairs@[a].0@ < pairs@[b].0@,
            forall|k: int| 0 <= k < lo ==> pairs@[k].0@ < x@,
            forall|k: int| hi <= k < pairs.len() ==> pairs@[k].0@ > x@,
        decreases hi - lo,
    {
        let mid = lo + (hi - lo) / 2;
        if big_eq(&pairs[mid].0, x) {
            return (true, mid);
        } else if big_le(&pairs[mid].0, x) {
            lo = mid + 1;
        } else {
            hi = mid;
        }
    }
    (false, lo)
}

/// The pair table after walking every pair before `(i, j)`: sorted by
/// total, each entry the first pair of its total (below `t`), every walked
/// pair below `t` has its total listed, and every walked pair's four-number
/// step found nothing.
pub open spec fn table_inv(vs: Seq<nat>, t: nat, pairs: Seq<(BigNat, usize, usize)>, i: int, j: int) -> bool {
    &&& pair_table(vs, pairs)
    &&& forall|k: int|
        0 <= k < pairs.len() ==> least_pair(vs, (#[trigger] pairs[k]).0@, pairs[k].1 as int, pairs[k].2 as int)
            && processed(pairs[k].1 as int, pairs[k].2 as int, i, j) && pairs[k].0@ < t
    &&& forall|a: int, b: int|
        0 <= a < b < vs.len() && processed(a, b, i, j) && #[trigger] pair_sum(vs, a, b) < t ==> exists|k: int|
            0 <= k < pairs.len() && (#[trigger] pairs[k]).0@ == pair_sum(vs, a, b)
    &&& forall|a: int, b: int| 0 <= a < b < vs.len() && processed(a, b, i, j) ==> #[trigger] four_dead(vs, t, a, b)
}

/// Starting row `i` walks nothing new.
proof fn lemma_row_start(vs: Seq<nat>, t: nat, pairs: Seq<(BigNat, usize, usize)>, i: int)
    requires
        table_inv(vs, t, pairs, i, i),
    ensures
        table_inv(vs, t, pairs, i, i + 1),
{
    assert forall|a: int, b: int| 0 <= a < b && processed(a, b, i, i + 1) implies processed(a, b, i, i) by {}
    assert forall|k: int| 0 <= k < pairs.len() implies processed((#[trigger] pairs[k]).1 as int, pairs[k].2 as int, i, i + 1) by {
        assert(processed(pairs[k].1 as int, pairs[k].2 as int, i, i));
    }
}

/// Finishing row `i` is starting row `i + 1`.
proof fn lemma_row_end(vs: Seq<nat>, t: nat, pairs: Seq<(BigNat, usize, usize)>, i: int)
    requires
        table_inv(vs, t, pairs, i, vs.len() as int),
    ensures
        table_inv(vs, t, pairs, i + 1, i + 1),
{
    assert forall|a: int, b: int| 0 <= a < b < vs.len() && processed(a, b, i + 1, i + 1) implies processed(a, b, i, vs.len() as int) by {}
    assert forall|k: int| 0 <= k < pairs.len() implies processed((#[trigger] pairs[k]).1 as int, pairs[k].2 as int, i + 1, i + 1) by {
        assert(processed(pairs[k].1 as int, pairs[k].2 as int, i, vs.len() as int));
    }
}

/// The four-number step for the pair `(i, j)`: look up the first earlier
/// pair with the complementary total and report the four numbers when they
/// fit; then list the pair's total if it is new.
fn four_step(p: &Profile, pairs: &mut Vec<(BigNat, usize, usize)>, i: usize, j: usize) -> (r: Option<Vec<BigNat>>)
    requires
        p.wf(),
        i < j < p.numbers.len(),
        table_inv(p.values(), p.target@, old(pairs)@, i as int, j as int),
    ensures
        r matches Some(sol) ==> is_solution(p.values(), vals(sol@), p.target@),
        r is None ==> table_inv(p.values(), p.target@, final(pairs)@, i as int, j + 1),
{
    let ghost vs = p.values();
    let ghost t = p.target@;
    let target = &p.target;
    let s = big_add(&p.numbers[i], &p.numbers[j]);
    proof {
        assert(vs[i as int] == p.numbers@[i as int]@);
        assert(vs[j as int] == p.numbers@[j as int]@);
        assert(s@ == pair_sum(vs, i as int, j as int));
    }
    if big_le(target, &s) {
        proof {
            assert(four_dead(vs, t, i as int, j as int));
            lemma_step_keep(vs, t, pairs@, i as int, j as int);
        }
        return None;
    }
    let comp = big_sub(target, &s);
    let (hit, at) = locate(pairs, &comp);
    if hit {
        let pi = pairs[at].1;
        let pj = pairs[at].2;
        proof {
            assert(least_pair(vs, pairs@[at as int].0@, pi as int, pj as int));
        }
        if pi != i && pi != j && pj != i && pj != j {
            let mut cand: Vec<BigNat> = Vec::new();
            cand.push(p.numbers[pi].copy());
            cand.push(p.numbers[pj].copy());
            cand.push(p.numbers[i].copy());
            cand.push(p.numbers[j].copy());
            proof {
                assert(vals(cand@) =~= seq![vs[pi as int], vs[pj as int], vs[i as int], vs[j as int]]);
            }
            if p.counts_fit(&cand) {
                let sol = sort_asc(&cand);
                proof {
                    assert(pairs@[at as int].0@ == vs[pi as int] + vs[pj as int]);
                    assert(sum_nat(vals(cand@)) == p.target@) by {
                        reveal_with_fuel(sum_nat, 5);
                    }
                    crate::model::lemma_perm_sum(vals(sol@), vals(cand@));
                }
                return Some(sol);
            }
            proof {
                let cs = seq![vs[pi as int], vs[pj as int], vs[i as int], vs[j as int]];
                assert(!fits_counts(cs, vs)) by {
                    let k = choose|k: int| 0 <= k < cand.len() && !(vals(cand@).to_multiset().count(#[trigger] cand@[k]@) <= vs.to_multiset().count(cand@[k]@));
                    assert(cs[k] == cand@[k]@);
                }
            }
        }
        proof {
            assert forall|a: int, b: int|
                #[trigger] least_pair(vs, (t - pair_sum(vs, i as int, j as int)) as nat, a, b) && t - pair_sum(vs, i as int, j as int) < t
                    && processed(a, b, i as int, j as int) implies (a == i || a == j || b == i || b == j || !fits_counts(
                seq![vs[a], vs[b], vs[i as int], vs[j as int]],
                vs,
            )) by {
                lemma_least_unique(vs, comp@, a, b, pi as int, pj as int);
            }
            assert(four_dead(vs, t, i as int, j as int));
        }
    } else {
        proof {
            assert forall|a: int, b: int|
                #[trigger] least_pair(vs, (t - pair_sum(vs, i as int, j as int)) as nat, a, b) && t - pair_sum(vs, i as int, j as int) < t
                    && processed(a, b, i as int, j as int) implies (a == i || a == j || b == i || b == j || !fits_counts(
                seq![vs[a], vs[b], vs[i as int], vs[j as int]],
                vs,
            )) by {
                assert(pair_sum(vs, a, b) < t);
                let k = choose|k: int| 0 <= k < pairs.len() && (#[trigger] pairs@[k]).0@ == pair_sum(vs, a, b);
                if k < at {
                    assert(pairs@[k].0@ < comp@);
                } else {
                    assert(pairs@[k].0@ > comp@);
                }
            }
            assert(four_dead(vs, t, i as int, j as int));
        }
    }
    let (present, pos) = locate(pairs, &s);
    if present {
        proof {
            lemma_step_keep(vs, t, pairs@, i as int, j as int);
        }
    } else {
        let ghost before = pairs@;
        pairs.insert(pos, (s, i, j));
        proof {
            lemma_step_insert(vs, t, before, pairs@, pos as int, i as int, j as int);
        }
    }
    None
}

/// After a pair whose total is below `t` and already listed, or not below
/// `t`, the table stands for the walk up to the next pair.
proof fn lemma_step_keep(vs: Seq<nat>, t: nat, pairs: Seq<(BigNat, usize, usize)>, i: int, j: int)
    requires
        0 <= i < j < vs.len(),
        table_inv(vs, t, pairs, i, j),
        four_dead(vs, t, i, j),
        pair_sum(vs, i, j) < t ==> exists|k: int| 0 <= k < pairs.len() && (#[trigger] pairs[k]).0@ == pair_sum(vs, i, j),
    ensures
        table_inv(vs, t, pairs, i, j + 1),
{
    assert forall|k: int| 0 <= k < pairs.len() implies processed((#[trigger] pairs[k]).1 as int, pairs[k].2 as int, i, j + 1) by {
        assert(processed(pairs[k].1 as int, pairs[k].2 as int, i, j));
    }
    assert forall|a: int, b: int|
        0 <= a < b < vs.len() && processed(a, b, i, j + 1) && #[trigger] pair_sum(vs, a, b) < t implies exists|k: int|
            0 <= k < pairs.len() && (#[trigger] pairs[k]).0@ == pair_sum(vs, a, b) by {
        if !(a == i && b == j) {
            assert(processed(a, b, i, j));
        }
    }
    assert forall|a: int, b: int| 0 <= a < b < vs.len() && processed(a, b, i, j + 1) implies #[trigger] four_dead(vs, t, a, b) by {
        if !(a == i && b == j) {
            assert(processed(a, b, i, j));
        }
    }
}

/// Listing the new total of the pair `(i, j)` at `pos` keeps the table
/// right for the walk up to the next pair.
proof fn lemma_step_insert(
    vs: Seq<nat>,
    t: nat,
    before: Seq<(BigNat, usize, usize)>,
    after: Seq<(BigNat, usize, usize)>,
    pos: int,
    i: int,
    j: int,
)
    requires
        0 <= i < j < vs.len(),
        table_inv(vs, t, before, i, j),
        four_dead(vs, t, i, j),
        pair_sum(vs, i, j) < t,
        0 <= pos <= before.len(),
        forall|k: int| 0 <= k < pos ==> before[k].0@ < pair_sum(vs, i, j),
        forall|k: int| pos <= k < before.len() ==> before[k].0@ > pair_sum(vs, i, j),
        after.len() == before.len() + 1,
        after[pos].0@ == pair_sum(vs, i, j),
        after[pos].1 == i,
        after[pos].2 == j,
        forall|k: int| 0 <= k < pos ==> after[k] == before[k],
        forall|k: int| pos < k < after.len() ==> after[k] == before[k - 1],
    ensures
        table_inv(vs, t, after, i, j + 1),
{
    let s = pair_sum(vs, i, j);
    assert forall|k: int| 0 <= k < after.len() implies (#[trigger] after[k]).1 < after[k].2 < vs.len()
        && after[k].0@ == vs[after[k].1 as int] + vs[after[k].2 as int] by {
        if k < pos {
            assert(after[k] == before[k]);
        } else if k > pos {
            assert(after[k] == before[k - 1]);
        }
    }
    assert forall|a: int, b: int| 0 <= a < b < after.len() implies after[a].0@ < after[b].0@ by {
        if a < pos {
            assert(after[a] == before[a]);
        } else if a > pos {
            assert(after[a] == before[a - 1]);
        }
        if b < pos {
            assert(after[b] == before[b]);
        } else if b > pos {
            assert(after[b] == before[b - 1]);
        }
    }
    assert(least_pair(vs, s, i, j)) by {
        assert forall|c: int, d: int| 0 <= c < d < vs.len() && #[trigger] pair_sum(vs, c, d) == s implies !processed(c, d, i, j) by {
            if processed(c, d, i, j) {
                let k = choose|k: int| 0 <= k < before.len() && (#[trigger] before[k]).0@ == pair_sum(vs, c, d);
                if k < pos {
                    assert(before[k].0@ < s);
                } else {
                    assert(before[k].0@ > s);
                }
            }
        }
    }
    assert forall|k: int|
        0 <= k < after.len() implies least_pair(vs, (#[trigger] after[k]).0@, after[k].1 as int, after[k].2 as int)
            && processed(after[k].1 as int, after[k].2 as int, i, j + 1) && after[k].0@ < t by {
        if k < pos {
            assert(after[k] == before[k]);
            assert(processed(before[k].1 as int, before[k].2 as int, i, j));
        } else if k > pos {
            assert(after[k] == before[k - 1]);
            assert(processed(before[k - 1].1 as int, before[k - 1].2 as int, i, j));
        }
    }
    assert forall|a: int, b: int|
        0 <= a < b < vs.len() && processed(a, b, i, j + 1) && #[trigger] pair_sum(vs, a, b) < t implies exists|k: int|
            0 <= k < after.len() && (#[trigger] after[k]).0@ == pair_sum(vs, a, b) by {
        if a == i && b == j {
            assert(after[pos].0@ == pair_sum(vs, a, b));
        } else {
            assert(processed(a, b, i, j));
            let k = choose|k: int| 0 <= k < before.len() && (#[trigger] before[k]).0@ == pair_sum(vs, a, b);
            if k < pos {
                assert(after[k] == before[k]);
            } else {
                assert(after[k + 1] == before[k]);
            }
        }
    }
    assert forall|a: int, b: int| 0 <= a < b < vs.len() && processed(a, b, i, j + 1) implies #[trigger] four_dead(vs, t, a, b) by {
        if !(a == i && b == j) {
            assert(processed(a, b, i, j));
        }
    }
}

impl KSumEngine {
    pub fn name(&self) -> (r: &'static str)
        ensures
            r@ == "KSum"@,
    {
        "KSum"
    }

    /// Three numbers: every pair below the target with the rest looked up
    /// among the values; then, for at most 300 numbers, four numbers: each
    /// pair below the target against the first earlier pair (on other
    /// positions) with the complementary total.  A candidate is reported
    /// (in increasing order) only if the numbers hold each of its values
    /// as often as it uses it.
    pub fn run(&self, p: &Profile, stop: &AtomicBool) -> (r: Search)
        requires
            p.wf(),
        ensures
            r matches Search::Found(sol) ==> is_solution(p.values(), vals(sol@), p.target@),
            r is Found || r is Done || r is Stopped,
            r is Done ==> !has_three(p.values(), p.target@),
            r is Done && p.n <= 300 ==> forall|i: int, j: int|
                0 <= i < j < p.n ==> #[trigger] four_dead(p.values(), p.target@, i, j),
    {
        let n = p.numbers.len();
        let target = &p.target;
        let mut i: usize = 0;
        while i < n
            invariant
                n == p.numbers.len(),
                target@ == p.target@,
                p.wf(),
                forall|a: int, b: int| 0 <= a < i ==> !#[trigger] three_at(p.values(), p.target@, a, b),
            decreases n - i,
        {
            if stop_requested(stop) {
                return Search::Stopped;
            }
            let mut j: usize = i + 1;
            while j < n
                invariant
                    i < n,
                    i < j,
                    n == p.numbers.len(),
                    target@ == p.target@,
                    p.wf(),
                    forall|a: int, b: int| 0 <= a < i ==> !#[trigger] three_at(p.values(), p.target@, a, b),
                    forall|b: int| b < j ==> !#[trigger] three_at(p.values(), p.target@, i as int, b),
                decreases n - j,
            {
                let two = big_add(&p.numbers[i], &p.numbers[j]);
                proof {
                    assert(p.values()[i as int] == p.numbers@[i as int]@);
                    assert(p.values()[j as int] == p.numbers@[j as int]@);
                }
                if big_le(target, &two) {
                    j += 1;
                    continue;
                }
                let c = big_sub(target, &two);
                if p.count_of(&c) == 0 {
                    proof {
                        let vs = p.values();
                        let cs = triple(vs, p.target@, i as int, j as int);
                        assert(cs[2] == c@);
                        assert(cs.to_multiset().count(cs[2]) >= 1);
                        assert(!three_at(vs, p.target@, i as int, j as int));
                    }
                    j += 1;
                    continue;
                }
                let mut cand: Vec<BigNat> = Vec::new();
                cand.push(p.numbers[i].copy());
                cand.push(p.numbers[j].copy());
                cand.push(c);
                if p.counts_fit(&cand) {
                    let sol = sort_asc(&cand);
                    proof {
                        assert(vals(cand@) =~= seq![p.numbers@[i as int]@, p.numbers@[j as int]@, cand@[2]@]);
                        assert(sum_nat(vals(cand@)) == p.target@) by {
                            reveal_with_fuel(sum_nat, 4);
                        }
                        crate::model::lemma_perm_sum(vals(sol@), vals(cand@));
                    }
                    return Search::Found(sol);
                }
                proof {
                    let vs = p.values();
                    let cs = triple(vs, p.target@, i as int, j as int);
                    assert(vals(cand@) =~= cs);
                    assert(!three_at(vs, p.target@, i as int, j as int)) by {
                        let k = choose|k: int| 0 <= k < cand.len() && !(vals(cand@).to_multiset().count(#[trigger] cand@[k]@) <= vs.to_multiset().count(cand@[k]@));
                        assert(cs[k] == cand@[k]@);
                    }
                }
                j += 1;
            }
            proof {
                assert forall|a: int, b: int| 0 <= a < i + 1 implies !#[trigger] three_at(p.values(), p.target@, a, b) by {
                    if a == i && b >= n {
                    }
                }
            }
            i += 1;
        }
        proof {
            assert forall|a: int, b: int| !#[trigger] three_at(p.values(), p.target@, a, b) by {
                if 0 <= a && a < n {
                }
            }
        }
        if n > 300 {
            return Search::Done;
        }
        let ghost vs = p.values();
        let ghost t = p.target@;
        let mut pairs: Vec<(BigNat, usize, usize)> = Vec::new();
        proof {
            assert(table_inv(vs, t, pairs@, 0, 0));
        }
        let mut i: usize = 0;
        while i < n
            invariant
                n == p.numbers.len(),
                i <= n,
                p.wf(),
                vs == p.values(),
                t == p.target@,
                !has_three(vs, t),
                table_inv(vs, t, pairs@, i as int, i as int),
            decreases n - i,
        {
            if stop_requested(stop) {
                return Search::Stopped;
            }
            proof {
                lemma_row_start(vs, t, pairs@, i as int);
            }
            let mut j: usize = i + 1;
            while j < n
                invariant
                    i < j <= n,
                    n == p.numbers.len(),
                    p.wf(),
                    vs == p.values(),
                    t == p.target@,
                    !has_three(vs, t),
                    table_inv(vs, t, pairs@, i as int, j as int),
                decreases n - j,
            {
                match four_step(p, &mut pairs, i, j) {
                    Some(sol) => {
                        return Search::Found(sol);
                    },
                    None => {},
                }
                j += 1;
            }
            proof {
                lemma_row_end(vs, t, pairs@, i as int);
            }
            i += 1;
        }
        proof {
            assert forall|a: int, b: int| 0 <= a < b < p.n implies #[trigger] four_dead(p.values(), p.target@, a, b) by {
                assert(processed(a, b, n as int, n as int));
            }
        }
        Search::Done
    }
}

} // verus!
