//! The search engines and what they have in common.
use vstd::prelude::*;
use crate::model::{nats, sum_nat, sub_multiset, is_solution, solvable, lemma_nats_sub};
use crate::bignat::{BigNat, vals, big_from_u128};
use crate::profile::Profile;

pub mod gdep;
pub mod greedy;
pub mod tiny_brute;
pub mod schroeppel_shamir;
pub mod unified_solver;
pub mod quadrants;
pub mod digit_filter;
pub mod bridge;
pub mod ksum;
pub mod hash_mitm;
pub mod hard_u128;
pub mod turbospec;
pub mod quantum_grover;
pub mod dominance;
pub mod randomized;
pub mod split_solver;
pub mod group_decompose;
pub mod estimate;
pub mod distributed_solver;
pub mod recursive_density;
pub mod hgj;
pub mod bonnetain;
pub mod bcj;
pub mod lll;

verus! {

broadcast use vstd::seq_lib::group_to_multiset_ensures, vstd::multiset::group_multiset_axioms;

/// What an engine run ends with.
pub enum Search {
    /// A subset that sums to the target.
    Found(Vec<BigNat>),
    /// No subset sums to the target.
    Impossible,
    /// The engine finished without a subset.
    Done,
    /// The engine gave up because a stop was requested.
    Stopped,
    /// The target was found reachable but no subset is shown; every engine
    /// is asked to stop.
    StopAll,
}

/// A run never claims more than is true of the instance.
pub open spec fn sound(p: &Profile, r: &Search) -> bool {
    &&& r matches Search::Found(sol) ==> is_solution(p.values(), vals(sol@), p.target@)
    &&& r is Impossible ==> !solvable(p.values(), p.target@)
}

/// Outcome of a depth-first search.
pub enum Dfs {
    Hit,
    Miss,
    Halt,
}

/// The `u128` values as big naturals.
pub fn to_big(v: &Vec<u128>) -> (r: Vec<BigNat>)
    ensures
        vals(r@) == nats(v@),
{
    let mut r: Vec<BigNat> = Vec::new();
    let mut i: usize = 0;
    while i < v.len()
        invariant
            0 <= i <= v.len(),
            r.len() == i,
            forall|k: int| 0 <= k < i ==> #[trigger] r@[k]@ == v@[k] as nat,
        decreases v.len() - i,
    {
        r.push(big_from_u128(v[i]));
        i += 1;
    }
    proof {
        assert(vals(r@) =~= nats(v@));
    }
    r
}

/// A `u128` subset of the `u128` numbers of `p` summing to the target is a solution.
pub proof fn lemma_u128_found(p: &Profile, nums: Seq<u128>, sol: Seq<u128>, big: Seq<BigNat>)
    requires
        nats(nums) == p.values(),
        sub_multiset(sol, nums),
        sum_nat(nats(sol)) == p.target@,
        vals(big) == nats(sol),
    ensures
        is_solution(p.values(), vals(big), p.target@),
{
    lemma_nats_sub(sol, nums);
}

/// Sorts ascending, by the standard library's unstable slice sort.
#[verifier::external_body]
pub(crate) fn sort_u128(v: &mut Vec<u128>)
    ensures
        final(v)@.to_multiset() == old(v)@.to_multiset(),
        forall|i: int, j: int| 0 <= i < j < final(v)@.len() ==> final(v)@[i] <= final(v)@[j],
{
    v.sort_unstable();
}

/// A copy of `v`, largest first.
pub fn sorted_desc_u128(v: &Vec<u128>) -> (r: Vec<u128>)
    ensures
        r@.to_multiset() == v@.to_multiset(),
        forall|i: int, j: int| 0 <= i < j < r@.len() ==> r@[i] >= r@[j],
{
    let mut a = v.clone();
    proof {
        assert(a@ =~= v@);
    }
    sort_u128(&mut a);
    let mut r: Vec<u128> = Vec::new();
    let mut k: usize = a.len();
    while k > 0
        invariant
            k <= a.len(),
            forall|i: int, j: int| 0 <= i < j < a@.len() ==> a@[i] <= a@[j],
            r.len() == a.len() - k,
            forall|q: int| 0 <= q < r.len() ==> #[trigger] r@[q] == a@[a.len() - 1 - q],
        decreases k,
    {
        k -= 1;
        r.push(a[k]);
    }
    proof {
        assert(r@ =~= a@.reverse());
        a@.lemma_reverse_to_multiset();
    }
    r
}

/// `suf[k]` is the sum of `nums[k..]`.
pub open spec fn is_suffix_sums(nums: Seq<u128>, suf: Seq<u128>) -> bool {
    &&& suf.len() == nums.len() + 1
    &&& forall|k: int|
        0 <= k <= nums.len() ==> #[trigger] suf[k] as nat == sum_nat(
            nats(nums.subrange(k, nums.len() as int)),
        )
}

/// Suffix sums of `nums`, whose total fits in a `u128`.
pub fn suffix_sums_u128(nums: &Vec<u128>) -> (suf: Vec<u128>)
    requires
        sum_nat(nats(nums@)) <= u128::MAX,
    ensures
        is_suffix_sums(nums@, suf@),
{
    let n = nums.len();
    let mut suf: Vec<u128> = Vec::new();
    suf.push(0);
    let mut i: usize = 0;
    while i < n
        invariant
            i <= n,
            suf.len() == i + 1,
            forall|q: int| 0 <= q < suf.len() ==> suf@[q] == 0,
        decreases n - i,
    {
        suf.push(0);
        i += 1;
    }
    let mut k: usize = n;
    proof {
        assert(nums@.subrange(n as int, n as int) =~= Seq::<u128>::empty());
        assert(nats(Seq::<u128>::empty()) =~= Seq::<nat>::empty());
    }
    while k > 0
        invariant
            k <= n,
            n == nums.len(),
            suf.len() == n + 1,
            sum_nat(nats(nums@)) <= u128::MAX,
            forall|q: int| k <= q <= n ==> #[trigger] suf@[q] as nat == sum_nat(nats(nums@.subrange(q, n as int))),
        decreases k,
    {
        proof {
            let s = nats(nums@.subrange(k - 1, n as int));
            crate::model::lemma_sum_nat_first(s);
            assert(s.drop_first() =~= nats(nums@.subrange(k as int, n as int)));
            crate::model::lemma_slice_sub(nats(nums@), k - 1, n as int);
            assert(nats(nums@).subrange(k - 1, n as int) =~= s);
            crate::model::lemma_sub_multiset_sum_le(s, nats(nums@));
        }
        let val = suf[k] + nums[k - 1];
        suf.set(k - 1, val);
        k -= 1;
    }
    suf
}


/// `suf[k]` is the value-sum of `nums[k..]`.
pub open spec fn is_suffix_sums_big(nums: Seq<BigNat>, suf: Seq<BigNat>) -> bool {
    &&& suf.len() == nums.len() + 1
    &&& forall|k: int|
        0 <= k <= nums.len() ==> #[trigger] suf[k]@ == sum_nat(
            vals(nums.subrange(k, nums.len() as int)),
        )
}

/// Suffix sums of big naturals.
pub fn suffix_sums_big(nums: &Vec<BigNat>) -> (suf: Vec<BigNat>)
    ensures
        is_suffix_sums_big(nums@, suf@),
{
    let n = nums.len();
    let mut rev: Vec<BigNat> = Vec::new();
    rev.push(BigNat::zero());
    proof {
        assert(vals(nums@.subrange(n as int, n as int)) =~= Seq::<nat>::empty());
    }
    let mut k: usize = n;
    while k > 0
        invariant
            k <= n,
            n == nums.len(),
            rev.len() == n - k + 1,
            forall|q: int| k <= q <= n ==> #[trigger] rev@[n - q]@ == sum_nat(vals(nums@.subrange(q, n as int))),
        decreases k,
    {
        proof {
            let s = vals(nums@.subrange(k - 1, n as int));
            crate::model::lemma_sum_nat_first(s);
            assert(s.drop_first() =~= vals(nums@.subrange(k as int, n as int)));
        }
        let last = rev.len() - 1;
        let val = crate::bignat::big_add(&rev[last], &nums[k - 1]);
        rev.push(val);
        k -= 1;
    }
    let mut suf: Vec<BigNat> = Vec::new();
    let mut j: usize = 0;
    while j < rev.len()
        invariant
            j <= n + 1,
            n == nums.len(),
            rev.len() == n + 1,
            suf.len() == j,
            forall|q: int| 0 <= q <= n ==> #[trigger] rev@[n - q]@ == sum_nat(vals(nums@.subrange(q, n as int))),
            forall|q: int| 0 <= q < j ==> #[trigger] suf@[q]@ == rev@[n - q]@,
        decreases n + 1 - j,
    {
        suf.push(rev[n - j].copy());
        j += 1;
    }
    suf
}

/// `added` is made of elements of `nums[i..]` with `nums[i]` first.
pub proof fn lemma_cons_suffix(nums: Seq<BigNat>, start: int, i: int, v: BigNat, rest: Seq<BigNat>)
    requires
        0 <= start <= i < nums.len(),
        v@ == nums[i]@,
        sub_multiset(vals(rest), vals(nums.subrange(i + 1, nums.len() as int))),
    ensures
        sub_multiset(vals(seq![v] + rest), vals(nums.subrange(start, nums.len() as int))),
        sum_nat(vals(seq![v] + rest)) == v@ + sum_nat(vals(rest)),
{
    let n = nums.len() as int;
    assert(vals(seq![v] + rest) =~= seq![v@] + vals(rest));
    crate::model::lemma_sum_nat_concat(seq![v@], vals(rest));
    crate::model::lemma_sum_nat_single(v@);
    assert(vals(nums.subrange(i, n)) =~= seq![v@] + vals(nums.subrange(i + 1, n)));
    crate::model::lemma_sub_multiset_refl(seq![v@]);
    crate::model::lemma_sub_multiset_concat(seq![v@], seq![v@], vals(rest), vals(nums.subrange(i + 1, n)));
    crate::model::lemma_suffix_sub(vals(nums), start, i, n);
    assert(vals(nums).subrange(i, n) =~= vals(nums.subrange(i, n)));
    assert(vals(nums).subrange(start, n) =~= vals(nums.subrange(start, n)));
    crate::model::lemma_sub_multiset_trans(vals(seq![v] + rest), vals(nums.subrange(i, n)), vals(nums.subrange(start, n)));
}


/// Solvability depends only on the multiset of values.
pub proof fn lemma_perm_solvable(a: Seq<nat>, b: Seq<nat>, t: nat)
    requires
        a.to_multiset() == b.to_multiset(),
    ensures
        solvable(a, t) == solvable(b, t),
{
    if solvable(a, t) {
        let sol = choose|sol: Seq<nat>| is_solution(a, sol, t);
        assert(is_solution(b, sol, t));
    }
    if solvable(b, t) {
        let sol = choose|sol: Seq<nat>| is_solution(b, sol, t);
        assert(is_solution(a, sol, t));
    }
}

/// A solution drawn from a rearrangement of the numbers is a solution.
pub proof fn lemma_perm_found(p: &Profile, arranged: Seq<BigNat>, sol: Seq<BigNat>)
    requires
        vals(arranged).to_multiset() == p.values().to_multiset(),
        sub_multiset(vals(sol), vals(arranged)),
        sum_nat(vals(sol)) == p.target@,
    ensures
        is_solution(p.values(), vals(sol), p.target@),
{
}


/// The exact sum of `v`, when it fits in a `u128`.
pub fn sum_u128_checked(v: &Vec<u128>) -> (r: Option<u128>)
    ensures
        r matches Some(s) ==> s as nat == sum_nat(nats(v@)),
        r is None ==> sum_nat(nats(v@)) > u128::MAX,
{
    let mut acc: u128 = 0;
    let mut i: usize = 0;
    while i < v.len()
        invariant
            i <= v.len(),
            acc as nat == sum_nat(nats(v@.take(i as int))),
        decreases v.len() - i,
    {
        proof {
            assert(v@.take(i + 1) =~= v@.take(i as int).push(v@[i as int]));
            crate::model::lemma_nats_push(v@.take(i as int), v@[i as int]);
            crate::model::lemma_sum_nat_push(nats(v@.take(i as int)), v@[i as int] as nat);
        }
        match acc.checked_add(v[i]) {
            Some(x) => acc = x,
            None => {
                proof {
                    crate::model::lemma_sub_multiset_refl(v@);
                    crate::model::lemma_slice_sub(v@, 0, i + 1);
                    assert(v@.subrange(0, i + 1) =~= v@.take(i + 1));
                    crate::model::lemma_nats_sub(v@.take(i + 1), v@);
                    crate::model::lemma_sub_multiset_sum_le(nats(v@.take(i + 1)), nats(v@));
                }
                return None;
            },
        }
        i += 1;
    }
    proof {
        assert(v@.take(v.len() as int) =~= v@);
    }
    Some(acc)
}


/// Copies of `v[lo..hi]`.
pub fn copy_range(v: &Vec<BigNat>, lo: usize, hi: usize) -> (r: Vec<BigNat>)
    requires
        lo <= hi <= v.len(),
    ensures
        vals(r@) == vals(v@.subrange(lo as int, hi as int)),
        r.len() == hi - lo,
{
    let mut r: Vec<BigNat> = Vec::new();
    let mut i = lo;
    proof {
        assert(vals(v@.subrange(lo as int, lo as int)) =~= vals(r@));
    }
    while i < hi
        invariant
            lo <= i <= hi,
            hi <= v.len(),
            vals(r@) == vals(v@.subrange(lo as int, i as int)),
            r.len() == i - lo,
        decreases hi - i,
    {
        let ghost old_r = r@;
        r.push(v[i].copy());
        proof {
            assert(vals(r@) =~= vals(old_r).push(v@[i as int]@));
            assert(vals(v@.subrange(lo as int, i + 1)) =~= vals(v@.subrange(lo as int, i as int)).push(v@[i as int]@));
        }
        i += 1;
    }
    r
}


/// The value-sum of `v`.
pub fn sum_big(v: &Vec<BigNat>) -> (r: BigNat)
    ensures
        r@ == sum_nat(vals(v@)),
{
    let mut acc = BigNat::zero();
    let mut i: usize = 0;
    proof {
        assert(vals(v@.take(0)) =~= Seq::<nat>::empty());
    }
    while i < v.len()
        invariant
            i <= v.len(),
            acc@ == sum_nat(vals(v@.take(i as int))),
        decreases v.len() - i,
    {
        proof {
            assert(vals(v@.take(i + 1)) =~= vals(v@.take(i as int)).push(v@[i as int]@));
            crate::model::lemma_sum_nat_push(vals(v@.take(i as int)), v@[i as int]@);
        }
        acc = crate::bignat::big_add(&acc, &v[i]);
        i += 1;
    }
    proof {
        assert(v@.take(v.len() as int) =~= v@);
    }
    acc
}

/// A position of `x` among the sums of `s`, which are in increasing order.
pub fn find_sum(s: &Vec<(BigNat, u64)>, x: &BigNat) -> (r: Option<usize>)
    requires
        forall|i: int, j: int| 0 <= i < j < s.len() ==> s@[i].0@ <= s@[j].0@,
    ensures
        r matches Some(i) ==> i < s.len() && s@[i as int].0@ == x@,
        r is None ==> forall|i: int| 0 <= i < s.len() ==> s@[i].0@ != x@,
{
    let mut lo: usize = 0;
    let mut hi: usize = s.len();
    while lo < hi
        invariant
            lo <= hi <= s.len(),
            forall|i: int, j: int| 0 <= i < j < s.len() ==> s@[i].0@ <= s@[j].0@,
            forall|i: int| 0 <= i < lo ==> s@[i].0@ < x@,
            forall|i: int| hi <= i < s.len() ==> s@[i].0@ > x@,
        decreases hi - lo,
    {
        let mid = lo + (hi - lo) / 2;
        let v = &s[mid].0;
        if crate::bignat::big_eq(v, x) {
            return Some(mid);
        } else if crate::bignat::big_le(v, x) {
            lo = mid + 1;
        } else {
            hi = mid;
        }
    }
    None
}

} // verus!
