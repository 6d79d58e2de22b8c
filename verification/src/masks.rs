//! Subsets of a short list given by the bits of a `u64` mask.
use vstd::prelude::*;
use crate::model::{sum_nat, nats, sub_multiset, lemma_sub_multiset_empty, lemma_sub_multiset_push, solvable, is_solution, lemma_nats_push, lemma_sum_nat_push, lemma_sum_nat_remove};

use crate::bignat::{BigNat, vals};

verus! {

/// Bit `j` of `m` is set.
pub open spec fn bit(m: u64, j: nat) -> bool {
    j < 64 && ((m >> (j as u64)) & 1u64) == 1u64
}

/// The elements among the first `k` of `e` whose bit is set in `m`, in order.
pub open spec fn mask_pick<A>(e: Seq<A>, m: u64, k: nat) -> Seq<A>
    decreases k,
{
    if k == 0 {
        Seq::empty()
    } else if bit(m, (k - 1) as nat) {
        mask_pick(e, m, (k - 1) as nat).push(e[k - 1])
    } else {
        mask_pick(e, m, (k - 1) as nat)
    }
}

/// The selected elements keep their order.
pub proof fn lemma_pick_subseq<A>(e: Seq<A>, m: u64, k: nat)
    requires
        k <= e.len(),
    ensures
        crate::model::is_subseq(mask_pick(e, m, k), e.take(k as int)),
    decreases k,
{
    if k == 0 {
        assert(mask_pick(e, m, 0).len() == 0);
    } else {
        lemma_pick_subseq(e, m, (k - 1) as nat);
        assert(e.take(k as int) =~= e.take(k - 1).push(e[k - 1]));
        crate::model::lemma_subseq_push(mask_pick(e, m, (k - 1) as nat), e.take(k - 1), e[k - 1], bit(m, (k - 1) as nat));
    }
}

/// The subset of `e` that `m` selects.
pub open spec fn picked<A>(e: Seq<A>, m: u64) -> Seq<A> {
    mask_pick(e, m, e.len())
}

/// The sum of the subset of `e` that `m` selects.
pub open spec fn mask_sum(e: Seq<u128>, m: u64) -> nat {
    sum_nat(nats(picked(e, m)))
}

/// The sum of the first `k` candidates of `e` selected by `m`.
pub open spec fn pick_sum(e: Seq<u128>, m: u64, k: nat) -> nat {
    sum_nat(nats(mask_pick(e, m, k)))
}

/// The value-sum of the subset of `s` that `m` selects.
pub open spec fn nat_mask_sum(s: Seq<nat>, m: u64) -> nat {
    sum_nat(picked(s, m))
}

/// `m` selects only among the first `n` positions.
pub open spec fn fits(m: u64, n: nat) -> bool {
    n < 64 && (m >> (n as u64)) == 0
}

pub proof fn lemma_bit_add_pow(m: u64, i: u64, j: u64)
    requires
        i < 63,
        j < 64,
        m >> i == 0,
    ensures
        ((((m + (1u64 << i)) as u64) >> j) & 1u64) == (if j == i { 1u64 } else { (m >> j) & 1u64 }),
        ((m + (1u64 << i)) as u64) >> ((i + 1) as u64) == 0,
        m < (1u64 << i),
        (m as int) + ((1u64 << i) as int) <= u64::MAX,
        ((m + (1u64 << i)) as u64) == (m as int) + ((1u64 << i) as int),
{
    assert(((((m + (1u64 << i)) as u64) >> j) & 1u64) == (if j == i { 1u64 } else { (m >> j) & 1u64 })
        && ((m + (1u64 << i)) as u64) >> ((i + 1) as u64) == 0 && m < (1u64 << i) && (m as int) + ((1u64 << i) as int) <= u64::MAX
        && ((m + (1u64 << i)) as u64) == (m as int) + ((1u64 << i) as int)) by (bit_vector)
        requires
            i < 63,
            j < 64,
            m >> i == 0,
    ;
}

pub proof fn lemma_bit_high_zero(m: u64, i: u64, j: u64)
    requires
        i <= j < 64,
        m >> i == 0,
    ensures
        (m >> j) & 1u64 == 0,
{
    assert((m >> j) & 1u64 == 0) by (bit_vector)
        requires
            i <= j < 64,
            m >> i == 0,
    ;
}

pub proof fn lemma_split_top(m: u64, i: u64)
    requires
        i < 63,
        m >> ((i + 1) as u64) == 0,
    ensures
        ((m >> i) & 1u64) == 0 || ((m >> i) & 1u64) == 1,
        ((m >> i) & 1u64) == 0 ==> m >> i == 0,
        ((m >> i) & 1u64) == 1 ==> (m >= (1u64 << i) && (((m - (1u64 << i)) as u64) >> i) == 0 && (((m - (1u64 << i)) as u64) + (1u64 << i)) == m),
{
    assert((((m >> i) & 1u64) == 0 || ((m >> i) & 1u64) == 1) && (((m >> i) & 1u64) == 0 ==> m >> i == 0) && (((m >> i) & 1u64) == 1 ==> (m >= (1u64
        << i) && (((m - (1u64 << i)) as u64) >> i) == 0 && (((m - (1u64 << i)) as u64) + (1u64 << i)) == m)))
        by (bit_vector)
        requires
            i < 63,
            m >> ((i + 1) as u64) == 0,
    ;
}

pub proof fn lemma_fits_zero()
    ensures
        fits(0, 0),
{
    assert((0u64 >> 0u64) == 0) by (bit_vector);
}

pub proof fn lemma_pick_ext<A>(e: Seq<A>, m1: u64, m2: u64, k: nat)
    requires
        forall|j: nat| j < k ==> bit(m1, j) == bit(m2, j),
    ensures
        mask_pick(e, m1, k) == mask_pick(e, m2, k),
    decreases k,
{
    if k > 0 {
        lemma_pick_ext(e, m1, m2, (k - 1) as nat);
        assert(bit(m1, (k - 1) as nat) == bit(m2, (k - 1) as nat));
    }
}

/// Bits at and above `n` do not matter when `m` fits in `n` bits.
pub proof fn lemma_pick_high<A>(e: Seq<A>, m: u64, n: nat, k: nat)
    requires
        fits(m, n),
        n <= k,
    ensures
        mask_pick(e, m, k) == mask_pick(e, m, n),
    decreases k,
{
    if k > n {
        lemma_pick_high(e, m, n, (k - 1) as nat);
        if k - 1 < 64 {
            lemma_bit_high_zero(m, n as u64, (k - 1) as u64);
        }
        assert(!bit(m, (k - 1) as nat));
    }
}

/// The selected elements form a sub-multiset of the list.
pub proof fn lemma_pick_sub<A>(e: Seq<A>, m: u64, k: nat)
    requires
        k <= e.len(),
    ensures
        sub_multiset(mask_pick(e, m, k), e.take(k as int)),
    decreases k,
{
    if k == 0 {
        lemma_sub_multiset_empty(e.take(0));
    } else {
        lemma_pick_sub(e, m, (k - 1) as nat);
        assert(e.take(k as int) =~= e.take(k - 1).push(e[k - 1]));
        lemma_sub_multiset_push(mask_pick(e, m, (k - 1) as nat), e.take(k - 1), e[k - 1]);
    }
}

pub proof fn lemma_picked_sub<A>(e: Seq<A>, m: u64)
    ensures
        sub_multiset(picked(e, m), e),
{
    lemma_pick_sub(e, m, e.len());
    assert(e.take(e.len() as int) =~= e);
}

/// Only the first `k` elements are read.
pub proof fn lemma_pick_prefix<A>(e: Seq<A>, f: Seq<A>, m: u64, k: nat)
    requires
        k <= e.len(),
        k <= f.len(),
        forall|j: int| 0 <= j < k ==> e[j] == f[j],
    ensures
        mask_pick(e, m, k) == mask_pick(f, m, k),
    decreases k,
{
    if k > 0 {
        lemma_pick_prefix(e, f, m, (k - 1) as nat);
    }
}

/// Every solvable instance of at most 63 elements has a mask that selects a solution.
pub proof fn lemma_solvable_has_mask(e: Seq<u128>, t: nat)
    requires
        e.len() < 64,
        solvable(nats(e), t),
    ensures
        exists|m: u64| fits(m, e.len()) && #[trigger] mask_sum(e, m) == t,
    decreases e.len(),
{
    broadcast use vstd::seq_lib::group_to_multiset_ensures, vstd::multiset::group_multiset_axioms;

    let sol = choose|sol: Seq<nat>| is_solution(nats(e), sol, t);
    if e.len() == 0 {
        lemma_fits_zero();
        assert(nats(e) =~= Seq::<nat>::empty());
        if sol.len() > 0 {
            assert(sol.to_multiset().count(sol[0]) > 0);
            assert(nats(e).to_multiset().len() == 0);
        }
        assert(sol =~= Seq::<nat>::empty());
        assert(mask_pick(e, 0, 0) =~= Seq::<u128>::empty());
        assert(picked(e, 0) =~= Seq::<u128>::empty());
        assert(nats(Seq::<u128>::empty()) =~= Seq::<nat>::empty());
        assert(mask_sum(e, 0) == t);
    } else {
        let n = e.len();
        let k = (n - 1) as nat;
        let e0 = e.drop_last();
        let x = e[n - 1];
        assert(nats(e) =~= nats(e0).push(x as nat));
        assert(nats(e).to_multiset() == nats(e0).to_multiset().insert(x as nat));
        let (sub_sol, tt, with_x) = if sol.contains(x as nat) {
            let i = choose|i: int| 0 <= i < sol.len() && sol[i] == x as nat;
            lemma_sum_nat_remove(sol, i);
            assert(sol.remove(i).to_multiset() == sol.to_multiset().remove(x as nat));
            (sol.remove(i), (t - x) as nat, true)
        } else {
            (sol, t, false)
        };
        assert(is_solution(nats(e0), sub_sol, tt)) by {
            assert forall|w: nat| sub_sol.to_multiset().count(w) <= nats(e0).to_multiset().count(w) by {
                if w == x as nat && !with_x {
                    assert(sol.to_multiset().count(w) == 0);
                }
            }
        }
        lemma_solvable_has_mask(e0, tt);
        let m0 = choose|m: u64| fits(m, e0.len()) && #[trigger] mask_sum(e0, m) == tt;
        lemma_pick_prefix(e, e0, m0, k);
        lemma_bit_add_pow(m0, k as u64, 0);
        if with_x {
            let m = (m0 + (1u64 << (k as u64))) as u64;
            assert forall|jj: nat| jj < k implies bit(m, jj) == bit(m0, jj) by {
                lemma_bit_add_pow(m0, k as u64, jj as u64);
            }
            lemma_bit_add_pow(m0, k as u64, k as u64);
            lemma_pick_ext(e, m, m0, k);
            assert(bit(m, k));
            assert(mask_pick(e, m, n) == mask_pick(e, m, k).push(x));
            lemma_nats_push(mask_pick(e, m, k), x);
            lemma_sum_nat_push(nats(mask_pick(e, m, k)), x as nat);
            assert(fits(m, n));
            assert(mask_sum(e, m) == t);
        } else {
            let ku = k as u64;
            assert(m0 >> ((ku + 1) as u64) == 0) by (bit_vector)
                requires m0 >> ku == 0, ku < 63;
            lemma_bit_high_zero(m0, k as u64, k as u64);
            assert(!bit(m0, k));
            assert(mask_pick(e, m0, n) == mask_pick(e, m0, k));
            assert(fits(m0, n));
            assert(mask_sum(e, m0) == t);
        }
    }
}

pub proof fn lemma_pick_sum_step(e: Seq<u128>, m: u64, k: nat)
    requires
        k < e.len(),
    ensures
        pick_sum(e, m, k + 1) == pick_sum(e, m, k) + (if bit(m, k) { e[k as int] as nat } else { 0 }),
{
    if bit(m, k) {
        lemma_nats_push(mask_pick(e, m, k), e[k as int]);
        lemma_sum_nat_push(nats(mask_pick(e, m, k)), e[k as int] as nat);
    }
}

pub proof fn lemma_pick_sum_mono(e: Seq<u128>, m: u64, j: nat, k: nat)
    requires
        j <= k <= e.len(),
    ensures
        pick_sum(e, m, j) <= pick_sum(e, m, k),
    decreases k,
{
    if j < k {
        lemma_pick_sum_mono(e, m, j, (k - 1) as nat);
        lemma_pick_sum_step(e, m, (k - 1) as nat);
    }
}

/// Selecting commutes with mapping values.
pub proof fn lemma_pick_map<A, B>(e: Seq<A>, m: u64, k: nat, f: spec_fn(A) -> B)
    requires
        k <= e.len(),
    ensures
        mask_pick(e, m, k).map_values(f) == mask_pick(e.map_values(f), m, k),
    decreases k,
{
    if k > 0 {
        lemma_pick_map(e, m, (k - 1) as nat, f);
        if bit(m, (k - 1) as nat) {
            assert(mask_pick(e, m, k).map_values(f) =~= mask_pick(e, m, (k - 1) as nat).map_values(f).push(f(e[k - 1])));
        }
    }
}

pub proof fn lemma_mask_sum_nats(e: Seq<u128>, m: u64)
    ensures
        mask_sum(e, m) == nat_mask_sum(nats(e), m),
{
    lemma_pick_map(e, m, e.len(), |x: u128| x as nat);
    assert(nats(e) =~= e.map_values(|x: u128| x as nat));
    assert(nats(picked(e, m)) =~= picked(e, m).map_values(|x: u128| x as nat));
}

pub proof fn lemma_picked_nats(e: Seq<u128>, m: u64)
    ensures
        nats(picked(e, m)) == picked(nats(e), m),
{
    lemma_pick_map(e, m, e.len(), |x: u128| x as nat);
    assert(nats(e) =~= e.map_values(|x: u128| x as nat));
    assert(nats(picked(e, m)) =~= picked(e, m).map_values(|x: u128| x as nat));
}

/// A solvable instance of at most 63 values has a selecting mask.
pub proof fn lemma_solvable_has_mask_nat(s: Seq<nat>, t: nat)
    requires
        s.len() < 64,
        solvable(s, t),
    ensures
        exists|m: u64| fits(m, s.len()) && #[trigger] nat_mask_sum(s, m) == t,
    decreases s.len(),
{
    broadcast use vstd::seq_lib::group_to_multiset_ensures, vstd::multiset::group_multiset_axioms;

    let sol = choose|sol: Seq<nat>| is_solution(s, sol, t);
    if s.len() == 0 {
        lemma_fits_zero();
        if sol.len() > 0 {
            assert(sol.to_multiset().count(sol[0]) > 0);
            assert(s.to_multiset().len() == 0);
        }
        assert(sol =~= Seq::<nat>::empty());
        assert(picked(s, 0) =~= Seq::<nat>::empty());
        assert(nat_mask_sum(s, 0) == t);
    } else {
        let n = s.len();
        let k = (n - 1) as nat;
        let s0 = s.drop_last();
        let x = s[n - 1];
        assert(s =~= s0.push(x));
        assert(s.to_multiset() == s0.to_multiset().insert(x));
        let (sub_sol, tt, with_x) = if sol.contains(x) {
            let i = choose|i: int| 0 <= i < sol.len() && sol[i] == x;
            lemma_sum_nat_remove(sol, i);
            assert(sol.remove(i).to_multiset() == sol.to_multiset().remove(x));
            (sol.remove(i), (t - x) as nat, true)
        } else {
            (sol, t, false)
        };
        assert(is_solution(s0, sub_sol, tt)) by {
            assert forall|w: nat| sub_sol.to_multiset().count(w) <= s0.to_multiset().count(w) by {
                if w == x && !with_x {
                    assert(sol.to_multiset().count(w) == 0);
                }
            }
        }
        lemma_solvable_has_mask_nat(s0, tt);
        let m0 = choose|m: u64| fits(m, s0.len()) && #[trigger] nat_mask_sum(s0, m) == tt;
        lemma_pick_prefix(s, s0, m0, k);
        lemma_bit_add_pow(m0, k as u64, 0);
        if with_x {
            let m = (m0 + (1u64 << (k as u64))) as u64;
            assert forall|jj: nat| jj < k implies bit(m, jj) == bit(m0, jj) by {
                lemma_bit_add_pow(m0, k as u64, jj as u64);
            }
            lemma_bit_add_pow(m0, k as u64, k as u64);
            lemma_pick_ext(s, m, m0, k);
            assert(bit(m, k));
            assert(mask_pick(s, m, n) == mask_pick(s, m, k).push(x));
            lemma_sum_nat_push(mask_pick(s, m, k), x);
            assert(fits(m, n));
            assert(nat_mask_sum(s, m) == t);
        } else {
            let ku = k as u64;
            assert(m0 >> ((ku + 1) as u64) == 0) by (bit_vector)
                requires m0 >> ku == 0, ku < 63;
            lemma_bit_high_zero(m0, k as u64, k as u64);
            assert(!bit(m0, k));
            assert(mask_pick(s, m0, n) == mask_pick(s, m0, k));
            assert(fits(m0, n));
            assert(nat_mask_sum(s, m0) == t);
        }
    }
}

/// Masks below `2^n` are exactly those that fit in `n` bits.
pub proof fn lemma_fits_lt(m: u64, n: u64)
    requires
        n < 64,
    ensures
        fits(m, n as nat) <==> m < (1u64 << n),
{
    assert((m >> n == 0) <==> m < (1u64 << n)) by (bit_vector)
        requires n < 64;
}

/// The sum of the first `k` values of `s` selected by `m`.
pub open spec fn npick_sum(s: Seq<nat>, m: u64, k: nat) -> nat {
    sum_nat(mask_pick(s, m, k))
}

pub proof fn lemma_npick_step(s: Seq<nat>, m: u64, k: nat)
    requires
        k < s.len(),
    ensures
        npick_sum(s, m, k + 1) == npick_sum(s, m, k) + (if bit(m, k) { s[k as int] } else { 0 }),
{
    if bit(m, k) {
        lemma_sum_nat_push(mask_pick(s, m, k), s[k as int]);
    }
}

pub proof fn lemma_npick_mono(s: Seq<nat>, m: u64, j: nat, k: nat)
    requires
        j <= k <= s.len(),
    ensures
        npick_sum(s, m, j) <= npick_sum(s, m, k),
    decreases k,
{
    if j < k {
        lemma_npick_mono(s, m, j, (k - 1) as nat);
        lemma_npick_step(s, m, (k - 1) as nat);
    }
}

/// If no mask below `2^n` selects `t`, nothing sums to `t`.
pub proof fn lemma_no_mask_unsolvable(s: Seq<nat>, t: nat)
    requires
        s.len() < 64,
        forall|m: u64| m < (1u64 << (s.len() as u64)) ==> #[trigger] nat_mask_sum(s, m) != t,
    ensures
        !solvable(s, t),
{
    if solvable(s, t) {
        lemma_solvable_has_mask_nat(s, t);
        let m = choose|m: u64| fits(m, s.len()) && #[trigger] nat_mask_sum(s, m) == t;
        lemma_fits_lt(m, s.len() as u64);
    }
}

/// The `u128` elements of `e` selected by `m`, in order.
pub fn select_u128(e: &[u128], m: u64) -> (r: Vec<u128>)
    requires
        e.len() < 64,
    ensures
        r@ == picked(e@, m),
{
    let mut r: Vec<u128> = Vec::new();
    let mut j: usize = 0;
    while j < e.len()
        invariant
            e.len() < 64,
            j <= e.len(),
            r@ == mask_pick(e@, m, j as nat),
        decreases e.len() - j,
    {
        if (m >> (j as u64)) & 1u64 == 1u64 {
            r.push(e[j]);
        }
        j += 1;
    }
    r
}

/// Copies of the big naturals of `e` selected by `m`, in order.
pub fn select_big(e: &[BigNat], m: u64) -> (r: Vec<BigNat>)
    requires
        e.len() < 64,
    ensures
        vals(r@) == picked(vals(e@), m),
        sub_multiset(vals(r@), vals(e@)),
{
    let mut r: Vec<BigNat> = Vec::new();
    let mut j: usize = 0;
    proof {
        assert(vals(r@) =~= Seq::<nat>::empty());
    }
    while j < e.len()
        invariant
            e.len() < 64,
            j <= e.len(),
            vals(r@) == mask_pick(vals(e@), m, j as nat),
        decreases e.len() - j,
    {
        if (m >> (j as u64)) & 1u64 == 1u64 {
            let ghost old_r = r@;
            r.push(e[j].copy());
            proof {
                assert(vals(r@) =~= vals(old_r).push(e@[j as int]@));
            }
        }
        j += 1;
    }
    proof {
        lemma_picked_sub(vals(e@), m);
    }
    r
}

/// The value-sum of the big naturals of `e` selected by `m`.
pub fn mask_sum_big(e: &[BigNat], m: u64) -> (r: BigNat)
    requires
        e.len() < 64,
    ensures
        r@ == nat_mask_sum(vals(e@), m),
{
    let mut acc = BigNat::zero();
    let mut j: usize = 0;
    let ghost s = vals(e@);
    while j < e.len()
        invariant
            e.len() < 64,
            s == vals(e@),
            j <= e.len(),
            acc@ == npick_sum(s, m, j as nat),
        decreases e.len() - j,
    {
        proof {
            lemma_npick_step(s, m, j as nat);
        }
        if (m >> (j as u64)) & 1u64 == 1u64 {
            assert(bit(m, j as nat));
            acc = crate::bignat::big_add(&acc, &e[j]);
        } else {
            assert(!bit(m, j as nat));
        }
        j += 1;
    }
    acc
}

} // verus!
