//! Enumeration of all subset sums of a short list of `u128`.
use vstd::prelude::*;
use crate::model::nats;
use crate::bignat::{BigNat, vals, big_add, big_le};
use crate::masks::{bit, mask_pick, mask_sum, fits, lemma_bit_add_pow, lemma_split_top, lemma_pick_ext, lemma_fits_zero, pick_sum, lemma_pick_sum_step, npick_sum, lemma_npick_step, nat_mask_sum};

verus! {

/// `r` lists `(sum, mask)` pairs of subsets of `e` with sum at most `target`:
/// every pair is right, masks strictly increase, and no such subset is missing.
pub open spec fn sums_listed(e: Seq<u128>, target: u128, r: Seq<(u128, u64)>) -> bool {
    &&& forall|i: int|
        0 <= i < r.len() ==> fits(#[trigger] r[i].1, e.len()) && r[i].0 as nat == mask_sum(
            e,
            r[i].1,
        ) && r[i].0 <= target
    &&& forall|i: int, j: int| 0 <= i < j < r.len() ==> r[i].1 < r[j].1
    &&& forall|m: u64|
        fits(m, e.len()) && #[trigger] mask_sum(e, m) <= target ==> exists|i: int|
            0 <= i < r.len() && #[trigger] r[i].1 == m
}

/// All `(sum, mask)` pairs of subsets of `elems` whose sum is at most
/// `target`, in increasing mask order.
pub fn build_sums_vec(elems: &[u128], target: u128) -> (r: Vec<(u128, u64)>)
    requires
        elems.len() < 64,
    ensures
        sums_listed(elems@, target, r@),
{
    let n = elems.len();
    let ghost e = elems@;
    let mut sums: Vec<(u128, u64)> = Vec::new();
    sums.push((0u128, 0u64));
    proof {
        lemma_fits_zero();
        assert(mask_pick(e, 0, 0) =~= Seq::<u128>::empty());
        assert(nats(Seq::<u128>::empty()) =~= Seq::<nat>::empty());
        assert forall|m: u64| fits(m, 0) && #[trigger] pick_sum(e, m, 0) <= target implies exists|k: int|
            0 <= k < sums.len() && #[trigger] sums@[k].1 == m by {
            assert(m == 0) by (bit_vector)
                requires m >> 0u64 == 0;
            assert(sums@[0].1 == m);
        }
    }
    let mut i: usize = 0;
    while i < n
        invariant
            n == elems.len(),
            n < 64,
            e == elems@,
            0 <= i <= n,
            forall|k: int|
                0 <= k < sums.len() ==> fits(#[trigger] sums@[k].1, i as nat) && sums@[k].0 as nat
                    == pick_sum(e, sums@[k].1, i as nat) && sums@[k].0 <= target,
            forall|a: int, b: int| 0 <= a < b < sums.len() ==> sums@[a].1 < sums@[b].1,
            forall|m: u64|
                fits(m, i as nat) && #[trigger] pick_sum(e, m, i as nat) <= target ==> exists|k: int|
                    0 <= k < sums.len() && #[trigger] sums@[k].1 == m,
        decreases n - i,
    {
        let x = elems[i];
        let pw: u64 = 1u64 << (i as u64);
        let old_len = sums.len();
        let ghost old = sums@;
        let mut j: usize = 0;
        while j < old_len
            invariant
                n == elems.len(),
                n < 64,
                e == elems@,
                i < n,
                x == e[i as int],
                pw == 1u64 << (i as u64),
                old_len == old.len(),
                0 <= j <= old_len,
                sums@.len() >= old_len,
                sums@.subrange(0, old_len as int) == old,
                forall|k: int|
                    0 <= k < old.len() ==> fits(#[trigger] old[k].1, i as nat) && old[k].0 as nat
                        == pick_sum(e, old[k].1, i as nat) && old[k].0 <= target,
                forall|a: int, b: int| 0 <= a < b < old.len() ==> old[a].1 < old[b].1,
                forall|k: int|
                    old_len <= k < sums.len() ==> fits(#[trigger] sums@[k].1, (i + 1) as nat)
                        && sums@[k].0 as nat == pick_sum(e, sums@[k].1, (i + 1) as nat)
                        && sums@[k].0 <= target && sums@[k].1 >= pw,
                forall|a: int, b: int|
                    old_len <= a < b < sums.len() ==> sums@[a].1 < sums@[b].1,
                forall|k: int|
                    old_len <= k < sums.len() ==> exists|q: int|
                        0 <= q < j && #[trigger] sums@[k].1 == (old[q].1 + pw) as u64,
                forall|q: int|
                    0 <= q < j && old[q].0 + x <= target ==> exists|k: int|
                        old_len <= k < sums.len() && #[trigger] sums@[k].1 == (old[q].1 + pw) as u64,
            decreases old_len - j,
        {
            let (s, m) = sums[j];
            assert(old[j as int] == (s, m));
            if s <= target && x <= target - s {
                proof {
                    lemma_bit_add_pow(m, i as u64, i as u64);
                }
                let nm = m + pw;
                let ghost prev = sums@;
                proof {
                    assert forall|jj: nat| jj < i as nat implies bit(nm, jj) == bit(m, jj) by {
                        lemma_bit_add_pow(m, i as u64, jj as u64);
                    }
                    lemma_bit_add_pow(m, i as u64, i as u64);
                    lemma_pick_ext(e, nm, m, i as nat);
                    lemma_pick_sum_step(e, nm, i as nat);
                    assert(bit(nm, i as nat));
                    assert forall|k: int| old_len <= k < sums.len() implies sums@[k].1 < nm by {
                        let q = choose|q: int| 0 <= q < j && #[trigger] sums@[k].1 == (old[q].1 + pw) as u64;
                        lemma_bit_add_pow(old[q].1, i as u64, 0);
                    }
                }
                sums.push((s + x, nm));
                proof {
                    assert(sums@[sums.len() - 1].1 == (old[j as int].1 + pw) as u64);
                    assert forall|q: int|
                        0 <= q < j && old[q].0 + x <= target implies exists|k: int|
                            old_len <= k < sums.len() && #[trigger] sums@[k].1 == (old[q].1 + pw) as u64 by {
                        let k = choose|k: int| old_len <= k < prev.len() && #[trigger] prev[k].1 == (old[q].1 + pw) as u64;
                        assert(sums@[k] == prev[k]);
                    }
                    assert forall|k: int|
                        old_len <= k < sums.len() implies exists|q: int|
                            0 <= q < j + 1 && #[trigger] sums@[k].1 == (old[q].1 + pw) as u64 by {
                        if k < prev.len() {
                            assert(sums@[k] == prev[k]);
                            let q = choose|q: int| 0 <= q < j && #[trigger] prev[k].1 == (old[q].1 + pw) as u64;
                            assert(sums@[k].1 == (old[q].1 + pw) as u64);
                        } else {
                            assert(sums@[k].1 == (old[j as int].1 + pw) as u64);
                        }
                    }
                }
            }
            j += 1;
        }
        proof {
            let ii = i as nat;
            assert forall|k: int| 0 <= k < sums.len() implies fits(#[trigger] sums@[k].1, ii + 1)
                && sums@[k].0 as nat == pick_sum(e, sums@[k].1, ii + 1) && sums@[k].0 <= target by {
                if k < old_len {
                    assert(sums@[k] == old[k]);
                    let m = old[k].1;
                    lemma_bit_add_pow(m, i as u64, 0);
                    assert(m >> ((i + 1) as u64) == 0) by (bit_vector)
                        requires m >> (i as u64) == 0, i < 63;
                    lemma_pick_sum_step(e, m, ii);
                    assert(!bit(m, ii)) by {
                        assert((m >> (i as u64)) & 1u64 == 0) by (bit_vector)
                            requires m >> (i as u64) == 0;
                    }
                }
            }
            assert forall|a: int, b: int| 0 <= a < b < sums.len() implies sums@[a].1 < sums@[b].1 by {
                if a < old_len && b >= old_len {
                    assert(sums@[a] == old[a]);
                    lemma_bit_add_pow(old[a].1, i as u64, 0);
                } else if b < old_len {
                    assert(sums@[a] == old[a]);
                    assert(sums@[b] == old[b]);
                }
            }
            assert forall|m: u64|
                fits(m, ii + 1) && #[trigger] pick_sum(e, m, ii + 1) <= target implies exists|k: int|
                    0 <= k < sums.len() && #[trigger] sums@[k].1 == m by {
                lemma_split_top(m, i as u64);
                lemma_pick_sum_step(e, m, ii);
                if (m >> (i as u64)) & 1u64 == 0 {
                    assert(fits(m, ii));
                    let k = choose|k: int| 0 <= k < old.len() && #[trigger] old[k].1 == m;
                    assert(sums@[k] == old[k]);
                } else {
                    let m0 = (m - pw) as u64;
                    assert(fits(m0, ii));
                    assert forall|jj: nat| jj < ii implies bit(m, jj) == bit(m0, jj) by {
                        lemma_bit_add_pow(m0, i as u64, jj as u64);
                    }
                    lemma_pick_ext(e, m, m0, ii);
                    assert(pick_sum(e, m0, ii) + e[i as int] <= target);
                    let q = choose|q: int| 0 <= q < old.len() && #[trigger] old[q].1 == m0;
                    assert(old[q].0 + x <= target);
                    let k = choose|k: int| old_len <= k < sums.len() && #[trigger] sums@[k].1 == (old[q].1 + pw) as u64;
                    assert(sums@[k].1 == m);
                }
            }
        }
        i += 1;
    }
    proof {
        assert(e.len() == n as nat);
        assert forall|k: int| 0 <= k < sums.len() implies fits(#[trigger] sums@[k].1, e.len()) && sums@[k].0 as nat == mask_sum(
            e, sums@[k].1) && sums@[k].0 <= target by {
            assert(mask_sum(e, sums@[k].1) == pick_sum(e, sums@[k].1, n as nat));
        }
        assert forall|m: u64| fits(m, e.len()) && #[trigger] mask_sum(e, m) <= target implies exists|i: int|
            0 <= i < sums.len() && #[trigger] sums@[i].1 == m by {
            assert(mask_sum(e, m) == pick_sum(e, m, n as nat));
        }
    }
    sums
}

/// Sorts `(sum, mask)` pairs by sum, by the standard library's unstable sort
/// keyed on the first field.
#[verifier::external_body]
pub(crate) fn sort_pairs_by_sum(v: &mut Vec<(u128, u64)>)
    ensures
        final(v)@.to_multiset() == old(v)@.to_multiset(),
        forall|i: int, j: int| 0 <= i < j < final(v)@.len() ==> final(v)@[i].0 <= final(v)@[j].0,
{
    v.sort_unstable_by_key(|x| x.0);
}

/// `r` holds exactly the `(sum, mask)` pairs of subsets of `e` with sum at
/// most `target`, each once, ordered by sum.
pub open spec fn sums_by_value(e: Seq<u128>, target: u128, r: Seq<(u128, u64)>) -> bool {
    &&& forall|i: int|
        0 <= i < r.len() ==> fits(#[trigger] r[i].1, e.len()) && r[i].0 as nat == mask_sum(
            e,
            r[i].1,
        ) && r[i].0 <= target
    &&& forall|i: int, j: int| 0 <= i < j < r.len() ==> r[i].0 <= r[j].0
    &&& forall|i: int, j: int| 0 <= i < j < r.len() ==> r[i].1 != r[j].1
    &&& forall|m: u64|
        fits(m, e.len()) && #[trigger] mask_sum(e, m) <= target ==> exists|i: int|
            0 <= i < r.len() && #[trigger] r[i].1 == m
}

/// All `(sum, mask)` pairs of subsets of `elems` with sum at most `target`,
/// ordered by sum.
pub fn build_sums_u128(elems: &[u128], target: u128) -> (r: Vec<(u128, u64)>)
    requires
        elems.len() < 64,
    ensures
        sums_by_value(elems@, target, r@),
{
    let mut v = build_sums_vec(elems, target);
    let ghost before = v@;
    sort_pairs_by_sum(&mut v);
    proof {
        broadcast use vstd::seq_lib::group_to_multiset_ensures, vstd::multiset::group_multiset_axioms;
        let e = elems@;
        assert forall|i: int| 0 <= i < v.len() implies fits(#[trigger] v@[i].1, e.len()) && v@[i].0 as nat
            == mask_sum(e, v@[i].1) && v@[i].0 <= target by {
            assert(v@.to_multiset().count(v@[i]) > 0);
            assert(before.contains(v@[i]));
        }
        assert forall|i: int, j: int| 0 <= i < j < v.len() implies v@[i].1 != v@[j].1 by {
            if v@[i].1 == v@[j].1 {
                assert(v@[i] == v@[j]);
                assert(v@.to_multiset().count(v@[i]) >= 2) by {
                    assert(v@.remove(j)[i] == v@[i]);
                    assert(v@.remove(j).contains(v@[i]));
                    assert(v@.remove(j).to_multiset().count(v@[i]) > 0);
                    assert(v@.remove(j).to_multiset() == v@.to_multiset().remove(v@[j]));
                }
                let a = choose|a: int| 0 <= a < before.len() && before[a] == v@[i];
                assert(before.remove(a).to_multiset() == before.to_multiset().remove(v@[i]));
                assert(before.to_multiset().count(v@[i]) >= 2);
                assert(before.remove(a).to_multiset().count(v@[i]) >= 1);
                assert(before.remove(a).contains(v@[i]));
                let b = choose|b: int| 0 <= b < before.remove(a).len() && before.remove(a)[b] == v@[i];
                let bb = if b < a { b } else { b + 1 };
                assert(before[bb] == v@[i]);
                assert(bb != a);
                if a < bb {
                    assert(before[a].1 < before[bb].1);
                } else {
                    assert(before[bb].1 < before[a].1);
                }
            }
        }
        assert forall|m: u64| fits(m, e.len()) && #[trigger] mask_sum(e, m) <= target implies exists|i: int|
            0 <= i < v.len() && #[trigger] v@[i].1 == m by {
            let k = choose|k: int| 0 <= k < before.len() && #[trigger] before[k].1 == m;
            assert(before.to_multiset().count(before[k]) > 0);
            assert(v@.contains(before[k]));
            let i = choose|i: int| 0 <= i < v.len() && v@[i] == before[k];
            assert(v@[i].1 == m);
        }
    }
    v
}

/// `r` lists `(sum, mask)` pairs of subsets of the values `e` with sum at
/// most `target`: every pair is right, masks strictly increase, and no such
/// subset is missing.
pub open spec fn big_sums_listed(e: Seq<nat>, target: nat, r: Seq<(BigNat, u64)>) -> bool {
    &&& forall|i: int|
        0 <= i < r.len() ==> fits(#[trigger] r[i].1, e.len()) && r[i].0@ == nat_mask_sum(
            e,
            r[i].1,
        ) && r[i].0@ <= target
    &&& forall|i: int, j: int| 0 <= i < j < r.len() ==> r[i].1 < r[j].1
    &&& forall|m: u64|
        fits(m, e.len()) && #[trigger] nat_mask_sum(e, m) <= target ==> exists|i: int|
            0 <= i < r.len() && #[trigger] r[i].1 == m
}

fn build_sums_big_unsorted(elems: &[BigNat], target: &BigNat) -> (r: Vec<(BigNat, u64)>)
    requires
        elems.len() < 64,
    ensures
        big_sums_listed(vals(elems@), target@, r@),
{
    let n = elems.len();
    let ghost e = vals(elems@);
    let mut sums: Vec<(BigNat, u64)> = Vec::new();
    sums.push((BigNat::zero(), 0u64));
    proof {
        lemma_fits_zero();
        assert(mask_pick(e, 0, 0) =~= Seq::<nat>::empty());
        assert forall|m: u64| fits(m, 0) && #[trigger] npick_sum(e, m, 0) <= target@ implies exists|k: int|
            0 <= k < sums.len() && #[trigger] sums@[k].1 == m by {
            assert(m == 0) by (bit_vector)
                requires m >> 0u64 == 0;
            assert(sums@[0].1 == m);
        }
    }
    let mut i: usize = 0;
    while i < n
        invariant
            n == elems.len(),
            n < 64,
            e == vals(elems@),
            0 <= i <= n,
            forall|k: int|
                0 <= k < sums.len() ==> fits(#[trigger] sums@[k].1, i as nat) && sums@[k].0@
                    == npick_sum(e, sums@[k].1, i as nat) && sums@[k].0@ <= target@,
            forall|a: int, b: int| 0 <= a < b < sums.len() ==> sums@[a].1 < sums@[b].1,
            forall|m: u64|
                fits(m, i as nat) && #[trigger] npick_sum(e, m, i as nat) <= target@ ==> exists|k: int|
                    0 <= k < sums.len() && #[trigger] sums@[k].1 == m,
        decreases n - i,
    {
        let x = &elems[i];
        let pw: u64 = 1u64 << (i as u64);
        let old_len = sums.len();
        let ghost old = sums@;
        let ghost oldv = sums@;
        let mut j: usize = 0;
        while j < old_len
            invariant
                n == elems.len(),
                n < 64,
                e == vals(elems@),
                i < n,
                x@ == e[i as int],
                pw == 1u64 << (i as u64),
                old_len == old.len(),
                0 <= j <= old_len,
                sums@.len() >= old_len,
                sums@.subrange(0, old_len as int) == old,
                forall|k: int|
                    0 <= k < old.len() ==> fits(#[trigger] old[k].1, i as nat) && old[k].0@
                        == npick_sum(e, old[k].1, i as nat) && old[k].0@ <= target@,
                forall|a: int, b: int| 0 <= a < b < old.len() ==> old[a].1 < old[b].1,
                forall|k: int|
                    old_len <= k < sums.len() ==> fits(#[trigger] sums@[k].1, (i + 1) as nat)
                        && sums@[k].0@ == npick_sum(e, sums@[k].1, (i + 1) as nat)
                        && sums@[k].0@ <= target@ && sums@[k].1 >= pw,
                forall|a: int, b: int|
                    old_len <= a < b < sums.len() ==> sums@[a].1 < sums@[b].1,
                forall|k: int|
                    old_len <= k < sums.len() ==> exists|q: int|
                        0 <= q < j && #[trigger] sums@[k].1 == (old[q].1 + pw) as u64,
                forall|q: int|
                    0 <= q < j && old[q].0@ + x@ <= target@ ==> exists|k: int|
                        old_len <= k < sums.len() && #[trigger] sums@[k].1 == (old[q].1 + pw) as u64,
            decreases old_len - j,
        {
            let m = sums[j].1;
            assert(old[j as int].1 == m);
            let ns = big_add(&sums[j].0, x);
            if big_le(&ns, target) {
                proof {
                    lemma_bit_add_pow(m, i as u64, i as u64);
                }
                let nm = m + pw;
                let ghost prev = sums@;
                proof {
                    assert forall|jj: nat| jj < i as nat implies bit(nm, jj) == bit(m, jj) by {
                        lemma_bit_add_pow(m, i as u64, jj as u64);
                    }
                    lemma_bit_add_pow(m, i as u64, i as u64);
                    lemma_pick_ext(e, nm, m, i as nat);
                    lemma_npick_step(e, nm, i as nat);
                    assert(bit(nm, i as nat));
                    assert forall|k: int| old_len <= k < sums.len() implies sums@[k].1 < nm by {
                        let q = choose|q: int| 0 <= q < j && #[trigger] sums@[k].1 == (old[q].1 + pw) as u64;
                        lemma_bit_add_pow(old[q].1, i as u64, 0);
                    }
                }
                sums.push((ns, nm));
                proof {
                    assert(sums@[sums.len() - 1].1 == (old[j as int].1 + pw) as u64);
                    assert forall|q: int|
                        0 <= q < j && old[q].0@ + x@ <= target@ implies exists|k: int|
                            old_len <= k < sums.len() && #[trigger] sums@[k].1 == (old[q].1 + pw) as u64 by {
                        let k = choose|k: int| old_len <= k < prev.len() && #[trigger] prev[k].1 == (old[q].1 + pw) as u64;
                        assert(sums@[k] == prev[k]);
                    }
                    assert forall|k: int|
                        old_len <= k < sums.len() implies exists|q: int|
                            0 <= q < j + 1 && #[trigger] sums@[k].1 == (old[q].1 + pw) as u64 by {
                        if k < prev.len() {
                            assert(sums@[k] == prev[k]);
                            let q = choose|q: int| 0 <= q < j && #[trigger] prev[k].1 == (old[q].1 + pw) as u64;
                            assert(sums@[k].1 == (old[q].1 + pw) as u64);
                        } else {
                            assert(sums@[k].1 == (old[j as int].1 + pw) as u64);
                        }
                    }
                }
            }
            j += 1;
        }
        proof {
            let ii = i as nat;
            assert forall|k: int| 0 <= k < sums.len() implies fits(#[trigger] sums@[k].1, ii + 1)
                && sums@[k].0@ == npick_sum(e, sums@[k].1, ii + 1) && sums@[k].0@ <= target@ by {
                if k < old_len {
                    assert(sums@[k] == old[k]);
                    let m = old[k].1;
                    lemma_bit_add_pow(m, i as u64, 0);
                    assert(m >> ((i + 1) as u64) == 0) by (bit_vector)
                        requires m >> (i as u64) == 0, i < 63;
                    lemma_npick_step(e, m, ii);
                    assert(!bit(m, ii)) by {
                        assert((m >> (i as u64)) & 1u64 == 0) by (bit_vector)
                            requires m >> (i as u64) == 0;
                    }
                }
            }
            assert forall|a: int, b: int| 0 <= a < b < sums.len() implies sums@[a].1 < sums@[b].1 by {
                if a < old_len && b >= old_len {
                    assert(sums@[a] == old[a]);
                    lemma_bit_add_pow(old[a].1, i as u64, 0);
                } else if b < old_len {
                    assert(sums@[a] == old[a]);
                    assert(sums@[b] == old[b]);
                }
            }
            assert forall|m: u64|
                fits(m, ii + 1) && #[trigger] npick_sum(e, m, ii + 1) <= target@ implies exists|k: int|
                    0 <= k < sums.len() && #[trigger] sums@[k].1 == m by {
                lemma_split_top(m, i as u64);
                lemma_npick_step(e, m, ii);
                if (m >> (i as u64)) & 1u64 == 0 {
                    assert(fits(m, ii));
                    let k = choose|k: int| 0 <= k < old.len() && #[trigger] old[k].1 == m;
                    assert(sums@[k] == old[k]);
                } else {
                    let m0 = (m - pw) as u64;
                    assert(fits(m0, ii));
                    assert forall|jj: nat| jj < ii implies bit(m, jj) == bit(m0, jj) by {
                        lemma_bit_add_pow(m0, i as u64, jj as u64);
                    }
                    lemma_pick_ext(e, m, m0, ii);
                    assert(npick_sum(e, m0, ii) + e[i as int] <= target@);
                    let q = choose|q: int| 0 <= q < old.len() && #[trigger] old[q].1 == m0;
                    assert(old[q].0@ + x@ <= target@);
                    let k = choose|k: int| old_len <= k < sums.len() && #[trigger] sums@[k].1 == (old[q].1 + pw) as u64;
                    assert(sums@[k].1 == m);
                }
            }
        }
        i += 1;
    }
    proof {
        assert(e.len() == n as nat);
        assert forall|k: int| 0 <= k < sums.len() implies fits(#[trigger] sums@[k].1, e.len()) && sums@[k].0@ == nat_mask_sum(
            e, sums@[k].1) && sums@[k].0@ <= target@ by {
            assert(nat_mask_sum(e, sums@[k].1) == npick_sum(e, sums@[k].1, n as nat));
        }
        assert forall|m: u64| fits(m, e.len()) && #[trigger] nat_mask_sum(e, m) <= target@ implies exists|i: int|
            0 <= i < sums.len() && #[trigger] sums@[i].1 == m by {
            assert(nat_mask_sum(e, m) == npick_sum(e, m, n as nat));
        }
    }
    sums
}

/// All `(sum, mask)` pairs of subsets of `elems` with sum at most `target`,
/// ordered by sum.
pub fn build_sums_big(elems: &[BigNat], target: &BigNat) -> (r: Vec<(BigNat, u64)>)
    requires
        elems.len() < 64,
    ensures
        forall|i: int|
            0 <= i < r.len() ==> fits(#[trigger] r@[i].1, elems@.len()) && r@[i].0@ == nat_mask_sum(
                vals(elems@),
                r@[i].1,
            ) && r@[i].0@ <= target@,
        forall|i: int, j: int| 0 <= i < j < r.len() ==> r@[i].0@ <= r@[j].0@,
        forall|i: int, j: int| 0 <= i < j < r.len() ==> r@[i].1 != r@[j].1,
        forall|m: u64|
            fits(m, elems@.len()) && #[trigger] nat_mask_sum(vals(elems@), m) <= target@ ==> exists|i: int|
                0 <= i < r.len() && #[trigger] r@[i].1 == m,
{
    let v = build_sums_big_unsorted(elems, target);
    let mut keys: Vec<BigNat> = Vec::new();
    let mut k: usize = 0;
    while k < v.len()
        invariant
            k <= v.len(),
            keys.len() == k,
            forall|q: int| 0 <= q < k ==> #[trigger] keys@[q]@ == v@[q].0@,
        decreases v.len() - k,
    {
        keys.push(v[k].0.copy());
        k += 1;
    }
    let order = crate::sort::sort_positions(&keys, false);
    let mut r: Vec<(BigNat, u64)> = Vec::new();
    let mut q: usize = 0;
    while q < order.len()
        invariant
            q <= order.len(),
            order.len() == v.len(),
            forall|j: int| 0 <= j < order.len() ==> order@[j] < v.len(),
            r.len() == q,
            forall|j: int| 0 <= j < q ==> #[trigger] r@[j].0@ == v@[order@[j] as int].0@ && r@[j].1 == v@[order@[j] as int].1,
        decreases order.len() - q,
    {
        let src = &v[order[q]];
        r.push((src.0.copy(), src.1));
        q += 1;
    }
    proof {
        broadcast use vstd::seq_lib::group_to_multiset_ensures, vstd::multiset::group_multiset_axioms;
        assert forall|i: int| 0 <= i < r.len() implies fits(#[trigger] r@[i].1, elems@.len()) && r@[i].0@ == nat_mask_sum(
            vals(elems@), r@[i].1) && r@[i].0@ <= target@ by {
            assert(r@[i].0@ == v@[order@[i] as int].0@);
            let o = order@[i] as int;
            assert(fits(v@[o].1, vals(elems@).len()));
        }
        assert forall|a: int, b: int| 0 <= a < b < r.len() implies r@[a].0@ <= r@[b].0@ by {
            assert(r@[a].0@ == v@[order@[a] as int].0@);
            assert(r@[b].0@ == v@[order@[b] as int].0@);
            assert(keys@[order@[a] as int]@ <= keys@[order@[b] as int]@);
        }
        crate::sort::lemma_positions_distinct(order@, v.len() as nat);
        assert forall|a: int, b: int| 0 <= a < b < r.len() implies r@[a].1 != r@[b].1 by {
            assert(order@[a] != order@[b]);
            let oa = order@[a] as int;
            let ob = order@[b] as int;
            if oa < ob {
                assert(v@[oa].1 < v@[ob].1);
            } else {
                assert(v@[ob].1 < v@[oa].1);
            }
        }
        assert forall|m: u64|
            fits(m, elems@.len()) && #[trigger] nat_mask_sum(vals(elems@), m) <= target@ implies exists|i: int|
                0 <= i < r.len() && #[trigger] r@[i].1 == m by {
            let k = choose|k: int| 0 <= k < v.len() && #[trigger] v@[k].1 == m;
            let ps = crate::sort::positions(v.len() as nat);
            assert(ps[k] == k as usize);
            assert(ps.to_multiset().count(k as usize) > 0);
            assert(order@.contains(k as usize));
            let i = choose|i: int| 0 <= i < order.len() && order@[i] == k as usize;
            assert(r@[i].0@ == v@[order@[i] as int].0@);
            assert(r@[i].1 == m);
        }
    }
    r
}

} // verus!
