//! Sorting big naturals by value (merge sort).
use vstd::prelude::*;
use crate::bignat::{BigNat, vals, big_le};

verus! {

broadcast use vstd::seq_lib::group_to_multiset_ensures, vstd::multiset::group_multiset_axioms;

/// Values never increase along `s`.
pub open spec fn desc_sorted(s: Seq<nat>) -> bool {
    forall|i: int, j: int| 0 <= i < j < s.len() ==> s[i] >= s[j]
}

/// Values never decrease along `s`.
pub open spec fn asc_sorted(s: Seq<nat>) -> bool {
    forall|i: int, j: int| 0 <= i < j < s.len() ==> s[i] <= s[j]
}

proof fn lemma_vals_push(s: Seq<BigNat>, x: BigNat)
    ensures
        vals(s.push(x)) == vals(s).push(x@),
{
    assert(vals(s.push(x)) =~= vals(s).push(x@));
}

proof fn lemma_vals_take_push(s: Seq<BigNat>, i: int)
    requires
        0 <= i < s.len(),
    ensures
        vals(s.take(i + 1)) == vals(s.take(i)).push(s[i]@),
{
    assert(s.take(i + 1) =~= s.take(i).push(s[i]));
    lemma_vals_push(s.take(i), s[i]);
}

fn merge_desc(a: &Vec<BigNat>, b: &Vec<BigNat>) -> (r: Vec<BigNat>)
    requires
        desc_sorted(vals(a@)),
        desc_sorted(vals(b@)),
    ensures
        vals(r@).to_multiset() == vals(a@).to_multiset().add(vals(b@).to_multiset()),
        desc_sorted(vals(r@)),
{
    let mut r: Vec<BigNat> = Vec::new();
    let mut i: usize = 0;
    let mut j: usize = 0;
    proof {
        assert(a@.take(0) =~= Seq::<BigNat>::empty());
        assert(b@.take(0) =~= Seq::<BigNat>::empty());
        assert(vals(r@) =~= Seq::<nat>::empty());
        assert(vals(Seq::<BigNat>::empty()) =~= Seq::<nat>::empty());
    }
    while i < a.len() || j < b.len()
        invariant
            desc_sorted(vals(a@)),
            desc_sorted(vals(b@)),
            0 <= i <= a.len(),
            0 <= j <= b.len(),
            vals(r@).to_multiset() == vals(a@.take(i as int)).to_multiset().add(
                vals(b@.take(j as int)).to_multiset(),
            ),
            desc_sorted(vals(r@)),
            r.len() > 0 && i < a.len() ==> r@[r.len() - 1]@ >= a@[i as int]@,
            r.len() > 0 && j < b.len() ==> r@[r.len() - 1]@ >= b@[j as int]@,
        decreases a.len() + b.len() - i - j,
    {
        let take_a = if i < a.len() && j < b.len() {
            big_le(&b[j], &a[i])
        } else {
            i < a.len()
        };
        let ghost old_r = r@;
        if take_a {
            let x = a[i].copy();
            r.push(x);
            proof {
                lemma_vals_push(old_r, x);
                lemma_vals_take_push(a@, i as int);
                assert(vals(r@)[r.len() - 1] == a@[i as int]@);
                assert forall|p: int, q: int| 0 <= p < q < vals(r@).len() implies vals(r@)[p] >= vals(r@)[q] by {
                    if q == r.len() - 1 && p < q {
                        assert(vals(r@)[p] == vals(old_r)[p]);
                        assert(vals(old_r)[p] >= vals(old_r)[old_r.len() - 1]);
                    } else {
                        assert(vals(r@)[p] == vals(old_r)[p]);
                        assert(vals(r@)[q] == vals(old_r)[q]);
                    }
                }
                if i + 1 < a.len() {
                    assert(vals(a@)[i as int] >= vals(a@)[i + 1]);
                }
            }
            i += 1;
        } else {
            let x = b[j].copy();
            r.push(x);
            proof {
                lemma_vals_push(old_r, x);
                lemma_vals_take_push(b@, j as int);
                assert(vals(r@)[r.len() - 1] == b@[j as int]@);
                assert forall|p: int, q: int| 0 <= p < q < vals(r@).len() implies vals(r@)[p] >= vals(r@)[q] by {
                    if q == r.len() - 1 && p < q {
                        assert(vals(r@)[p] == vals(old_r)[p]);
                        assert(vals(old_r)[p] >= vals(old_r)[old_r.len() - 1]);
                    } else {
                        assert(vals(r@)[p] == vals(old_r)[p]);
                        assert(vals(r@)[q] == vals(old_r)[q]);
                    }
                }
                if j + 1 < b.len() {
                    assert(vals(b@)[j as int] >= vals(b@)[j + 1]);
                }
            }
            j += 1;
        }
    }
    proof {
        assert(a@.take(a.len() as int) =~= a@);
        assert(b@.take(b.len() as int) =~= b@);
    }
    r
}

fn sort_range_desc(v: &Vec<BigNat>, lo: usize, hi: usize) -> (r: Vec<BigNat>)
    requires
        lo <= hi <= v.len(),
    ensures
        vals(r@).to_multiset() == vals(v@.subrange(lo as int, hi as int)).to_multiset(),
        desc_sorted(vals(r@)),
    decreases hi - lo,
{
    if hi - lo == 0 {
        proof {
            assert(vals(v@.subrange(lo as int, hi as int)) =~= Seq::<nat>::empty());
            assert(vals(Seq::<BigNat>::empty()) =~= Seq::<nat>::empty());
        }
        Vec::new()
    } else if hi - lo == 1 {
        let mut r: Vec<BigNat> = Vec::new();
        r.push(v[lo].copy());
        proof {
            assert(vals(v@.subrange(lo as int, hi as int)) =~= seq![v@[lo as int]@]);
            assert(vals(r@) =~= seq![v@[lo as int]@]);
        }
        r
    } else {
        let mid = lo + (hi - lo) / 2;
        let a = sort_range_desc(v, lo, mid);
        let b = sort_range_desc(v, mid, hi);
        let r = merge_desc(&a, &b);
        proof {
            let s = v@.subrange(lo as int, hi as int);
            assert(s =~= v@.subrange(lo as int, mid as int) + v@.subrange(mid as int, hi as int));
            assert(vals(s) =~= vals(v@.subrange(lo as int, mid as int)) + vals(
                v@.subrange(mid as int, hi as int),
            ));
            vstd::seq_lib::lemma_multiset_commutative(
                vals(v@.subrange(lo as int, mid as int)),
                vals(v@.subrange(mid as int, hi as int)),
            );
        }
        r
    }
}

/// Copies of `v`, largest value first.
pub fn sort_desc(v: &Vec<BigNat>) -> (r: Vec<BigNat>)
    ensures
        vals(r@).to_multiset() == vals(v@).to_multiset(),
        desc_sorted(vals(r@)),
{
    let r = sort_range_desc(v, 0, v.len());
    proof {
        assert(v@.subrange(0, v.len() as int) =~= v@);
    }
    r
}

/// Copies of `v`, smallest value first.
pub fn sort_asc(v: &Vec<BigNat>) -> (r: Vec<BigNat>)
    ensures
        vals(r@).to_multiset() == vals(v@).to_multiset(),
        asc_sorted(vals(r@)),
{
    let d = sort_desc(v);
    let mut r: Vec<BigNat> = Vec::new();
    let mut k: usize = d.len();
    while k > 0
        invariant
            k <= d.len(),
            desc_sorted(vals(d@)),
            r.len() == d.len() - k,
            forall|q: int| 0 <= q < r.len() ==> #[trigger] r@[q]@ == d@[d.len() - 1 - q]@,
        decreases k,
    {
        k -= 1;
        r.push(d[k].copy());
    }
    proof {
        let rv = vals(r@);
        let dv = vals(d@);
        assert(rv =~= dv.reverse());
        dv.lemma_reverse_to_multiset();
        assert forall|p: int, q: int| 0 <= p < q < rv.len() implies rv[p] <= rv[q] by {
            assert(rv[p] == dv[dv.len() - 1 - p]);
            assert(rv[q] == dv[dv.len() - 1 - q]);
        }
    }
    r
}


/// The positions `0..n`.
pub open spec fn positions(n: nat) -> Seq<usize> {
    Seq::new(n, |i: int| i as usize)
}

/// Keys along `idx` never decrease (`desc == false`) or never increase.
pub open spec fn keys_ordered(keys: Seq<BigNat>, idx: Seq<usize>, desc: bool) -> bool {
    forall|a: int, b: int|
        0 <= a < b < idx.len() ==> if desc {
            keys[idx[a] as int]@ >= keys[idx[b] as int]@
        } else {
            keys[idx[a] as int]@ <= keys[idx[b] as int]@
        }
}

/// Position `x` goes before (or is) position `y`: by key, largest first
/// when `desc`, else smallest first; equal keys by position.
pub open spec fn pos_le(keys: Seq<nat>, desc: bool, x: usize, y: usize) -> bool {
    if keys[x as int] != keys[y as int] {
        if desc { keys[x as int] > keys[y as int] } else { keys[x as int] < keys[y as int] }
    } else {
        x <= y
    }
}

/// `idx` is ordered by [`pos_le`].
pub open spec fn stable_sorted(keys: Seq<nat>, desc: bool, idx: Seq<usize>) -> bool {
    forall|a: int, b: int| 0 <= a < b < idx.len() ==> pos_le(keys, desc, idx[a], idx[b])
}

/// The positions `0..keys.len()` in the order of [`pos_le`].
pub open spec fn stable_order(keys: Seq<nat>, desc: bool) -> Seq<usize> {
    positions(keys.len()).sort_by(|x: usize, y: usize| pos_le(keys, desc, x, y))
}

/// [`pos_le`] is a total order.
proof fn lemma_pos_le_total(keys: Seq<nat>, desc: bool)
    ensures
        vstd::relations::total_ordering(|x: usize, y: usize| pos_le(keys, desc, x, y)),
{
    let leq = |x: usize, y: usize| pos_le(keys, desc, x, y);
    assert(vstd::relations::reflexive(leq));
    assert(vstd::relations::antisymmetric(leq));
    assert(vstd::relations::transitive(leq));
    assert(vstd::relations::strongly_connected(leq));
}

proof fn lemma_pos_le_trans(keys: Seq<nat>, desc: bool, x: usize, y: usize, z: usize)
    requires
        pos_le(keys, desc, x, y),
        pos_le(keys, desc, y, z),
    ensures
        pos_le(keys, desc, x, z),
{
}

fn merge_idx(keys: &Vec<BigNat>, a: &Vec<usize>, b: &Vec<usize>, desc: bool) -> (r: Vec<usize>)
    requires
        forall|k: int| 0 <= k < a.len() ==> a@[k] < keys.len(),
        forall|k: int| 0 <= k < b.len() ==> b@[k] < keys.len(),
        stable_sorted(vals(keys@), desc, a@),
        stable_sorted(vals(keys@), desc, b@),
        forall|x: int, y: int| 0 <= x < a.len() && 0 <= y < b.len() ==> a@[x] < b@[y],
    ensures
        r@.to_multiset() == a@.to_multiset().add(b@.to_multiset()),
        forall|k: int| 0 <= k < r.len() ==> r@[k] < keys.len(),
        stable_sorted(vals(keys@), desc, r@),
{
    let ghost ks = vals(keys@);
    let mut r: Vec<usize> = Vec::new();
    let mut i: usize = 0;
    let mut j: usize = 0;
    proof {
        assert(a@.take(0) =~= Seq::<usize>::empty());
        assert(b@.take(0) =~= Seq::<usize>::empty());
    }
    while i < a.len() || j < b.len()
        invariant
            ks == vals(keys@),
            forall|k: int| 0 <= k < a.len() ==> a@[k] < keys.len(),
            forall|k: int| 0 <= k < b.len() ==> b@[k] < keys.len(),
            stable_sorted(ks, desc, a@),
            stable_sorted(ks, desc, b@),
            forall|x: int, y: int| 0 <= x < a.len() && 0 <= y < b.len() ==> a@[x] < b@[y],
            0 <= i <= a.len(),
            0 <= j <= b.len(),
            r@.to_multiset() == a@.take(i as int).to_multiset().add(b@.take(j as int).to_multiset()),
            forall|k: int| 0 <= k < r.len() ==> r@[k] < keys.len(),
            stable_sorted(ks, desc, r@),
            r.len() > 0 && i < a.len() ==> pos_le(ks, desc, r@[r.len() - 1], a@[i as int]),
            r.len() > 0 && j < b.len() ==> pos_le(ks, desc, r@[r.len() - 1], b@[j as int]),
        decreases a.len() + b.len() - i - j,
    {
        let take_a = if i < a.len() && j < b.len() {
            if desc {
                big_le(&keys[b[j]], &keys[a[i]])
            } else {
                big_le(&keys[a[i]], &keys[b[j]])
            }
        } else {
            i < a.len()
        };
        proof {
            if i < a.len() {
                assert(ks[a@[i as int] as int] == keys@[a@[i as int] as int]@);
            }
            if j < b.len() {
                assert(ks[b@[j as int] as int] == keys@[b@[j as int] as int]@);
            }
        }
        let ghost old_r = r@;
        if take_a {
            r.push(a[i]);
            proof {
                assert(a@.take(i + 1) =~= a@.take(i as int).push(a@[i as int]));
                assert forall|p: int, q: int| 0 <= p < q < r.len() implies pos_le(ks, desc, r@[p], r@[q]) by {
                    if q == r.len() - 1 && p < old_r.len() - 1 {
                        assert(r@[p] == old_r[p]);
                        assert(old_r[old_r.len() - 1] == r@[old_r.len() - 1]);
                        lemma_pos_le_trans(ks, desc, old_r[p], old_r[old_r.len() - 1], r@[q]);
                    }
                }
                if i + 1 < a.len() {
                    assert(pos_le(ks, desc, a@[i as int], a@[i + 1]));
                }
                if j < b.len() {
                    assert(a@[i as int] < b@[j as int]);
                }
            }
            i += 1;
        } else {
            r.push(b[j]);
            proof {
                assert(b@.take(j + 1) =~= b@.take(j as int).push(b@[j as int]));
                assert forall|p: int, q: int| 0 <= p < q < r.len() implies pos_le(ks, desc, r@[p], r@[q]) by {
                    if q == r.len() - 1 && p < old_r.len() - 1 {
                        assert(r@[p] == old_r[p]);
                        assert(old_r[old_r.len() - 1] == r@[old_r.len() - 1]);
                        lemma_pos_le_trans(ks, desc, old_r[p], old_r[old_r.len() - 1], r@[q]);
                    }
                }
                if j + 1 < b.len() {
                    assert(pos_le(ks, desc, b@[j as int], b@[j + 1]));
                }
            }
            j += 1;
        }
    }
    proof {
        assert(a@.take(a.len() as int) =~= a@);
        assert(b@.take(b.len() as int) =~= b@);
    }
    r
}

/// Every entry of a rearrangement of the positions `lo..hi` lies in that
/// range.
proof fn lemma_in_range(r: Seq<usize>, n: nat, lo: int, hi: int)
    requires
        0 <= lo <= hi <= n,
        n <= usize::MAX,
        r.to_multiset() == positions(n).subrange(lo, hi).to_multiset(),
    ensures
        forall|k: int| 0 <= k < r.len() ==> lo <= #[trigger] r[k] < hi,
{
    assert forall|k: int| 0 <= k < r.len() implies lo <= #[trigger] r[k] < hi by {
        assert(r.to_multiset().count(r[k]) > 0);
        assert(positions(n).subrange(lo, hi).contains(r[k]));
        let x = choose|x: int| 0 <= x < hi - lo && positions(n).subrange(lo, hi)[x] == r[k];
        assert(positions(n).subrange(lo, hi)[x] == positions(n)[lo + x]);
        assert(positions(n)[lo + x] == (lo + x) as usize);
    }
}

fn sort_idx_range(keys: &Vec<BigNat>, lo: usize, hi: usize, desc: bool) -> (r: Vec<usize>)
    requires
        lo <= hi <= keys.len(),
    ensures
        r@.to_multiset() == positions(keys.len() as nat).subrange(lo as int, hi as int).to_multiset(),
        forall|k: int| 0 <= k < r.len() ==> r@[k] < keys.len(),
        stable_sorted(vals(keys@), desc, r@),
    decreases hi - lo,
{
    if hi - lo == 0 {
        proof {
            assert(positions(keys.len() as nat).subrange(lo as int, hi as int) =~= Seq::<usize>::empty());
        }
        Vec::new()
    } else if hi - lo == 1 {
        let mut r: Vec<usize> = Vec::new();
        r.push(lo);
        proof {
            assert(positions(keys.len() as nat).subrange(lo as int, hi as int) =~= r@);
        }
        r
    } else {
        let mid = lo + (hi - lo) / 2;
        let a = sort_idx_range(keys, lo, mid, desc);
        let b = sort_idx_range(keys, mid, hi, desc);
        proof {
            lemma_in_range(a@, keys.len() as nat, lo as int, mid as int);
            lemma_in_range(b@, keys.len() as nat, mid as int, hi as int);
        }
        let r = merge_idx(keys, &a, &b, desc);
        proof {
            let ps = positions(keys.len() as nat);
            assert(ps.subrange(lo as int, hi as int) =~= ps.subrange(lo as int, mid as int) + ps.subrange(mid as int, hi as int));
            vstd::seq_lib::lemma_multiset_commutative(ps.subrange(lo as int, mid as int), ps.subrange(mid as int, hi as int));
        }
        r
    }
}

/// The positions of `keys` ordered by key (stable).
pub fn sort_positions(keys: &Vec<BigNat>, desc: bool) -> (r: Vec<usize>)
    ensures
        r@.to_multiset() == positions(keys.len() as nat).to_multiset(),
        r.len() == keys.len(),
        forall|k: int| 0 <= k < r.len() ==> r@[k] < keys.len(),
        keys_ordered(keys@, r@, desc),
        r@ == stable_order(vals(keys@), desc),
{
    let r = sort_idx_range(keys, 0, keys.len(), desc);
    proof {
        let ks = vals(keys@);
        let ps = positions(keys.len() as nat);
        assert(ps.subrange(0, keys.len() as int) =~= ps);
        assert(r@.len() == r@.to_multiset().len());
        assert forall|a: int, b: int| 0 <= a < b < r@.len() implies (if desc {
            keys@[r@[a] as int]@ >= keys@[r@[b] as int]@
        } else {
            keys@[r@[a] as int]@ <= keys@[r@[b] as int]@
        }) by {
            assert(pos_le(ks, desc, r@[a], r@[b]));
            assert(ks[r@[a] as int] == keys@[r@[a] as int]@);
            assert(ks[r@[b] as int] == keys@[r@[b] as int]@);
        }
        let leq = |x: usize, y: usize| pos_le(ks, desc, x, y);
        lemma_pos_le_total(ks, desc);
        ps.lemma_sort_by_ensures(leq);
        assert(ks.len() == ps.len());
        assert(vstd::relations::sorted_by(r@, leq)) by {
            assert forall|a: int, b: int| 0 <= a < b < r@.len() implies #[trigger] leq(r@[a], r@[b]) by {}
        }
        vstd::seq_lib::lemma_sorted_unique(r@, ps.sort_by(leq), leq);
    }
    r
}

/// Rearranging positions rearranges the picked values.
pub proof fn lemma_positions_perm(items: Seq<BigNat>, idx: Seq<usize>, out: Seq<BigNat>)
    requires
        items.len() <= usize::MAX,
        idx.to_multiset() == positions(items.len()).to_multiset(),
        forall|k: int| 0 <= k < idx.len() ==> idx[k] < items.len(),
        out.len() == idx.len(),
        forall|k: int| 0 <= k < out.len() ==> #[trigger] out[k]@ == items[idx[k] as int]@,
    ensures
        vals(out).to_multiset() == vals(items).to_multiset(),
{
    let f = |i: usize| if i < items.len() { items[i as int]@ } else { 0nat };
    crate::model::lemma_sub_multiset_map(idx, positions(items.len()), f);
    crate::model::lemma_sub_multiset_map(positions(items.len()), idx, f);
    assert(vals(out) =~= idx.map_values(f));
    assert forall|k: int| 0 <= k < items.len() implies #[trigger] vals(items)[k] == positions(items.len()).map_values(f)[k] by {
        assert(positions(items.len())[k] == k as usize);
        assert((k as usize) as int == k);
    }
    assert(vals(items) =~= positions(items.len()).map_values(f));
    assert(vals(out).to_multiset() =~= vals(items).to_multiset()) by {
        assert forall|w: nat| vals(out).to_multiset().count(w) == vals(items).to_multiset().count(w) by {}
    }
}

/// A rearrangement of the positions names each position once.
pub proof fn lemma_positions_distinct(idx: Seq<usize>, n: nat)
    requires
        n <= usize::MAX,
        idx.to_multiset() == positions(n).to_multiset(),
    ensures
        idx.no_duplicates(),
{
    let ps = positions(n);
    assert(ps.no_duplicates()) by {
        assert forall|i: int, j: int| 0 <= i < ps.len() && 0 <= j < ps.len() && i != j implies ps[i] != ps[j] by {
            assert(ps[i] == i as usize);
            assert(ps[j] == j as usize);
        }
    }
    ps.lemma_multiset_has_no_duplicates();
    idx.lemma_multiset_has_no_duplicates_conv();
}

} // verus!
