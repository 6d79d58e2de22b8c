//! Mathematical model of the subset-sum problem.
//!
//! A *solution* for `(nums, target)` is a sub-multiset of `nums` whose
//! elements add up to `target`.  Every engine in this crate is stated
//! against this model.
use vstd::prelude::*;
use vstd::multiset::Multiset;

verus! {

broadcast use vstd::seq_lib::group_to_multiset_ensures, vstd::multiset::group_multiset_axioms;

/// Sum of a sequence of naturals.
pub open spec fn sum_nat(s: Seq<nat>) -> nat
    decreases s.len(),
{
    if s.len() == 0 {
        0
    } else {
        sum_nat(s.drop_last()) + s.last()
    }
}

/// The values of a sequence of `u128` as naturals.
pub open spec fn nats(s: Seq<u128>) -> Seq<nat> {
    s.map_values(|x: u128| x as nat)
}

/// `sol` is drawn from `nums` (as a multiset) and sums to `target`.
pub open spec fn is_solution(nums: Seq<nat>, sol: Seq<nat>, target: nat) -> bool {
    &&& sol.to_multiset().subset_of(nums.to_multiset())
    &&& sum_nat(sol) == target
}

/// Some sub-multiset of `nums` sums to `target`.
pub open spec fn solvable(nums: Seq<nat>, target: nat) -> bool {
    exists|sol: Seq<nat>| is_solution(nums, sol, target)
}

/// `sol` is a sub-multiset of `nums`.
pub open spec fn sub_multiset<A>(sol: Seq<A>, nums: Seq<A>) -> bool {
    sol.to_multiset().subset_of(nums.to_multiset())
}

pub proof fn lemma_sum_nat_concat(a: Seq<nat>, b: Seq<nat>)
    ensures
        sum_nat(a + b) == sum_nat(a) + sum_nat(b),
    decreases b.len(),
{
    if b.len() == 0 {
        assert(a + b =~= a);
    } else {
        lemma_sum_nat_concat(a, b.drop_last());
        assert((a + b).drop_last() =~= a + b.drop_last());
    }
}

pub proof fn lemma_sum_nat_push(a: Seq<nat>, x: nat)
    ensures
        sum_nat(a.push(x)) == sum_nat(a) + x,
{
    assert(a.push(x).drop_last() =~= a);
}

pub proof fn lemma_nats_concat(a: Seq<u128>, b: Seq<u128>)
    ensures
        nats(a + b) == nats(a) + nats(b),
{
    assert(nats(a + b) =~= nats(a) + nats(b));
}

pub proof fn lemma_nats_push(a: Seq<u128>, x: u128)
    ensures
        nats(a.push(x)) == nats(a).push(x as nat),
{
    assert(nats(a.push(x)) =~= nats(a).push(x as nat));
}

/// Sub-multisets are closed under concatenation.
pub proof fn lemma_sub_multiset_concat<A>(a: Seq<A>, x: Seq<A>, b: Seq<A>, y: Seq<A>)
    requires
        sub_multiset(a, x),
        sub_multiset(b, y),
    ensures
        sub_multiset(a + b, x + y),
{
    vstd::seq_lib::lemma_multiset_commutative(a, b);
    vstd::seq_lib::lemma_multiset_commutative(x, y);
}

pub proof fn lemma_sub_multiset_trans<A>(a: Seq<A>, b: Seq<A>, c: Seq<A>)
    requires
        sub_multiset(a, b),
        sub_multiset(b, c),
    ensures
        sub_multiset(a, c),
{
}

pub proof fn lemma_sub_multiset_refl<A>(a: Seq<A>)
    ensures
        sub_multiset(a, a),
{
}

pub proof fn lemma_sub_multiset_empty<A>(a: Seq<A>)
    ensures
        sub_multiset(Seq::<A>::empty(), a),
{
    assert(Seq::<A>::empty().to_multiset() =~= Multiset::empty()) by {
        assert(Seq::<A>::empty().to_multiset().len() == 0);
    }
}

/// Taking a prefix and the rest keeps a sub-multiset.
pub proof fn lemma_sub_multiset_push<A>(a: Seq<A>, x: Seq<A>, v: A)
    requires
        sub_multiset(a, x),
    ensures
        sub_multiset(a.push(v), x.push(v)),
        sub_multiset(a, x.push(v)),
{
}

/// Applying a value map preserves sub-multisets.
pub proof fn lemma_sub_multiset_map<A, B>(a: Seq<A>, x: Seq<A>, f: spec_fn(A) -> B)
    requires
        sub_multiset(a, x),
    ensures
        sub_multiset(a.map_values(f), x.map_values(f)),
    decreases a.len(),
{
    if a.len() == 0 {
        lemma_sub_multiset_empty(x.map_values(f));
        assert(a.map_values(f) =~= Seq::<B>::empty());
    } else {
        let v = a.last();
        let a0 = a.drop_last();
        assert(a =~= a0.push(v));
        assert(a.to_multiset().count(v) >= 1);
        assert(x.to_multiset().count(v) >= 1);
        assert(x.contains(v));
        let i = choose|i: int| 0 <= i < x.len() && x[i] == v;
        let x0 = x.remove(i);
        assert(x0.to_multiset() == x.to_multiset().remove(v));
        assert(sub_multiset(a0, x0)) by {
            assert forall|w: A| a0.to_multiset().count(w) <= x0.to_multiset().count(w) by {
                if w == v {
                    assert(a.to_multiset().count(w) == a0.to_multiset().count(w) + 1);
                } else {
                    assert(a.to_multiset().count(w) == a0.to_multiset().count(w));
                }
            }
        }
        lemma_sub_multiset_map(a0, x0, f);
        let ma = a.map_values(f);
        let mx = x.map_values(f);
        assert(ma =~= a0.map_values(f).push(f(v)));
        assert(x0.map_values(f) =~= mx.remove(i));
        assert(mx.remove(i).to_multiset() == mx.to_multiset().remove(mx[i]));
        assert(mx[i] == f(v));
        assert forall|w: B| ma.to_multiset().count(w) <= mx.to_multiset().count(w) by {
            assert(ma.to_multiset() == a0.map_values(f).to_multiset().insert(f(v)));
            if w == f(v) {
                assert(mx.to_multiset().count(w) >= 1) by {
                    assert(mx.contains(w));
                }
            }
        }
    }
}


/// `s` has a subset (by position) summing to `r`, decided element by element.
pub open spec fn reach(s: Seq<nat>, r: nat) -> bool
    decreases s.len(),
{
    if r == 0 {
        true
    } else if s.len() == 0 {
        false
    } else {
        reach(s.drop_first(), r) || (s[0] <= r && reach(s.drop_first(), (r - s[0]) as nat))
    }
}

pub proof fn lemma_sum_nat_single(x: nat)
    ensures
        sum_nat(seq![x]) == x,
{
    assert(seq![x].drop_last() =~= Seq::<nat>::empty());
    assert(sum_nat(Seq::<nat>::empty()) == 0);
    assert(seq![x].last() == x);
    assert(sum_nat(seq![x]) == sum_nat(seq![x].drop_last()) + seq![x].last());
}

pub proof fn lemma_sum_nat_first(s: Seq<nat>)
    requires
        s.len() > 0,
    ensures
        sum_nat(s) == s[0] + sum_nat(s.drop_first()),
{
    lemma_sum_nat_concat(seq![s[0]], s.drop_first());
    lemma_sum_nat_single(s[0]);
    assert(seq![s[0]] + s.drop_first() =~= s);
    assert(seq![s[0]].drop_last() =~= Seq::<nat>::empty());
}

pub proof fn lemma_sum_nat_remove(s: Seq<nat>, i: int)
    requires
        0 <= i < s.len(),
    ensures
        sum_nat(s.remove(i)) + s[i] == sum_nat(s),
{
    assert(s =~= s.take(i) + s.skip(i));
    assert(s.remove(i) =~= s.take(i) + s.skip(i + 1));
    lemma_sum_nat_concat(s.take(i), s.skip(i));
    lemma_sum_nat_concat(s.take(i), s.skip(i + 1));
    lemma_sum_nat_first(s.skip(i));
    assert(s.skip(i).drop_first() =~= s.skip(i + 1));
}

proof fn lemma_sub_multiset_empty_inv<A>(a: Seq<A>)
    requires
        sub_multiset(a, Seq::<A>::empty()),
    ensures
        a.len() == 0,
{
    if a.len() > 0 {
        assert(a.to_multiset().count(a[0]) > 0);
        assert(Seq::<A>::empty().to_multiset().len() == 0);
        assert(Seq::<A>::empty().to_multiset().count(a[0]) == 0);
    }
}

/// The positional and the multiset notions of solvability agree.
pub proof fn lemma_reach_iff_solvable(s: Seq<nat>, r: nat)
    ensures
        reach(s, r) == solvable(s, r),
    decreases s.len(),
{
    if r == 0 {
        lemma_sub_multiset_empty(s);
        assert(is_solution(s, Seq::<nat>::empty(), r));
    } else if s.len() == 0 {
        if solvable(s, r) {
            let sol = choose|sol: Seq<nat>| is_solution(s, sol, r);
            lemma_sub_multiset_empty_inv(sol);
            assert(sol =~= Seq::<nat>::empty());
        }
    } else {
        let t = s.drop_first();
        let x = s[0];
        assert(s =~= seq![x] + t);
        vstd::seq_lib::lemma_multiset_commutative(seq![x], t);
        assert(seq![x].to_multiset() =~= Multiset::empty().insert(x)) by {
            assert(seq![x] =~= Seq::<nat>::empty().push(x));
            assert(Seq::<nat>::empty().to_multiset().len() == 0);
            assert(Seq::<nat>::empty().to_multiset() =~= Multiset::empty());
        }
        lemma_reach_iff_solvable(t, r);
        if r >= x {
            lemma_reach_iff_solvable(t, (r - x) as nat);
        }
        if reach(s, r) {
            if reach(t, r) {
                let sol = choose|sol: Seq<nat>| is_solution(t, sol, r);
                assert(sub_multiset(t, s)) by {
                    assert(s.to_multiset() == Multiset::empty().insert(x).add(t.to_multiset()));
                }
                lemma_sub_multiset_trans(sol, t, s);
                assert(is_solution(s, sol, r));
            } else {
                let rr = (r - x) as nat;
                let sol = choose|sol: Seq<nat>| is_solution(t, sol, rr);
                let sol2 = seq![x] + sol;
                lemma_sub_multiset_concat(seq![x], seq![x], sol, t);
                lemma_sum_nat_concat(seq![x], sol);
                lemma_sum_nat_single(x);
                assert(seq![x].drop_last() =~= Seq::<nat>::empty());
                assert(is_solution(s, sol2, r));
            }
        }
        if solvable(s, r) {
            let sol = choose|sol: Seq<nat>| is_solution(s, sol, r);
            if sol.contains(x) {
                let i = choose|i: int| 0 <= i < sol.len() && sol[i] == x;
                let sol2 = sol.remove(i);
                lemma_sum_nat_remove(sol, i);
                assert(sol2.to_multiset() == sol.to_multiset().remove(x));
                assert(sub_multiset(sol2, t)) by {
                    assert forall|w: nat| sol2.to_multiset().count(w) <= t.to_multiset().count(w) by {
                        assert(s.to_multiset() == Multiset::empty().insert(x).add(t.to_multiset()));
                    }
                }
                assert(is_solution(t, sol2, (r - x) as nat));
            } else {
                assert(sub_multiset(sol, t)) by {
                    assert forall|w: nat| sol.to_multiset().count(w) <= t.to_multiset().count(w) by {
                        assert(s.to_multiset() == Multiset::empty().insert(x).add(t.to_multiset()));
                        if w == x {
                            assert(sol.to_multiset().count(w) == 0);
                        }
                    }
                }
                assert(is_solution(t, sol, r));
            }
        }
    }
}

/// A reachable amount is at most the total.
pub proof fn lemma_reach_le_sum(s: Seq<nat>, r: nat)
    requires
        reach(s, r),
    ensures
        r <= sum_nat(s),
    decreases s.len(),
{
    if r > 0 {
        lemma_sum_nat_first(s);
        if reach(s.drop_first(), r) {
            lemma_reach_le_sum(s.drop_first(), r);
        } else {
            lemma_reach_le_sum(s.drop_first(), (r - s[0]) as nat);
        }
    }
}

/// A positive reachable amount is reached by some element followed by a
/// subset of what comes after it.
pub proof fn lemma_reach_pick(s: Seq<nat>, r: nat)
    requires
        r > 0,
        reach(s, r),
    ensures
        exists|i: int| 0 <= i < s.len() && s[i] <= r && #[trigger] reach(s.skip(i + 1), (r - s[i]) as nat),
    decreases s.len(),
{
    if reach(s.drop_first(), r) {
        lemma_reach_pick(s.drop_first(), r);
        let t = s.drop_first();
        let i = choose|i: int| 0 <= i < t.len() && t[i] <= r && #[trigger] reach(t.skip(i + 1), (r - t[i]) as nat);
        assert(t.skip(i + 1) =~= s.skip(i + 2));
        assert(s[i + 1] == t[i]);
        assert(reach(s.skip((i + 1) + 1), (r - s[i + 1]) as nat));
    } else {
        assert(s.skip(0int + 1) =~= s.drop_first());
        assert(reach(s.skip(0int + 1), (r - s[0]) as nat));
    }
}

/// `a` is `s` with some elements left out, the order kept.
pub open spec fn is_subseq<A>(a: Seq<A>, s: Seq<A>) -> bool
    decreases s.len(),
{
    if a.len() == 0 {
        true
    } else if s.len() == 0 {
        false
    } else {
        (a[0] == s[0] && is_subseq(a.drop_first(), s.drop_first())) || is_subseq(a, s.drop_first())
    }
}

/// An element of `s` followed by a subsequence of what comes after it is
/// a subsequence of `s` from any earlier start.
pub proof fn lemma_subseq_cons<A>(s: Seq<A>, start: int, i: int, rest: Seq<A>)
    requires
        0 <= start <= i < s.len(),
        is_subseq(rest, s.subrange(i + 1, s.len() as int)),
    ensures
        is_subseq(seq![s[i]] + rest, s.subrange(start, s.len() as int)),
    decreases i - start,
{
    let a = seq![s[i]] + rest;
    let t = s.subrange(start, s.len() as int);
    assert(t.drop_first() =~= s.subrange(start + 1, s.len() as int));
    if i == start {
        assert(a.drop_first() =~= rest);
        assert(a[0] == t[0]);
    } else {
        lemma_subseq_cons(s, start + 1, i, rest);
    }
}

/// A subsequence stays one when `s` grows at the end.
pub proof fn lemma_subseq_append<A>(a: Seq<A>, s: Seq<A>, t: Seq<A>)
    requires
        is_subseq(a, s),
    ensures
        is_subseq(a, s + t),
    decreases s.len(),
{
    if a.len() > 0 && s.len() > 0 {
        assert((s + t).drop_first() =~= s.drop_first() + t);
        if a[0] == s[0] && is_subseq(a.drop_first(), s.drop_first()) {
            lemma_subseq_append(a.drop_first(), s.drop_first(), t);
        } else {
            lemma_subseq_append(a, s.drop_first(), t);
        }
    }
}

/// A subsequence stays one when `s` grows at the front.
pub proof fn lemma_subseq_prepend<A>(a: Seq<A>, x: Seq<A>, s: Seq<A>)
    requires
        is_subseq(a, s),
    ensures
        is_subseq(a, x + s),
    decreases x.len(),
{
    if x.len() > 0 {
        lemma_subseq_prepend(a, x.drop_first(), s);
        assert((x + s).drop_first() =~= x.drop_first() + s);
    } else {
        assert(x + s =~= s);
    }
}

/// Subsequences of two parts make a subsequence of the parts joined.
pub proof fn lemma_subseq_concat<A>(a: Seq<A>, x: Seq<A>, b: Seq<A>, y: Seq<A>)
    requires
        is_subseq(a, x),
        is_subseq(b, y),
    ensures
        is_subseq(a + b, x + y),
    decreases x.len(),
{
    if a.len() == 0 {
        assert(a + b =~= b);
        lemma_subseq_prepend(b, x, y);
    } else {
        assert((x + y).drop_first() =~= x.drop_first() + y);
        if a[0] == x[0] && is_subseq(a.drop_first(), x.drop_first()) {
            lemma_subseq_concat(a.drop_first(), x.drop_first(), b, y);
            assert((a + b).drop_first() =~= a.drop_first() + b);
        } else {
            lemma_subseq_concat(a, x.drop_first(), b, y);
        }
    }
}

/// Appending the same element to both keeps a subsequence.
pub proof fn lemma_subseq_push<A>(a: Seq<A>, s: Seq<A>, v: A, keep: bool)
    requires
        is_subseq(a, s),
    ensures
        is_subseq(if keep { a.push(v) } else { a }, s.push(v)),
{
    if keep {
        assert(is_subseq(seq![v], seq![v])) by {
            let e = Seq::<A>::empty();
            assert(seq![v].drop_first() =~= e);
            assert(is_subseq(e, e));
            assert(seq![v][0] == seq![v][0]);
            assert(seq![v].len() == 1);
        }
        lemma_subseq_concat(a, s, seq![v], seq![v]);
        assert(a + seq![v] =~= a.push(v));
        assert(s + seq![v] =~= s.push(v));
    } else {
        lemma_subseq_append(a, s, seq![v]);
        assert(s + seq![v] =~= s.push(v));
    }
}

/// Appending `x` adds the amounts reachable with `x` in the subset.
pub proof fn lemma_reach_push(s: Seq<nat>, x: nat, r: nat)
    ensures
        reach(s.push(x), r) == (reach(s, r) || (x <= r && reach(s, (r - x) as nat))),
    decreases s.len(),
{
    if r > 0 && s.len() > 0 {
        assert(s.push(x).drop_first() =~= s.drop_first().push(x));
        lemma_reach_push(s.drop_first(), x, r);
        if s[0] <= r {
            lemma_reach_push(s.drop_first(), x, (r - s[0]) as nat);
        }
        if x <= r {
            assert(reach(s, (r - x) as nat) == (((r - x) as nat) == 0 || reach(s.drop_first(), (r - x) as nat) || (s[0] <= (r - x) as nat && reach(s.drop_first(), (r - x - s[0]) as nat))));
        }
    } else if r > 0 {
        assert(s.push(x).drop_first() =~= s);
    }
}

/// An amount reachable in `a + b` splits into an amount reachable in `a`
/// and the rest reachable in `b`.
pub proof fn lemma_reach_split(a: Seq<nat>, b: Seq<nat>, r: nat)
    requires
        reach(a + b, r),
    ensures
        exists|r1: nat| r1 <= r && #[trigger] reach(a, r1) && reach(b, (r - r1) as nat),
    decreases a.len(),
{
    if a.len() == 0 {
        assert(a + b =~= b);
        assert(reach(a, 0));
    } else if r == 0 {
        assert(reach(a, 0));
        assert(reach(b, 0));
    } else {
        let rest = a.drop_first();
        assert((a + b).drop_first() =~= rest + b);
        if reach(rest + b, r) {
            lemma_reach_split(rest, b, r);
            let r1 = choose|r1: nat| r1 <= r && #[trigger] reach(rest, r1) && reach(b, (r - r1) as nat);
            assert(reach(a, r1));
        } else {
            let r0 = (r - a[0]) as nat;
            lemma_reach_split(rest, b, r0);
            let r1 = choose|r1: nat| r1 <= r0 && #[trigger] reach(rest, r1) && reach(b, (r0 - r1) as nat);
            assert(reach(a, r1 + a[0]));
            assert((r - (r1 + a[0])) as nat == (r0 - r1) as nat);
        }
    }
}

/// A sub-multiset of `nums` mapped to naturals stays a sub-multiset.
pub proof fn lemma_nats_sub(a: Seq<u128>, x: Seq<u128>)
    requires
        sub_multiset(a, x),
    ensures
        sub_multiset(nats(a), nats(x)),
{
    lemma_sub_multiset_map(a, x, |v: u128| v as nat);
    assert(nats(a) =~= a.map_values(|v: u128| v as nat));
    assert(nats(x) =~= x.map_values(|v: u128| v as nat));
}


/// A sub-multiset never sums to more.
pub proof fn lemma_sub_multiset_sum_le(a: Seq<nat>, b: Seq<nat>)
    requires
        sub_multiset(a, b),
    ensures
        sum_nat(a) <= sum_nat(b),
    decreases a.len(),
{
    if a.len() > 0 {
        let v = a.last();
        let a0 = a.drop_last();
        assert(a =~= a0.push(v));
        assert(a.to_multiset().count(v) >= 1);
        assert(b.contains(v));
        let i = choose|i: int| 0 <= i < b.len() && b[i] == v;
        let b0 = b.remove(i);
        assert(b0.to_multiset() == b.to_multiset().remove(v));
        assert(sub_multiset(a0, b0)) by {
            assert forall|w: nat| a0.to_multiset().count(w) <= b0.to_multiset().count(w) by {
                if w == v {
                    assert(a.to_multiset().count(w) == a0.to_multiset().count(w) + 1);
                } else {
                    assert(a.to_multiset().count(w) == a0.to_multiset().count(w));
                }
            }
        }
        lemma_sub_multiset_sum_le(a0, b0);
        lemma_sum_nat_remove(b, i);
    }
}

/// Sequences with the same multiset have the same sum.
pub proof fn lemma_perm_sum(a: Seq<nat>, b: Seq<nat>)
    requires
        a.to_multiset() == b.to_multiset(),
    ensures
        sum_nat(a) == sum_nat(b),
{
    lemma_sub_multiset_sum_le(a, b);
    lemma_sub_multiset_sum_le(b, a);
}

/// A later suffix is a sub-multiset of an earlier one.
pub proof fn lemma_suffix_sub<A>(s: Seq<A>, start: int, i: int, n: int)
    requires
        0 <= start <= i <= n <= s.len(),
    ensures
        sub_multiset(s.subrange(i, n), s.subrange(start, n)),
{
    lemma_sub_multiset_empty(s.subrange(start, i));
    lemma_sub_multiset_refl(s.subrange(i, n));
    lemma_sub_multiset_concat(Seq::<A>::empty(), s.subrange(start, i), s.subrange(i, n), s.subrange(i, n));
    assert(Seq::<A>::empty() + s.subrange(i, n) =~= s.subrange(i, n));
    assert(s.subrange(start, i) + s.subrange(i, n) =~= s.subrange(start, n));
}

/// Any slice is a sub-multiset of the whole sequence.
pub proof fn lemma_slice_sub<A>(s: Seq<A>, lo: int, hi: int)
    requires
        0 <= lo <= hi <= s.len(),
    ensures
        sub_multiset(s.subrange(lo, hi), s),
{
    lemma_suffix_sub(s, 0, lo, s.len() as int);
    lemma_sub_multiset_empty(s.subrange(hi, s.len() as int));
    lemma_sub_multiset_refl(s.subrange(lo, hi));
    lemma_sub_multiset_concat(s.subrange(lo, hi), s.subrange(lo, hi), Seq::<A>::empty(), s.subrange(hi, s.len() as int));
    assert(s.subrange(lo, hi) + Seq::<A>::empty() =~= s.subrange(lo, hi));
    assert(s.subrange(lo, hi) + s.subrange(hi, s.len() as int) =~= s.subrange(lo, s.len() as int));
    assert(s.subrange(0, s.len() as int) =~= s);
}


/// Rearranging `u128`s rearranges their values.
pub proof fn lemma_nats_perm(a: Seq<u128>, b: Seq<u128>)
    requires
        a.to_multiset() == b.to_multiset(),
    ensures
        nats(a).to_multiset() == nats(b).to_multiset(),
        sum_nat(nats(a)) == sum_nat(nats(b)),
        forall|t: nat| solvable(nats(a), t) == solvable(nats(b), t),
{
    lemma_nats_sub(a, b);
    lemma_nats_sub(b, a);
    assert(nats(a).to_multiset() =~= nats(b).to_multiset()) by {
        assert forall|w: nat| nats(a).to_multiset().count(w) == nats(b).to_multiset().count(w) by {
        }
    }
    lemma_perm_sum(nats(a), nats(b));
    assert forall|t: nat| solvable(nats(a), t) == solvable(nats(b), t) by {
        assert forall|sol: Seq<nat>| is_solution(nats(a), sol, t) == is_solution(nats(b), sol, t) by {}
        if solvable(nats(a), t) {
            let sol = choose|sol: Seq<nat>| is_solution(nats(a), sol, t);
            assert(is_solution(nats(b), sol, t));
        }
        if solvable(nats(b), t) {
            let sol = choose|sol: Seq<nat>| is_solution(nats(b), sol, t);
            assert(is_solution(nats(a), sol, t));
        }
    }
}


/// Two sub-multisets with no value in common fit together.
pub proof fn lemma_disjoint_union(f: Seq<nat>, r: Seq<nat>, n: Seq<nat>)
    requires
        sub_multiset(f, n),
        sub_multiset(r, n),
        forall|k: int| 0 <= k < r.len() ==> !f.contains(#[trigger] r[k]),
    ensures
        sub_multiset(f + r, n),
{
    vstd::seq_lib::lemma_multiset_commutative(f, r);
    assert forall|v: nat| (f + r).to_multiset().count(v) <= n.to_multiset().count(v) by {
        if f.to_multiset().count(v) > 0 && r.to_multiset().count(v) > 0 {
            assert(r.contains(v));
            let k = choose|k: int| 0 <= k < r.len() && r[k] == v;
            assert(f.contains(v));
        }
    }
}

/// The values of `s` that are at most `r`, in order.
pub open spec fn at_most(s: Seq<nat>, r: nat) -> Seq<nat>
    decreases s.len(),
{
    if s.len() == 0 {
        Seq::empty()
    } else if s[0] <= r {
        seq![s[0]] + at_most(s.drop_first(), r)
    } else {
        at_most(s.drop_first(), r)
    }
}

proof fn lemma_reach_at_most(s: Seq<nat>, r: nat, q: nat)
    requires
        q <= r,
    ensures
        reach(s, q) == reach(at_most(s, r), q),
    decreases s.len(),
{
    if s.len() > 0 {
        let t = at_most(s, r);
        if s[0] <= r {
            assert(t.drop_first() =~= at_most(s.drop_first(), r));
            assert(t[0] == s[0]);
            lemma_reach_at_most(s.drop_first(), r, q);
            if s[0] <= q {
                lemma_reach_at_most(s.drop_first(), r, (q - s[0]) as nat);
            }
        } else {
            lemma_reach_at_most(s.drop_first(), r, q);
        }
    }
}

/// A number larger than the target is never needed: the instance is
/// solvable exactly when it is solvable with only the numbers of at most
/// the target.
pub proof fn law_too_large_never_needed(s: Seq<nat>, r: nat)
    ensures
        solvable(s, r) == solvable(at_most(s, r), r),
{
    lemma_reach_at_most(s, r, r);
    lemma_reach_iff_solvable(s, r);
    lemma_reach_iff_solvable(at_most(s, r), r);
}

} // verus!
