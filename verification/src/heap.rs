//! Binary heaps of `(key, i, j)` triples, ordered lexicographically, used by
//! the four-list merge.  Their contract is about contents: what is pushed is
//! in the heap and what is popped was in it.
use vstd::prelude::*;
use crate::bignat::{BigNat, big_le, big_eq};

verus! {

broadcast use vstd::seq_lib::group_to_multiset_ensures, vstd::multiset::group_multiset_axioms;

proof fn lemma_swap_multiset<T>(s: Seq<T>, i: int, j: int)
    requires
        0 <= i < s.len(),
        0 <= j < s.len(),
    ensures
        s.update(i, s[j]).update(j, s[i]).to_multiset() == s.to_multiset(),
{
    let t = s.update(i, s[j]);
    assert(t.to_multiset() == s.to_multiset().insert(s[j]).remove(s[i]));
    assert(t.update(j, s[i]).to_multiset() == t.to_multiset().insert(s[i]).remove(t[j]));
    assert(t.update(j, s[i]).to_multiset() =~= s.to_multiset());
}

/// `a` comes before `b` in the lexicographic order of the triples.
pub open spec fn lex_lt(a: (u128, u32, u32), b: (u128, u32, u32)) -> bool {
    a.0 < b.0 || (a.0 == b.0 && (a.1 < b.1 || (a.1 == b.1 && a.2 < b.2)))
}

fn lex_lt_u128(a: (u128, u32, u32), b: (u128, u32, u32)) -> (r: bool)
    ensures
        r == lex_lt(a, b),
{
    a.0 < b.0 || (a.0 == b.0 && (a.1 < b.1 || (a.1 == b.1 && a.2 < b.2)))
}

fn swap_entries<T: Copy>(v: &mut Vec<T>, i: usize, j: usize)
    requires
        i < old(v).len(),
        j < old(v).len(),
    ensures
        final(v)@.to_multiset() == old(v)@.to_multiset(),
        final(v)@.len() == old(v)@.len(),
        final(v)@ == old(v)@.update(i as int, old(v)@[j as int]).update(j as int, old(v)@[i as int]),
{
    let a = v[i];
    let b = v[j];
    proof {
        lemma_swap_multiset(v@, i as int, j as int);
    }
    v.set(i, b);
    v.set(j, a);
}

/// A heap of `(u128, u32, u32)`; the smallest first, or the largest when `max`.
pub struct HeapU128 {
    max: bool,
    items: Vec<(u128, u32, u32)>,
}

impl View for HeapU128 {
    type V = Seq<(u128, u32, u32)>;

    closed spec fn view(&self) -> Seq<(u128, u32, u32)> {
        self.items@
    }
}

/// `a` may stand above `b` in a heap of the given kind: no later than `b`
/// in the heap's order.
pub open spec fn heap_le(max: bool, a: (u128, u32, u32), b: (u128, u32, u32)) -> bool {
    if max { !lex_lt(a, b) } else { !lex_lt(b, a) }
}

/// The parent position of `c > 0`.
pub open spec fn parent(c: int) -> int {
    (c - 1) / 2
}

/// Every entry is no earlier than its parent.
pub open spec fn heap_ordered(max: bool, s: Seq<(u128, u32, u32)>) -> bool {
    forall|c: int| 0 < c < s.len() ==> heap_le(max, s[parent(c)], #[trigger] s[c])
}

/// In an ordered heap the root comes no later than any entry.
proof fn lemma_root_first(max: bool, s: Seq<(u128, u32, u32)>, k: int)
    requires
        heap_ordered(max, s),
        0 <= k < s.len(),
    ensures
        heap_le(max, s[0], s[k]),
    decreases k,
{
    if k > 0 {
        lemma_root_first(max, s, parent(k));
    }
}

impl HeapU128 {
    /// The largest entry comes first.
    pub closed spec fn is_max(&self) -> bool {
        self.max
    }

    /// The entries are in heap order.
    pub closed spec fn wf(&self) -> bool {
        heap_ordered(self.max, self.items@)
    }

    pub fn new(max: bool) -> (h: HeapU128)
        ensures
            h@.len() == 0,
            h.is_max() == max,
            h.wf(),
    {
        HeapU128 { max, items: Vec::new() }
    }

    fn before(&self, a: (u128, u32, u32), b: (u128, u32, u32)) -> (r: bool)
        ensures
            r == (if self.max { lex_lt(b, a) } else { lex_lt(a, b) }),
    {
        if self.max {
            lex_lt_u128(b, a)
        } else {
            lex_lt_u128(a, b)
        }
    }

    pub fn is_empty(&self) -> (r: bool)
        ensures
            r == (self@.len() == 0),
    {
        self.items.len() == 0
    }

    pub fn len(&self) -> (r: usize)
        ensures
            r == self@.len(),
    {
        self.items.len()
    }

    pub fn push(&mut self, x: (u128, u32, u32))
        requires
            old(self).wf(),
        ensures
            final(self).wf(),
            final(self).is_max() == old(self).is_max(),
            final(self)@.to_multiset() == old(self)@.to_multiset().insert(x),
            forall|y: (u128, u32, u32)| #[trigger] final(self)@.contains(y) ==> old(self)@.contains(y) || y == x,
            final(self)@.contains(x),
    {
        let ghost mx = self.max;
        self.items.push(x);
        let mut i = self.items.len() - 1;
        while i > 0
            invariant
                i < self.items.len(),
                self.max == mx,
                self.items@.to_multiset() == old(self)@.to_multiset().insert(x),
                forall|c: int| 0 < c < self.items.len() && c != i ==> heap_le(mx, self.items@[parent(c)], #[trigger] self.items@[c]),
                forall|c: int|
                    0 < c < self.items.len() && parent(c) == i && i > 0 ==> heap_le(mx, self.items@[parent(i as int)], #[trigger] self.items@[c]),
            ensures
                self.max == mx,
                self.items@.to_multiset() == old(self)@.to_multiset().insert(x),
                heap_ordered(mx, self.items@),
            decreases i,
        {
            let par = (i - 1) / 2;
            if self.before(self.items[i], self.items[par]) {
                let ghost o = self.items@;
                swap_entries(&mut self.items, i, par);
                proof {
                    let n = self.items@.len();
                    assert forall|c: int| 0 < c < n && c != par implies heap_le(mx, self.items@[parent(c)], #[trigger] self.items@[c]) by {
                        if c == i {
                        } else if parent(c) == i {
                            assert(heap_le(mx, o[parent(i as int)], o[c]));
                        } else if parent(c) == par {
                            assert(heap_le(mx, o[par as int], o[c]));
                        } else {
                            assert(self.items@[c] == o[c]);
                            assert(self.items@[parent(c)] == o[parent(c)]);
                        }
                    }
                    assert forall|c: int|
                        0 < c < n && parent(c) == par && par > 0 implies heap_le(mx, self.items@[parent(par as int)], #[trigger] self.items@[c]) by {
                        assert(parent(par as int) != i && parent(par as int) != par);
                        assert(heap_le(mx, o[parent(par as int)], o[par as int]));
                        if c != i {
                            assert(heap_le(mx, o[par as int], o[c]));
                        }
                    }
                }
                i = par;
            } else {
                proof {
                    assert forall|c: int| 0 < c < self.items.len() implies heap_le(mx, self.items@[parent(c)], #[trigger] self.items@[c]) by {
                    }
                }
                break;
            }
        }
        proof {
            assert forall|y: (u128, u32, u32)| #[trigger] self@.contains(y) implies old(self)@.contains(y) || y == x by {
                assert(self@.to_multiset().count(y) > 0);
            }
            assert(self@.to_multiset().count(x) > 0);
            assert(heap_ordered(mx, self.items@));
        }
    }

    /// The element at the front, if any: the smallest (largest in a max
    /// heap) in the heap's order.
    pub fn peek(&self) -> (r: Option<(u128, u32, u32)>)
        requires
            self.wf(),
        ensures
            r is None <==> self@.len() == 0,
            r matches Some(x) ==> self@.contains(x) && x == self@[0],
            r matches Some(x) ==> forall|y: (u128, u32, u32)|
                #[trigger] self@.contains(y) ==> (if self.is_max() { y.0 <= x.0 } else { x.0 <= y.0 }),
    {
        if self.items.len() == 0 {
            None
        } else {
            proof {
                assert forall|y: (u128, u32, u32)| #[trigger] self@.contains(y) implies (if self.is_max() { y.0 <= self@[0].0 } else { self@[0].0 <= y.0 }) by {
                    let k = choose|k: int| 0 <= k < self@.len() && self@[k] == y;
                    lemma_root_first(self.max, self.items@, k);
                }
            }
            Some(self.items[0])
        }
    }

    /// Removes and returns the front element, if any.
    pub fn pop(&mut self) -> (r: Option<(u128, u32, u32)>)
        requires
            old(self).wf(),
        ensures
            final(self).wf(),
            final(self).is_max() == old(self).is_max(),
            r is None <==> old(self)@.len() == 0,
            r matches Some(x) ==> x == old(self)@[0] && old(self)@.contains(x) && final(self)@.to_multiset() == old(self)@.to_multiset().remove(x),
            r matches Some(x) ==> forall|y: (u128, u32, u32)|
                #[trigger] old(self)@.contains(y) ==> (if old(self).is_max() { y.0 <= x.0 } else { x.0 <= y.0 }),
            r is None ==> final(self)@ == old(self)@,
            forall|y: (u128, u32, u32)| #[trigger] final(self)@.contains(y) ==> old(self)@.contains(y),
    {
        let ghost mx = self.max;
        let n = self.items.len();
        if n == 0 {
            return None;
        }
        let top = self.items[0];
        proof {
            assert(self.items@.to_multiset().count(top) > 0);
            assert forall|y: (u128, u32, u32)| #[trigger] old(self)@.contains(y) implies (if old(self).is_max() { y.0 <= top.0 } else { top.0 <= y.0 }) by {
                let k = choose|k: int| 0 <= k < self@.len() && self@[k] == y;
                lemma_root_first(self.max, self.items@, k);
            }
        }
        let ghost o0 = self.items@;
        swap_entries(&mut self.items, 0, n - 1);
        let ghost before_pop = self.items@;
        let last = self.items.pop();
        proof {
            assert(before_pop =~= self.items@.push(before_pop[n - 1]));
            assert forall|c: int| 0 < c < self.items.len() && parent(c) != 0 implies heap_le(mx, self.items@[parent(c)], #[trigger] self.items@[c]) by {
                assert(self.items@[c] == o0[c]);
                assert(self.items@[parent(c)] == o0[parent(c)]);
            }
        }
        let len = self.items.len();
        let mut i: usize = 0;
        while i < len
            invariant
                len == self.items.len(),
                self.max == mx,
                i < len || len == 0,
                self.items@.to_multiset() == old(self)@.to_multiset().remove(top),
                forall|c: int| 0 < c < len && parent(c) != i ==> heap_le(mx, self.items@[parent(c)], #[trigger] self.items@[c]),
                forall|c: int|
                    0 < c < len && parent(c) == i && i > 0 ==> heap_le(mx, self.items@[parent(i as int)], #[trigger] self.items@[c]),
            ensures
                self.max == mx,
                len == self.items.len(),
                self.items@.to_multiset() == old(self)@.to_multiset().remove(top),
                heap_ordered(mx, self.items@),
            decreases len - i,
        {
            if i >= len / 2 {
                proof {
                    assert forall|c: int| 0 < c < len implies heap_le(mx, self.items@[parent(c)], #[trigger] self.items@[c]) by {
                        if parent(c) == i {
                            assert(2 * i + 1 <= c);
                        }
                    }
                }
                break;
            }
            let l = 2 * i + 1;
            let r = l + 1;
            let mut best = l;
            if r < len && self.before(self.items[r], self.items[l]) {
                best = r;
            }
            proof {
                assert(parent(l as int) == i);
                assert(r < len ==> parent(r as int) == i);
                assert(r < len ==> heap_le(mx, self.items@[best as int], self.items@[l as int]) && heap_le(mx, self.items@[best as int], self.items@[r as int]));
            }
            if self.before(self.items[best], self.items[i]) {
                let ghost o = self.items@;
                swap_entries(&mut self.items, i, best);
                proof {
                    assert forall|c: int| 0 < c < len && parent(c) != best implies heap_le(mx, self.items@[parent(c)], #[trigger] self.items@[c]) by {
                        if c == best {
                        } else if parent(c) == i {
                            assert(c == l || c == r);
                            assert(heap_le(mx, o[best as int], o[c]));
                        } else if c == i {
                            assert(heap_le(mx, o[parent(i as int)], o[best as int]));
                        } else {
                            assert(self.items@[c] == o[c]);
                            assert(parent(c) != i);
                            assert(self.items@[parent(c)] == o[parent(c)]);
                        }
                    }
                    assert forall|c: int|
                        0 < c < len && parent(c) == best && best > 0 implies heap_le(mx, self.items@[parent(best as int)], #[trigger] self.items@[c]) by {
                        assert(c != i && c != best);
                        assert(heap_le(mx, o[best as int], o[c]));
                    }
                }
                i = best;
            } else {
                proof {
                    assert forall|c: int| 0 < c < len implies heap_le(mx, self.items@[parent(c)], #[trigger] self.items@[c]) by {
                        if parent(c) == i {
                            assert(c == l || c == r);
                        }
                    }
                }
                break;
            }
        }
        proof {
            assert forall|y: (u128, u32, u32)| #[trigger] self@.contains(y) implies old(self)@.contains(y) by {
                assert(self@.to_multiset().count(y) > 0);
            }
        }
        Some(top)
    }
}

/// A heap of `(big key, u32, u32)`; the smallest first, or the largest when `max`.
pub struct HeapBig {
    max: bool,
    keys: Vec<BigNat>,
    items: Vec<(usize, u32, u32)>,
}

/// The visible triple of a stored entry.
pub open spec fn big_entry(keys: Seq<BigNat>, e: (usize, u32, u32)) -> (nat, u32, u32) {
    (keys[e.0 as int]@, e.1, e.2)
}

impl View for HeapBig {
    type V = Seq<(nat, u32, u32)>;

    closed spec fn view(&self) -> Seq<(nat, u32, u32)> {
        self.items@.map_values(|e: (usize, u32, u32)| big_entry(self.keys@, e))
    }
}

/// `a` comes before `b` in the lexicographic order of big triples.
pub open spec fn lex_lt_nat(a: (nat, u32, u32), b: (nat, u32, u32)) -> bool {
    a.0 < b.0 || (a.0 == b.0 && (a.1 < b.1 || (a.1 == b.1 && a.2 < b.2)))
}

/// `a` may stand above `b` in a big heap of the given kind.
pub open spec fn heap_le_nat(max: bool, a: (nat, u32, u32), b: (nat, u32, u32)) -> bool {
    if max { !lex_lt_nat(a, b) } else { !lex_lt_nat(b, a) }
}

/// Every entry is no earlier than its parent.
pub open spec fn heap_ordered_nat(max: bool, s: Seq<(nat, u32, u32)>) -> bool {
    forall|c: int| 0 < c < s.len() ==> heap_le_nat(max, s[parent(c)], #[trigger] s[c])
}

proof fn lemma_root_first_nat(max: bool, s: Seq<(nat, u32, u32)>, k: int)
    requires
        heap_ordered_nat(max, s),
        0 <= k < s.len(),
    ensures
        heap_le_nat(max, s[0], s[k]),
    decreases k,
{
    if k > 0 {
        lemma_root_first_nat(max, s, parent(k));
    }
}

impl HeapBig {
    /// Every stored entry names a key that exists, and the entries are in
    /// heap order.
    pub closed spec fn wf(&self) -> bool {
        &&& forall|k: int| 0 <= k < self.items.len() ==> self.items@[k].0 < self.keys.len()
        &&& heap_ordered_nat(self.max, self@)
    }

    /// The largest entry comes first.
    pub closed spec fn is_max(&self) -> bool {
        self.max
    }

    pub fn new(max: bool) -> (h: HeapBig)
        ensures
            h@.len() == 0,
            h.wf(),
            h.is_max() == max,
    {
        HeapBig { max, keys: Vec::new(), items: Vec::new() }
    }

    fn before(&self, a: (usize, u32, u32), b: (usize, u32, u32)) -> (r: bool)
        requires
            a.0 < self.keys.len(),
            b.0 < self.keys.len(),
        ensures
            r == (if self.max { lex_lt_nat(big_entry(self.keys@, b), big_entry(self.keys@, a)) } else { lex_lt_nat(
                big_entry(self.keys@, a),
                big_entry(self.keys@, b),
            ) }),
    {
        let (x, y) = if self.max {
            (b, a)
        } else {
            (a, b)
        };
        let kx = &self.keys[x.0];
        let ky = &self.keys[y.0];
        if !big_le(kx, ky) {
            false
        } else if !big_eq(kx, ky) {
            true
        } else {
            x.1 < y.1 || (x.1 == y.1 && x.2 < y.2)
        }
    }

    pub fn is_empty(&self) -> (r: bool)
        ensures
            r == (self@.len() == 0),
    {
        self.items.len() == 0
    }

    proof fn lemma_view_perm(keys: Seq<BigNat>, a: Seq<(usize, u32, u32)>, b: Seq<(usize, u32, u32)>)
        requires
            a.to_multiset() == b.to_multiset(),
        ensures
            a.map_values(|e: (usize, u32, u32)| big_entry(keys, e)).to_multiset()
                == b.map_values(|e: (usize, u32, u32)| big_entry(keys, e)).to_multiset(),
    {
        let f = |e: (usize, u32, u32)| big_entry(keys, e);
        crate::model::lemma_sub_multiset_map(a, b, f);
        crate::model::lemma_sub_multiset_map(b, a, f);
        assert(a.map_values(f).to_multiset() =~= b.map_values(f).to_multiset()) by {
            assert forall|w: (nat, u32, u32)| a.map_values(f).to_multiset().count(w) == b.map_values(f).to_multiset().count(w) by {}
        }
    }

    pub fn push(&mut self, key: BigNat, i: u32, j: u32)
        requires
            old(self).wf(),
        ensures
            final(self).wf(),
            final(self).is_max() == old(self).is_max(),
            final(self)@.to_multiset() == old(self)@.to_multiset().insert((key@, i, j)),
            forall|y: (nat, u32, u32)| #[trigger] final(self)@.contains(y) ==> old(self)@.contains(y) || y == (key@, i, j),
    {
        let ghost mx = self.max;
        let ghost old_items = self.items@;
        let slot = self.keys.len();
        self.keys.push(key);
        let ghost keys = self.keys@;
        proof {
            assert(old_items.map_values(|e: (usize, u32, u32)| big_entry(keys, e))
                =~= old(self)@);
        }
        self.items.push((slot, i, j));
        proof {
            assert(self.items@.map_values(|e: (usize, u32, u32)| big_entry(keys, e)) =~= old_items.map_values(
                |e: (usize, u32, u32)| big_entry(keys, e)).push((key@, i, j)));
        }
        let ghost pushed = self.items@;
        let mut k = self.items.len() - 1;
        while k > 0
            invariant
                k < self.items.len(),
                self.keys@ == keys,
                self.max == mx,
                forall|q: int| 0 <= q < self.items.len() ==> self.items@[q].0 < self.keys.len(),
                self.items@.to_multiset() == pushed.to_multiset(),
                forall|c: int| 0 < c < self.items.len() && c != k ==> heap_le_nat(mx, self@[parent(c)], #[trigger] self@[c]),
                forall|c: int|
                    0 < c < self.items.len() && parent(c) == k && k > 0 ==> heap_le_nat(mx, self@[parent(k as int)], #[trigger] self@[c]),
            ensures
                self.keys@ == keys,
                self.max == mx,
                forall|q: int| 0 <= q < self.items.len() ==> self.items@[q].0 < self.keys.len(),
                self.items@.to_multiset() == pushed.to_multiset(),
                heap_ordered_nat(mx, self@),
            decreases k,
        {
            let par = (k - 1) / 2;
            if self.before(self.items[k], self.items[par]) {
                let ghost o = self@;
                swap_entries(&mut self.items, k, par);
                proof {
                    let n = self.items@.len() as int;
                    assert(self@.len() == n);
                    assert forall|c: int| 0 <= c < n implies #[trigger] self@[c] == (if c == k { o[par as int] } else if c == par { o[k as int] } else { o[c] }) by {
                    }
                    assert forall|q: int| 0 <= q < self.items.len() implies self.items@[q].0 < self.keys.len() by {
                        assert(self.items@.to_multiset().count(self.items@[q]) > 0);
                        assert(pushed.contains(self.items@[q]));
                    }
                    assert forall|c: int| 0 < c < n && c != par implies heap_le_nat(mx, self@[parent(c)], #[trigger] self@[c]) by {
                        if c == k {
                        } else if parent(c) == k {
                            assert(heap_le_nat(mx, o[parent(k as int)], o[c]));
                        } else if parent(c) == par {
                            assert(heap_le_nat(mx, o[par as int], o[c]));
                        } else {
                            assert(self@[c] == o[c]);
                            assert(self@[parent(c)] == o[parent(c)]);
                        }
                    }
                    assert forall|c: int|
                        0 < c < n && parent(c) == par && par > 0 implies heap_le_nat(mx, self@[parent(par as int)], #[trigger] self@[c]) by {
                        assert(parent(par as int) != k && parent(par as int) != par);
                        assert(heap_le_nat(mx, o[parent(par as int)], o[par as int]));
                        if c != k {
                            assert(heap_le_nat(mx, o[par as int], o[c]));
                        }
                    }
                }
                k = par;
            } else {
                proof {
                    assert forall|c: int| 0 < c < self.items.len() implies heap_le_nat(mx, self@[parent(c)], #[trigger] self@[c]) by {
                    }
                }
                break;
            }
        }
        proof {
            Self::lemma_view_perm(keys, self.items@, pushed);
            assert forall|y: (nat, u32, u32)| #[trigger] self@.contains(y) implies old(self)@.contains(y) || y == (key@, i, j) by {
                assert(self@.to_multiset().count(y) > 0);
            }
        }
    }

    /// The front entry's key index, if any: its triple is the smallest
    /// (largest in a max heap) by key.
    pub fn peek(&self) -> (r: Option<(usize, u32, u32)>)
        requires
            self.wf(),
        ensures
            r is None <==> self@.len() == 0,
            r matches Some(e) ==> e.0 < self.key_count() && self@.contains(self.entry(e)) && self.entry(e) == self@[0],
            r matches Some(e) ==> forall|y: (nat, u32, u32)|
                #[trigger] self@.contains(y) ==> (if self.is_max() { y.0 <= self.entry(e).0 } else { self.entry(e).0 <= y.0 }),
    {
        if self.items.len() == 0 {
            None
        } else {
            proof {
                assert(self@[0] == big_entry(self.keys@, self.items@[0]));
                assert forall|y: (nat, u32, u32)| #[trigger] self@.contains(y) implies (if self.is_max() { y.0 <= self@[0].0 } else { self@[0].0 <= y.0 }) by {
                    let k = choose|k: int| 0 <= k < self@.len() && self@[k] == y;
                    lemma_root_first_nat(self.max, self@, k);
                }
            }
            Some(self.items[0])
        }
    }

    /// The visible triple of a stored entry.
    pub closed spec fn entry(&self, e: (usize, u32, u32)) -> (nat, u32, u32) {
        big_entry(self.keys@, e)
    }

    pub closed spec fn key_count(&self) -> nat {
        self.keys.len() as nat
    }

    /// The key stored under `slot`.
    pub fn key(&self, slot: usize) -> (r: &BigNat)
        requires
            slot < self.key_count(),
        ensures
            forall|e: (usize, u32, u32)| e.0 == slot ==> #[trigger] self.entry(e) == (r@, e.1, e.2),
    {
        &self.keys[slot]
    }

    /// Removes the front entry, if any.
    pub fn pop(&mut self) -> (r: bool)
        requires
            old(self).wf(),
        ensures
            final(self).wf(),
            final(self).is_max() == old(self).is_max(),
            r <==> old(self)@.len() > 0,
            r ==> final(self)@.to_multiset() == old(self)@.to_multiset().remove(old(self)@[0]),
            r ==> forall|y: (nat, u32, u32)|
                #[trigger] old(self)@.contains(y) ==> (if old(self).is_max() { y.0 <= old(self)@[0].0 } else { old(self)@[0].0 <= y.0 }),
            !r ==> final(self)@ == old(self)@,
            forall|y: (nat, u32, u32)| #[trigger] final(self)@.contains(y) ==> old(self)@.contains(y),
    {
        let ghost mx = self.max;
        let n = self.items.len();
        if n == 0 {
            return false;
        }
        let ghost keys = self.keys@;
        proof {
            assert forall|y: (nat, u32, u32)| #[trigger] old(self)@.contains(y) implies (if old(self).is_max() { y.0 <= old(self)@[0].0 } else { old(self)@[0].0 <= y.0 }) by {
                let k = choose|k: int| 0 <= k < self@.len() && self@[k] == y;
                lemma_root_first_nat(self.max, self@, k);
            }
        }
        let ghost orig = self.items@;
        let ghost ov = self@;
        let top = self.items[0];
        swap_entries(&mut self.items, 0, n - 1);
        let ghost before_pop = self.items@;
        let _ = self.items.pop();
        proof {
            assert(before_pop =~= self.items@.push(before_pop[n - 1]));
            assert(before_pop[n - 1] == top);
            assert(self.items@.to_multiset() == orig.to_multiset().remove(top));
        }
        let ghost popped = self.items@;
        proof {
            assert forall|q: int| 0 <= q < self.items.len() implies self.items@[q].0 < self.keys.len() by {
                assert(self.items@.to_multiset().count(self.items@[q]) > 0);
                assert(orig.to_multiset().count(self.items@[q]) > 0);
                assert(orig.contains(self.items@[q]));
            }
            assert forall|c: int| 0 < c < self.items.len() && parent(c) != 0 implies heap_le_nat(mx, self@[parent(c)], #[trigger] self@[c]) by {
                assert(self@[c] == ov[c]);
                assert(self@[parent(c)] == ov[parent(c)]);
            }
        }
        let len = self.items.len();
        let mut i: usize = 0;
        while i < len
            invariant
                len == self.items.len(),
                self.keys@ == keys,
                self.max == mx,
                i < len || len == 0,
                forall|q: int| 0 <= q < self.items.len() ==> self.items@[q].0 < self.keys.len(),
                self.items@.to_multiset() == popped.to_multiset(),
                forall|c: int| 0 < c < len && parent(c) != i ==> heap_le_nat(mx, self@[parent(c)], #[trigger] self@[c]),
                forall|c: int|
                    0 < c < len && parent(c) == i && i > 0 ==> heap_le_nat(mx, self@[parent(i as int)], #[trigger] self@[c]),
            ensures
                len == self.items.len(),
                self.keys@ == keys,
                self.max == mx,
                forall|q: int| 0 <= q < self.items.len() ==> self.items@[q].0 < self.keys.len(),
                self.items@.to_multiset() == popped.to_multiset(),
                heap_ordered_nat(mx, self@),
            decreases len - i,
        {
            if i >= len / 2 {
                proof {
                    assert forall|c: int| 0 < c < len implies heap_le_nat(mx, self@[parent(c)], #[trigger] self@[c]) by {
                        if parent(c) == i {
                            assert(2 * i + 1 <= c);
                        }
                    }
                }
                break;
            }
            let l = 2 * i + 1;
            let r = l + 1;
            let mut best = l;
            if r < len && self.before(self.items[r], self.items[l]) {
                best = r;
            }
            proof {
                assert(parent(l as int) == i);
                assert(r < len ==> parent(r as int) == i);
                assert(self@[l as int] == big_entry(keys, self.items@[l as int]));
                assert(r < len ==> self@[r as int] == big_entry(keys, self.items@[r as int]));
                assert(r < len ==> heap_le_nat(mx, self@[best as int], self@[l as int]) && heap_le_nat(mx, self@[best as int], self@[r as int]));
            }
            if self.before(self.items[best], self.items[i]) {
                let ghost o = self@;
                swap_entries(&mut self.items, i, best);
                proof {
                    assert forall|c: int| 0 <= c < len implies #[trigger] self@[c] == (if c == i { o[best as int] } else if c == best { o[i as int] } else { o[c] }) by {
                    }
                    assert forall|q: int| 0 <= q < self.items.len() implies self.items@[q].0 < self.keys.len() by {
                        assert(self.items@.to_multiset().count(self.items@[q]) > 0);
                        assert(popped.contains(self.items@[q]));
                    }
                    assert forall|c: int| 0 < c < len && parent(c) != best implies heap_le_nat(mx, self@[parent(c)], #[trigger] self@[c]) by {
                        if c == best {
                        } else if parent(c) == i {
                            assert(c == l || c == r);
                            assert(heap_le_nat(mx, o[best as int], o[c]));
                        } else if c == i {
                            assert(heap_le_nat(mx, o[parent(i as int)], o[best as int]));
                        } else {
                            assert(self@[c] == o[c]);
                            assert(parent(c) != i);
                            assert(self@[parent(c)] == o[parent(c)]);
                        }
                    }
                    assert forall|c: int|
                        0 < c < len && parent(c) == best && best > 0 implies heap_le_nat(mx, self@[parent(best as int)], #[trigger] self@[c]) by {
                        assert(c != i && c != best);
                        assert(heap_le_nat(mx, o[best as int], o[c]));
                    }
                }
                i = best;
            } else {
                proof {
                    assert(self@[i as int] == big_entry(keys, self.items@[i as int]));
                    assert forall|c: int| 0 < c < len implies heap_le_nat(mx, self@[parent(c)], #[trigger] self@[c]) by {
                        if parent(c) == i {
                            assert(c == l || c == r);
                        }
                    }
                }
                break;
            }
        }
        proof {
            let f = |e: (usize, u32, u32)| big_entry(keys, e);
            Self::lemma_view_perm(keys, self.items@, popped);
            assert(orig.map_values(f) == old(self)@);
            assert(orig.map_values(f)[0] == f(top));
            assert(orig.to_multiset().count(top) > 0);
            assert(orig =~= orig.remove(0).insert(0, top));
            assert(popped.to_multiset() == orig.to_multiset().remove(top));
            assert(orig.remove(0).to_multiset() == orig.to_multiset().remove(top));
            Self::lemma_view_perm(keys, popped, orig.remove(0));
            assert(orig.remove(0).map_values(f) =~= orig.map_values(f).remove(0));
            assert(orig.map_values(f).remove(0).to_multiset() == orig.map_values(f).to_multiset().remove(orig.map_values(f)[0]));
            assert forall|y: (nat, u32, u32)| #[trigger] self@.contains(y) implies old(self)@.contains(y) by {
                assert(self@.to_multiset().count(y) > 0);
            }
        }
        true
    }
}

} // verus!
