//! Reading instances from text.
//!
//! An instance file holds the numbers separated by commas or white space,
//! then a line `goal: NUMBER`.  The numbers end at the first "\ngoal:"
//! (or, without one, at the last "goal:"); of the goal part only the
//! decimal digits count.  Tokens that are not decimal numbers are skipped.
//! The interactive form reads one comma-separated line of numbers and one
//! line with the target.
use vstd::prelude::*;
use crate::bignat::{BigNat, vals, parse_dec, big_parse_dec};

verus! {

/// `c` has the Unicode White_Space property.
pub open spec fn is_ws(c: char) -> bool {
    let x = c as u32;
    (9 <= x <= 13) || x == 0x20 || x == 0x85 || x == 0xa0 || x == 0x1680 || (0x2000 <= x <= 0x200a)
        || x == 0x2028 || x == 0x2029 || x == 0x202f || x == 0x205f || x == 0x3000
}

/// Whether `c` is white space (the White_Space property of Unicode, as
/// `char::is_whitespace` reads it).
pub(crate) fn char_is_whitespace(c: char) -> (r: bool)
    ensures
        r == is_ws(c),
{
    let x: u32 = c as u32;
    (9 <= x && x <= 13) || x == 0x20 || x == 0x85 || x == 0xa0 || x == 0x1680
        || (0x2000 <= x && x <= 0x200a) || x == 0x2028 || x == 0x2029 || x == 0x202f
        || x == 0x205f || x == 0x3000
}

/// A separator: a comma, or also white space when `ws` is set.
pub open spec fn is_sep(c: char, ws: bool) -> bool {
    c == ',' || (ws && is_ws(c))
}

/// The pieces of `s` between separators, empty ones included (as
/// `str::split` gives them).
pub open spec fn split_by(s: Seq<char>, ws: bool) -> Seq<Seq<char>>
    decreases s.len(),
{
    if s.len() == 0 {
        seq![Seq::empty()]
    } else {
        let r = split_by(s.drop_last(), ws);
        if is_sep(s.last(), ws) {
            r.push(Seq::empty())
        } else {
            r.update(r.len() - 1, r.last().push(s.last()))
        }
    }
}

/// `t` without leading white space.
pub open spec fn trim_start(t: Seq<char>) -> Seq<char>
    decreases t.len(),
{
    if t.len() > 0 && is_ws(t[0]) { trim_start(t.drop_first()) } else { t }
}

/// `t` without trailing white space.
pub open spec fn trim_end(t: Seq<char>) -> Seq<char>
    decreases t.len(),
{
    if t.len() > 0 && is_ws(t.last()) { trim_end(t.drop_last()) } else { t }
}

/// `t` without leading or trailing white space (`str::trim`).
pub open spec fn trim(t: Seq<char>) -> Seq<char> {
    trim_end(trim_start(t))
}

/// The values of the pieces that read as decimal numbers (each trimmed
/// first when `trimmed` is set), in order.
pub open spec fn parsed(pieces: Seq<Seq<char>>, trimmed: bool) -> Seq<nat>
    decreases pieces.len(),
{
    if pieces.len() == 0 {
        Seq::empty()
    } else {
        let r = parsed(pieces.drop_last(), trimmed);
        let t = if trimmed { trim(pieces.last()) } else { pieces.last() };
        match parse_dec(t) {
            Some(v) => r.push(v),
            None => r,
        }
    }
}

/// "goal:" starts at `i`.
pub open spec fn goal_at(s: Seq<char>, i: int) -> bool {
    &&& 0 <= i
    &&& i + 5 <= s.len()
    &&& s[i] == 'g' && s[i + 1] == 'o' && s[i + 2] == 'a' && s[i + 3] == 'l' && s[i + 4] == ':'
}

/// "\ngoal:" starts at `i`.
pub open spec fn line_goal_at(s: Seq<char>, i: int) -> bool {
    0 <= i && i + 6 <= s.len() && s[i] == '\n' && goal_at(s, i + 1)
}

/// The numbers part and the goal part of a file: split at the first
/// "\ngoal:", or else at the last "goal:"; nothing without either.
#[verifier::opaque]
pub open spec fn file_parts(s: Seq<char>) -> Option<(Seq<char>, Seq<char>)> {
    if exists|i: int| line_goal_at(s, i) {
        let i = choose|i: int| line_goal_at(s, i) && forall|j: int| 0 <= j < i ==> !line_goal_at(s, j);
        Some((s.take(i), s.skip(i + 6)))
    } else if exists|i: int| goal_at(s, i) {
        let i = choose|i: int| goal_at(s, i) && forall|j: int| i < j ==> !goal_at(s, j);
        Some((s.take(i), s.skip(i + 5)))
    } else {
        None
    }
}

/// The decimal digits of `s`, in order.
pub open spec fn digits_only(s: Seq<char>) -> Seq<char>
    decreases s.len(),
{
    if s.len() == 0 {
        Seq::empty()
    } else if '0' <= s.last() && s.last() <= '9' {
        digits_only(s.drop_last()).push(s.last())
    } else {
        digits_only(s.drop_last())
    }
}

/// What a file gives: the numbers and the goal, when the goal part has a
/// digit and at least one number reads.
pub open spec fn file_instance(s: Seq<char>) -> Option<(Seq<nat>, nat)> {
    match file_parts(s) {
        None => None,
        Some((e, g)) => {
            let nums = parsed(split_by(e, true), false);
            match parse_dec(digits_only(g)) {
                None => None,
                Some(t) => if nums.len() == 0 { None } else { Some((nums, t)) },
            }
        },
    }
}

/// Reads the pieces of `s` (split at commas, and at white space when `ws`
/// is set), each trimmed first when `trimmed` is set, keeping those that
/// are decimal numbers.
fn split_parse(s: &Vec<char>, ws: bool, trimmed: bool) -> (r: Vec<BigNat>)
    ensures
        vals(r@) == parsed(split_by(s@, ws), trimmed),
{
    let mut out: Vec<BigNat> = Vec::new();
    let mut cur: Vec<char> = Vec::new();
    let mut i: usize = 0;
    proof {
        assert(s@.take(0) =~= Seq::<char>::empty());
        assert(split_by(Seq::<char>::empty(), ws).drop_last() =~= Seq::<Seq<char>>::empty());
        assert(vals(out@) =~= Seq::<nat>::empty());
    }
    while i < s.len()
        invariant
            i <= s.len(),
            split_by(s@.take(i as int), ws).len() >= 1,
            cur@ == split_by(s@.take(i as int), ws).last(),
            vals(out@) == parsed(split_by(s@.take(i as int), ws).drop_last(), trimmed),
        decreases s.len() - i,
    {
        let c = s[i];
        let ghost pcs = split_by(s@.take(i as int), ws);
        proof {
            assert(s@.take(i + 1).drop_last() =~= s@.take(i as int));
            assert(s@.take(i + 1).last() == c);
        }
        let sep = c == ',' || (ws && char_is_whitespace(c));
        if sep {
            let ghost before = out@;
            finish_piece(&mut out, &cur, trimmed);
            proof {
                assert(split_by(s@.take(i + 1), ws) == pcs.push(Seq::empty()));
                assert(pcs.push(Seq::<char>::empty()).drop_last() =~= pcs);
                assert(pcs =~= pcs.drop_last().push(pcs.last()));
            }
            cur = Vec::new();
            proof {
                assert(cur@ =~= Seq::<char>::empty());
            }
        } else {
            cur.push(c);
            proof {
                let nxt = pcs.update(pcs.len() - 1, pcs.last().push(c));
                assert(split_by(s@.take(i + 1), ws) == nxt);
                assert(nxt.drop_last() =~= pcs.drop_last());
            }
        }
        i += 1;
    }
    proof {
        assert(s@.take(s.len() as int) =~= s@);
    }
    let ghost pcs = split_by(s@, ws);
    finish_piece(&mut out, &cur, trimmed);
    proof {
        assert(pcs =~= pcs.drop_last().push(pcs.last()));
    }
    out
}

/// Appends the value of the piece `cur` (trimmed first when `trimmed` is
/// set) when it reads as a decimal number.
fn finish_piece(out: &mut Vec<BigNat>, cur: &Vec<char>, trimmed: bool)
    ensures
        vals(final(out)@) == (match parse_dec(if trimmed { trim(cur@) } else { cur@ }) {
            Some(v) => vals(old(out)@).push(v),
            None => vals(old(out)@),
        }),
{
    let parsed = if trimmed {
        let t = trim_chars(cur);
        big_parse_dec(&t)
    } else {
        big_parse_dec(cur)
    };
    match parsed {
        Some(b) => {
            let ghost before = out@;
            out.push(b);
            proof {
                assert(vals(out@) =~= vals(before).push(b@));
            }
        },
        None => {},
    }
}

proof fn lemma_trim_start(t: Seq<char>, lo: int)
    requires
        0 <= lo <= t.len(),
        forall|k: int| 0 <= k < lo ==> is_ws(#[trigger] t[k]),
        lo == t.len() || !is_ws(t[lo]),
    ensures
        trim_start(t) == t.subrange(lo, t.len() as int),
    decreases lo,
{
    if lo == 0 {
        assert(t.subrange(0, t.len() as int) =~= t);
    } else {
        let d = t.drop_first();
        assert forall|k: int| 0 <= k < lo - 1 implies is_ws(#[trigger] d[k]) by {
            assert(d[k] == t[k + 1]);
        }
        lemma_trim_start(d, lo - 1);
        assert(d.subrange(lo - 1, d.len() as int) =~= t.subrange(lo, t.len() as int));
    }
}

proof fn lemma_trim_end(t: Seq<char>, hi: int)
    requires
        0 <= hi <= t.len(),
        forall|k: int| hi <= k < t.len() ==> is_ws(#[trigger] t[k]),
        hi == 0 || !is_ws(t[hi - 1]),
    ensures
        trim_end(t) == t.subrange(0, hi),
    decreases t.len() - hi,
{
    if hi == t.len() {
        assert(t.subrange(0, hi) =~= t);
    } else {
        let d = t.drop_last();
        assert forall|k: int| hi <= k < d.len() implies is_ws(#[trigger] d[k]) by {
            assert(d[k] == t[k]);
        }
        lemma_trim_end(d, hi);
        assert(d.subrange(0, hi) =~= t.subrange(0, hi));
    }
}

/// `t` without leading or trailing white space.
pub fn trim_chars(t: &Vec<char>) -> (r: Vec<char>)
    ensures
        r@ == trim(t@),
{
    let mut lo: usize = 0;
    while lo < t.len() && char_is_whitespace(t[lo])
        invariant
            lo <= t.len(),
            forall|k: int| 0 <= k < lo ==> is_ws(#[trigger] t@[k]),
        decreases t.len() - lo,
    {
        lo += 1;
    }
    proof {
        lemma_trim_start(t@, lo as int);
    }
    let ghost mid = t@.subrange(lo as int, t.len() as int);
    let mut hi: usize = t.len();
    while hi > lo && char_is_whitespace(t[hi - 1])
        invariant
            lo <= hi <= t.len(),
            mid == t@.subrange(lo as int, t.len() as int),
            forall|k: int| hi <= k < t.len() ==> is_ws(#[trigger] t@[k]),
        decreases hi - lo,
    {
        hi -= 1;
    }
    proof {
        assert forall|k: int| hi - lo <= k < mid.len() implies is_ws(#[trigger] mid[k]) by {
            assert(mid[k] == t@[k + lo]);
        }
        if hi > lo {
            assert(mid[hi - lo - 1] == t@[hi - 1]);
        }
        lemma_trim_end(mid, hi - lo);
        assert(mid.subrange(0, hi - lo) =~= t@.subrange(lo as int, hi as int));
    }
    let mut r: Vec<char> = Vec::new();
    let mut k: usize = lo;
    while k < hi
        invariant
            lo <= k <= hi,
            hi <= t.len(),
            r@ == t@.subrange(lo as int, k as int),
        decreases hi - k,
    {
        r.push(t[k]);
        proof {
            assert(t@.subrange(lo as int, k + 1) =~= t@.subrange(lo as int, k as int).push(t@[k as int]));
        }
        k += 1;
    }
    r
}

/// The numbers of one interactive line: the comma-separated pieces,
/// trimmed, that read as decimal numbers.
pub fn parse_elements_line(line: &Vec<char>) -> (r: Vec<BigNat>)
    ensures
        vals(r@) == parsed(split_by(line@, false), true),
{
    split_parse(line, false, true)
}

/// The target of one interactive line: the trimmed line as a decimal
/// number, or 0 when it is not one.
pub fn parse_target_line(line: &Vec<char>) -> (r: BigNat)
    ensures
        r@ == (match parse_dec(trim(line@)) {
            Some(v) => v,
            None => 0,
        }),
{
    let t = trim_chars(line);
    match big_parse_dec(&t) {
        Some(b) => b,
        None => BigNat::zero(),
    }
}

fn is_line_goal(s: &Vec<char>, i: usize) -> (r: bool)
    requires
        i < s.len(),
    ensures
        r == line_goal_at(s@, i as int),
{
    s.len() - i >= 6 && s[i] == '\n' && s[i + 1] == 'g' && s[i + 2] == 'o' && s[i + 3] == 'a' && s[i + 4] == 'l'
        && s[i + 5] == ':'
}

fn is_goal(s: &Vec<char>, i: usize) -> (r: bool)
    requires
        i < s.len(),
    ensures
        r == goal_at(s@, i as int),
{
    s.len() - i >= 5 && s[i] == 'g' && s[i + 1] == 'o' && s[i + 2] == 'a' && s[i + 3] == 'l' && s[i + 4] == ':'
}

fn copy_range(s: &Vec<char>, lo: usize, hi: usize) -> (r: Vec<char>)
    requires
        lo <= hi <= s.len(),
    ensures
        r@ == s@.subrange(lo as int, hi as int),
{
    let mut r: Vec<char> = Vec::new();
    let mut k: usize = lo;
    while k < hi
        invariant
            lo <= k <= hi,
            hi <= s.len(),
            r@ == s@.subrange(lo as int, k as int),
        decreases hi - k,
    {
        r.push(s[k]);
        proof {
            assert(s@.subrange(lo as int, k + 1) =~= s@.subrange(lo as int, k as int).push(s@[k as int]));
        }
        k += 1;
    }
    r
}

/// [`file_parts`], computed.
fn split_file(s: &Vec<char>) -> (r: Option<(Vec<char>, Vec<char>)>)
    ensures
        match file_parts(s@) {
            None => r is None,
            Some((e, g)) => r matches Some((a, b)) && a@ == e && b@ == g,
        },
{
    let mut i: usize = 0;
    while i < s.len()
        invariant
            i <= s.len(),
            forall|j: int| 0 <= j < i ==> !line_goal_at(s@, j),
        decreases s.len() - i,
    {
        if is_line_goal(s, i) {
            proof {
                reveal(file_parts);
                let k = choose|k: int| line_goal_at(s@, k) && forall|j: int| 0 <= j < k ==> !line_goal_at(s@, j);
                assert(line_goal_at(s@, i as int) && forall|j: int| 0 <= j < i ==> !line_goal_at(s@, j));
                if k < i {
                } else if k > i {
                }
                assert(k == i);
                assert(s@.take(i as int) =~= s@.subrange(0, i as int));
                assert(s@.skip(i + 6) =~= s@.subrange(i + 6, s.len() as int));
            }
            return Some((copy_range(s, 0, i), copy_range(s, i + 6, s.len())));
        }
        i += 1;
    }
    proof {
        reveal(file_parts);
        assert forall|j: int| !line_goal_at(s@, j) by {
            if 0 <= j < s.len() {
            }
        }
    }
    let mut k: usize = s.len();
    while k > 0
        invariant
            k <= s.len(),
            forall|j: int| !line_goal_at(s@, j),
            forall|j: int| k <= j ==> !goal_at(s@, j),
        decreases k,
    {
        k -= 1;
        if is_goal(s, k) {
            proof {
                reveal(file_parts);
                let q = choose|q: int| goal_at(s@, q) && forall|j: int| q < j ==> !goal_at(s@, j);
                assert(goal_at(s@, k as int) && forall|j: int| k < j ==> !goal_at(s@, j));
                assert(q == k);
                assert(s@.take(k as int) =~= s@.subrange(0, k as int));
                assert(s@.skip(k + 5) =~= s@.subrange(k + 5, s.len() as int));
            }
            return Some((copy_range(s, 0, k), copy_range(s, k + 5, s.len())));
        }
    }
    proof {
        reveal(file_parts);
        assert forall|j: int| !goal_at(s@, j) by {
            if j >= 0 {
                assert(k <= j);
            }
        }
    }
    None
}

/// The decimal digits of `s`, in order.
fn digits_of(s: &Vec<char>) -> (r: Vec<char>)
    ensures
        r@ == digits_only(s@),
{
    let mut r: Vec<char> = Vec::new();
    let mut i: usize = 0;
    while i < s.len()
        invariant
            i <= s.len(),
            r@ == digits_only(s@.take(i as int)),
        decreases s.len() - i,
    {
        let c = s[i];
        proof {
            assert(s@.take(i + 1).drop_last() =~= s@.take(i as int));
            assert(s@.take(i + 1).last() == c);
        }
        if '0' <= c && c <= '9' {
            r.push(c);
        }
        i += 1;
    }
    proof {
        assert(s@.take(s.len() as int) =~= s@);
    }
    r
}

/// The numbers and the goal of an instance file ([`file_instance`]).
pub fn parse_file_content(content: &Vec<char>) -> (r: Option<(Vec<BigNat>, BigNat)>)
    ensures
        match file_instance(content@) {
            None => r is None,
            Some((nums, t)) => r matches Some((v, b)) && vals(v@) == nums && b@ == t,
        },
{
    match split_file(content) {
        None => None,
        Some((elems, goal)) => {
            let digits = digits_of(&goal);
            let target = match big_parse_dec(&digits) {
                Some(t) => t,
                None => {
                    return None;
                },
            };
            let nums = split_parse(&elems, true, false);
            if nums.len() == 0 {
                return None;
            }
            Some((nums, target))
        },
    }
}

/// The value of ASCII digits.
pub open spec fn decimal_value(t: Seq<char>) -> nat
    decreases t.len(),
{
    if t.len() == 0 {
        0
    } else {
        decimal_value(t.drop_last()) * 10 + ((t.last() as int - '0' as int) as nat)
    }
}

/// Every character is an ASCII digit.
pub open spec fn all_digits(t: Seq<char>) -> bool {
    forall|i: int| 0 <= i < t.len() ==> '0' <= #[trigger] t[i] && t[i] <= '9'
}

/// An unsigned number as `str::parse` reads it: an optional `'+'`, then one
/// or more ASCII digits and nothing else (the size limit is the caller's).
pub open spec fn std_parse_uint(t: Seq<char>) -> Option<nat> {
    let s = if t.len() > 0 && t[0] == '+' { t.drop_first() } else { t };
    if s.len() > 0 && all_digits(s) { Some(decimal_value(s)) } else { None }
}

proof fn lemma_decimal_prefix(t: Seq<char>, k: int)
    requires
        0 <= k <= t.len(),
        all_digits(t),
    ensures
        decimal_value(t.take(k)) <= decimal_value(t),
    decreases t.len() - k,
{
    if k < t.len() {
        let u = t.take(k + 1);
        assert(u.drop_last() =~= t.take(k));
        assert('0' <= u.last() && u.last() <= '9') by {
            assert(u.last() == t[k]);
        }
        lemma_decimal_prefix(t, k + 1);
    } else {
        assert(t.take(k) =~= t);
    }
}

fn digit_value(c: char) -> (d: u64)
    requires
        '0' <= c && c <= '9',
    ensures
        d as int == c as int - '0' as int,
        d <= 9,
{
    (c as u32 - 48) as u64
}

/// [`std_parse_uint`] within `u64`, as `str::parse::<u64>` gives it.
pub fn parse_u64(t: &Vec<char>) -> (r: Option<u64>)
    ensures
        r == (match std_parse_uint(t@) {
            Some(v) => if v <= u64::MAX { Some(v as u64) } else { None },
            None => None,
        }),
{
    let start: usize = if t.len() > 0 && t[0] == '+' { 1 } else { 0 };
    let ghost s = if t@.len() > 0 && t@[0] == '+' { t@.drop_first() } else { t@ };
    proof {
        assert(s =~= t@.subrange(start as int, t.len() as int));
    }
    if start >= t.len() {
        return None;
    }
    let mut k: usize = start;
    while k < t.len()
        invariant
            start <= k <= t.len(),
            s == t@.subrange(start as int, t.len() as int),
            s == (if t@.len() > 0 && t@[0] == '+' { t@.drop_first() } else { t@ }),
            forall|i: int| start <= i < k ==> '0' <= #[trigger] t@[i] && t@[i] <= '9',
        decreases t.len() - k,
    {
        if !('0' <= t[k] && t[k] <= '9') {
            proof {
                assert(s[k - start] == t@[k as int]);
                assert(!all_digits(s));
            }
            return None;
        }
        k += 1;
    }
    proof {
        assert forall|i: int| 0 <= i < s.len() implies '0' <= #[trigger] s[i] && s[i] <= '9' by {
            assert(s[i] == t@[i + start]);
        }
    }
    let mut acc: u64 = 0;
    let mut i: usize = start;
    while i < t.len()
        invariant
            start <= i <= t.len(),
            s == t@.subrange(start as int, t.len() as int),
            s == (if t@.len() > 0 && t@[0] == '+' { t@.drop_first() } else { t@ }),
            all_digits(s),
            acc as nat == decimal_value(s.take(i - start)),
        decreases t.len() - i,
    {
        let c = t[i];
        proof {
            assert(s[i - start] == c);
        }
        let d = digit_value(c);
        proof {
            let u = s.take(i - start + 1);
            assert(u.drop_last() =~= s.take(i - start));
            assert(u.last() == c);
            assert(decimal_value(u) == acc * 10 + d);
        }
        match acc.checked_mul(10) {
            Some(m) => match m.checked_add(d) {
                Some(v) => {
                    acc = v;
                },
                None => {
                    proof {
                        lemma_decimal_prefix(s, i - start + 1);
                    }
                    return None;
                },
            },
            None => {
                proof {
                    lemma_decimal_prefix(s, i - start + 1);
                }
                return None;
            },
        }
        i += 1;
    }
    proof {
        assert(s.take(s.len() as int) =~= s);
    }
    Some(acc)
}

/// [`std_parse_uint`] within `u32`, as `str::parse::<u32>` gives it.
pub fn parse_u32(t: &Vec<char>) -> (r: Option<u32>)
    ensures
        r == (match std_parse_uint(t@) {
            Some(v) => if v <= u32::MAX { Some(v as u32) } else { None },
            None => None,
        }),
{
    match parse_u64(t) {
        Some(v) => if v <= 0xffff_ffff { Some(v as u32) } else { None },
        None => None,
    }
}

/// The first position at or after `from` holding `c`, or -1.
pub open spec fn find_from(s: Seq<char>, c: char, from: int) -> int
    decreases s.len() - from,
{
    if from < 0 || from >= s.len() {
        -1
    } else if s[from] == c {
        from
    } else {
        find_from(s, c, from + 1)
    }
}

/// [`find_from`], computed.
pub fn find_char(s: &Vec<char>, c: char, from: usize) -> (r: Option<usize>)
    ensures
        r matches Some(i) ==> i as int == find_from(s@, c, from as int) && from <= i < s.len() && s@[i as int] == c,
        r is None ==> find_from(s@, c, from as int) == -1,
{
    let mut j = from;
    while j < s.len()
        invariant
            from <= j,
            find_from(s@, c, from as int) == find_from(s@, c, j as int),
        decreases s.len() - j,
    {
        if s[j] == c {
            return Some(j);
        }
        j += 1;
    }
    None
}

/// The characters of `s` from `lo` to `hi`.
pub fn chars_range(s: &Vec<char>, lo: usize, hi: usize) -> (r: Vec<char>)
    requires
        lo <= hi <= s.len(),
    ensures
        r@ == s@.subrange(lo as int, hi as int),
{
    copy_range(s, lo, hi)
}

/// Whether `c` is white space.
pub(crate) fn char_is_ws(c: char) -> (r: bool)
    ensures
        r == is_ws(c),
{
    char_is_whitespace(c)
}

/// Leading white space up to `lo` is what [`trim_start`] drops.
pub proof fn lemma_trim_start_at(t: Seq<char>, lo: int)
    requires
        0 <= lo <= t.len(),
        forall|k: int| 0 <= k < lo ==> is_ws(#[trigger] t[k]),
        lo == t.len() || !is_ws(t[lo]),
    ensures
        trim_start(t) == t.subrange(lo, t.len() as int),
{
    lemma_trim_start(t, lo);
}

} // verus!
