//! Enumeration of the rule subsets that hold no mutex pair.
//!
//! A candidate is kept as a counter over "absent" bits: bit `i` set means rule `i`
//! is left out. The counter runs upward; before each candidate is recorded, the
//! indices are scanned from the highest down, and every present rule forces its
//! lower-indexed mutex partners to be absent. The scan jumps over whole runs of
//! counter values that would hold a mutex pair.
use vstd::prelude::*;

use crate::rules::{mutex, PartitionError, Rule};

verus! {

/// Pointwise negation: turns membership flags into absent bits and back.
pub open spec fn flip(s: Seq<bool>) -> Seq<bool> {
    Seq::new(s.len(), |i: int| !s[i])
}

/// Membership flags that select no mutex pair.
pub open spec fn mutex_free(rules: Seq<Rule>, m: Seq<bool>) -> bool {
    forall|a: int, b: int|
        0 <= a < m.len() && 0 <= b < m.len() && m[a] && m[b] ==> !#[trigger] mutex(rules, a, b)
}

/// Absent bits that leave out at least one rule of every mutex pair.
pub open spec fn covers(rules: Seq<Rule>, c: Seq<bool>) -> bool {
    forall|a: int, b: int| #[trigger] mutex(rules, a, b) ==> c[a] || c[b]
}

/// `a` and `b` agree at every position above `q`.
pub open spec fn agree_above(a: Seq<bool>, b: Seq<bool>, q: int) -> bool {
    forall|j: int| q < j < a.len() ==> a[j] == b[j]
}

/// Counter order on bit sequences of one length: the highest differing bit decides.
pub open spec fn lex_lt(a: Seq<bool>, b: Seq<bool>) -> bool {
    &&& a.len() == b.len()
    &&& exists|q: int| 0 <= q < a.len() && !a[q] && b[q] && agree_above(a, b, q)
}

/// The flag sequences held by a list of flag vectors.
pub open spec fn flag_views(s: Seq<Vec<bool>>) -> Seq<Seq<bool>> {
    s.map_values(|v: Vec<bool>| v@)
}

/// `s` lists every mutex-free subset of the rules once, in counter order.
pub open spec fn is_enumeration(rules: Seq<Rule>, s: Seq<Seq<bool>>) -> bool {
    &&& forall|i: int| 0 <= i < s.len() ==> (#[trigger] s[i]).len() == rules.len() && mutex_free(rules, s[i])
    &&& forall|i: int, j: int| 0 <= i < j < s.len() ==> cand_lt(s[i], s[j])
    &&& forall|m: Seq<bool>|
        m.len() == rules.len() && #[trigger] mutex_free(rules, m) ==> exists|i: int| 0 <= i < s.len() && s[i] == m
}

/// Order of candidates (membership flags): the order of their counters.
pub open spec fn cand_lt(m1: Seq<bool>, m2: Seq<bool>) -> bool {
    lex_lt(flip(m1), flip(m2))
}

/// Sets the absent bit of every lower-indexed mutex partner of rule `a`.
pub open spec fn or_skip(rules: Seq<Rule>, c: Seq<bool>, a: int) -> Seq<bool> {
    Seq::new(c.len(), |b: int| c[b] || (b < a && mutex(rules, a, b)))
}

/// The scan over positions `p - 1` down to `0`.
pub open spec fn scan(rules: Seq<Rule>, c: Seq<bool>, p: int) -> Seq<bool>
    decreases p,
{
    if p <= 0 {
        c
    } else {
        let c2 = if !c[p - 1] {
            or_skip(rules, c, p - 1)
        } else {
            c
        };
        scan(rules, c2, p - 1)
    }
}

/// The counter after an increment whose carry stops at position `i`.
pub open spec fn bumped(c: Seq<bool>, i: int) -> Seq<bool> {
    Seq::new(
        c.len(),
        |j: int|
            if j < i {
                false
            } else if j == i {
                true
            } else {
                c[j]
            },
    )
}

/// Every pair of mutex rules at or above `t` already has an absent member.
pub open spec fn upper_covered(rules: Seq<Rule>, c: Seq<bool>, t: int) -> bool {
    forall|a: int, b: int| #[trigger] mutex(rules, a, b) && a >= t && b >= t ==> c[a] || c[b]
}

/// A counter from which the scan reaches the least covering counter: all bits
/// below `t` clear, and the bits from `t` up cover their own mutex pairs.
pub open spec fn reachable(rules: Seq<Rule>, c: Seq<bool>, t: int) -> bool {
    &&& 0 <= t <= c.len()
    &&& forall|i: int| 0 <= i < t ==> !c[i]
    &&& upper_covered(rules, c, t)
}

/// There are more than `ceiling` candidates: `ceiling + 1` distinct ones are given
/// in counter order.
pub open spec fn exceeds(rules: Seq<Rule>, ceiling: nat) -> bool {
    exists|s: Seq<Seq<bool>>|
        {
            &&& s.len() == ceiling + 1
            &&& forall|i: int|
                0 <= i < s.len() ==> (#[trigger] s[i]).len() == rules.len() && mutex_free(
                    rules,
                    s[i],
                )
            &&& forall|i: int, j: int| 0 <= i < j < s.len() ==> cand_lt(s[i], s[j])
        }
}

proof fn lemma_flip_flip(s: Seq<bool>)
    ensures
        flip(flip(s)) == s,
{
    assert(flip(flip(s)) =~= s);
}

proof fn lemma_free_iff_covers(rules: Seq<Rule>, m: Seq<bool>)
    requires
        m.len() == rules.len(),
    ensures
        mutex_free(rules, m) <==> covers(rules, flip(m)),
{
    if mutex_free(rules, m) {
        assert forall|a: int, b: int| #[trigger] mutex(rules, a, b) implies flip(m)[a] || flip(
            m,
        )[b] by {}
    }
    if covers(rules, flip(m)) {
        assert forall|a: int, b: int|
            0 <= a < m.len() && 0 <= b < m.len() && m[a] && m[b] implies !#[trigger] mutex(
            rules,
            a,
            b,
        ) by {
            if mutex(rules, a, b) {
                assert(flip(m)[a] || flip(m)[b]);
            }
        }
    }
}

pub(crate) proof fn lemma_lex_trans(a: Seq<bool>, b: Seq<bool>, c: Seq<bool>)
    requires
        lex_lt(a, b),
        lex_lt(b, c),
    ensures
        lex_lt(a, c),
{
    let q1 = choose|q: int| 0 <= q < a.len() && !a[q] && b[q] && agree_above(a, b, q);
    let q2 = choose|q: int| 0 <= q < b.len() && !b[q] && c[q] && agree_above(b, c, q);
    if q1 < q2 {
        assert(!a[q2] && c[q2] && agree_above(a, c, q2));
    } else {
        assert(q1 != q2);
        assert(!a[q1] && c[q1] && agree_above(a, c, q1));
    }
}

pub(crate) proof fn lemma_lex_irrefl(a: Seq<bool>)
    ensures
        !lex_lt(a, a),
{
}

proof fn lemma_lex_total_from(a: Seq<bool>, b: Seq<bool>, p: int)
    requires
        a.len() == b.len(),
        0 <= p <= a.len(),
        agree_above(a, b, p - 1),
        exists|j: int| 0 <= j < p && a[j] != b[j],
    ensures
        lex_lt(a, b) || lex_lt(b, a),
    decreases p,
{
    if a[p - 1] != b[p - 1] {
        if !a[p - 1] {
            assert(!a[p - 1] && b[p - 1] && agree_above(a, b, p - 1));
        } else {
            assert(!b[p - 1] && a[p - 1] && agree_above(b, a, p - 1));
        }
    } else {
        let j = choose|j: int| 0 <= j < p && a[j] != b[j];
        assert(j < p - 1);
        lemma_lex_total_from(a, b, p - 1);
    }
}

/// Two distinct bit sequences of one length are ordered one way or the other.
proof fn lemma_lex_total(a: Seq<bool>, b: Seq<bool>)
    requires
        a.len() == b.len(),
        a != b,
    ensures
        lex_lt(a, b) || lex_lt(b, a),
{
    if forall|j: int| 0 <= j < a.len() ==> a[j] == b[j] {
        assert(a =~= b);
    }
    lemma_lex_total_from(a, b, a.len() as int);
}

/// Setting bits never moves a counter down.
proof fn lemma_superset_not_below(c: Seq<bool>, r: Seq<bool>)
    requires
        c.len() == r.len(),
        forall|i: int| 0 <= i < c.len() && c[i] ==> r[i],
    ensures
        r == c || lex_lt(c, r),
{
    if r != c {
        lemma_lex_total(c, r);
    }
}

/// Below an increment lie exactly the counters up to the one incremented.
pub(crate) proof fn lemma_below_bumped(r: Seq<bool>, i: int, v: Seq<bool>)
    requires
        0 <= i < r.len(),
        !r[i],
        forall|j: int| 0 <= j < i ==> r[j],
        lex_lt(v, bumped(r, i)),
    ensures
        v == r || lex_lt(v, r),
{
    let c = bumped(r, i);
    let q = choose|q: int| 0 <= q < v.len() && !v[q] && c[q] && agree_above(v, c, q);
    if q > i {
        assert(!v[q] && r[q] && agree_above(v, r, q));
    } else {
        assert(q == i);
        if v != r {
            lemma_lex_total(v, r);
            if lex_lt(r, v) {
                let q2 = choose|q2: int| 0 <= q2 < r.len() && !r[q2] && v[q2] && agree_above(r, v, q2);
                assert(q2 >= i);
                assert(q2 != i);
                assert(c[q2] == r[q2]);
            }
        }
    }
}

pub(crate) proof fn lemma_below_full(r: Seq<bool>, v: Seq<bool>)
    requires
        forall|j: int| 0 <= j < r.len() ==> r[j],
        v.len() == r.len(),
    ensures
        v == r || lex_lt(v, r),
{
    if v != r {
        lemma_lex_total(v, r);
    }
}

/// The scan only sets bits, and the bits at or above position `p` keep their value.
proof fn lemma_scan_frame(rules: Seq<Rule>, c: Seq<bool>, p: int)
    requires
        p <= c.len(),
    ensures
        scan(rules, c, p).len() == c.len(),
        forall|i: int| 0 <= i < c.len() && c[i] ==> scan(rules, c, p)[i],
        forall|i: int| p <= i < c.len() && 0 <= i ==> scan(rules, c, p)[i] == c[i],
    decreases p,
{
    if p > 0 {
        let c2 = if !c[p - 1] {
            or_skip(rules, c, p - 1)
        } else {
            c
        };
        lemma_scan_frame(rules, c2, p - 1);
        assert(scan(rules, c, p) == scan(rules, c2, p - 1));
        assert forall|i: int| 0 <= i < c.len() && c[i] implies c2[i] by {}
        assert forall|i: int| p - 1 <= i < c.len() && 0 <= i implies c2[i] == c[i] by {}
    }
}

/// The scan's result leaves out one rule of every mutex pair whose higher index is
/// below `p`; pairs higher up must be covered beforehand.
proof fn lemma_scan_covers(rules: Seq<Rule>, c: Seq<bool>, p: int)
    requires
        c.len() == rules.len(),
        0 <= p <= c.len(),
        forall|a: int, b: int| #[trigger] mutex(rules, a, b) && b < a && a >= p ==> c[a] || c[b],
    ensures
        covers(rules, scan(rules, c, p)),
    decreases p,
{
    if p > 0 {
        let a0 = p - 1;
        let c2 = if !c[a0] {
            or_skip(rules, c, a0)
        } else {
            c
        };
        assert forall|a: int, b: int| #[trigger] mutex(rules, a, b) && b < a && a >= a0 implies c2[a]
            || c2[b] by {
            if a > a0 {
                assert(c[a] || c[b]);
            }
        }
        lemma_scan_covers(rules, c2, a0);
    } else {
        assert forall|a: int, b: int| #[trigger] mutex(rules, a, b) implies c[a] || c[b] by {
            if b > a {
                assert(mutex(rules, b, a));
            }
        }
    }
}

/// Starting from a counter below (or equal to) a covering `v` bitwise, agreeing
/// with it from `p` up, the scan ends at `v` or below it.
proof fn lemma_scan_below_sub(rules: Seq<Rule>, c: Seq<bool>, v: Seq<bool>, p: int)
    requires
        c.len() == rules.len(),
        v.len() == c.len(),
        0 <= p <= c.len(),
        covers(rules, v),
        forall|i: int| 0 <= i < p && c[i] ==> v[i],
        forall|i: int| p <= i < c.len() ==> c[i] == v[i],
    ensures
        scan(rules, c, p) == v || lex_lt(scan(rules, c, p), v),
    decreases p,
{
    if p == 0 {
        assert(c =~= v);
    } else {
        let a0 = p - 1;
        if c[a0] {
            lemma_scan_below_sub(rules, c, v, a0);
        } else if v[a0] {
            let c2 = or_skip(rules, c, a0);
            lemma_scan_frame(rules, c2, a0);
            let r = scan(rules, c, p);
            assert(r == scan(rules, c2, a0));
            assert(c2[a0] == c[a0]);
            assert forall|j: int| a0 < j < r.len() implies r[j] == v[j] by {
                assert(c2[j] == c[j]);
            }
            assert(!r[a0] && v[a0] && agree_above(r, v, a0));
        } else {
            let c2 = or_skip(rules, c, a0);
            assert forall|i: int| 0 <= i < a0 && c2[i] implies v[i] by {
                if !c[i] {
                    assert(mutex(rules, a0, i));
                }
            }
            lemma_scan_below_sub(rules, c2, v, a0);
        }
    }
}

/// From a counter whose bits at and above `t` cover their own pairs, the scan
/// keeps those bits.
proof fn lemma_scan_keeps_upper(rules: Seq<Rule>, c: Seq<bool>, t: int, p: int)
    requires
        c.len() == rules.len(),
        0 <= t,
        p <= c.len(),
        upper_covered(rules, c, t),
    ensures
        forall|i: int| t <= i < c.len() ==> scan(rules, c, p)[i] == c[i],
    decreases p,
{
    if p > 0 {
        let a0 = p - 1;
        if a0 < t {
            lemma_scan_frame(rules, c, p);
        } else {
            let c2 = if !c[a0] {
                or_skip(rules, c, a0)
            } else {
                c
            };
            assert forall|i: int| t <= i < c.len() implies c2[i] == c[i] by {
                if !c[a0] && i < a0 && mutex(rules, a0, i) {
                    assert(c[a0] || c[i]);
                }
            }
            assert forall|a: int, b: int| #[trigger] mutex(rules, a, b) && a >= t && b >= t implies c2[a]
                || c2[b] by {
                assert(c[a] || c[b]);
            }
            lemma_scan_keeps_upper(rules, c2, t, a0);
        }
    }
}

/// From a reachable counter the scan ends at the least covering counter not below it.
proof fn lemma_scan_least(rules: Seq<Rule>, c: Seq<bool>, t: int, v: Seq<bool>)
    requires
        c.len() == rules.len(),
        v.len() == c.len(),
        reachable(rules, c, t),
        covers(rules, v),
        v == c || lex_lt(c, v),
    ensures
        scan(rules, c, c.len() as int) == v || lex_lt(scan(rules, c, c.len() as int), v),
{
    let n = c.len() as int;
    if forall|i: int| t <= i < n ==> c[i] == v[i] {
        lemma_scan_below_sub(rules, c, v, n);
    } else {
        assert(v != c);
        let q = choose|q: int| 0 <= q < n && !c[q] && v[q] && agree_above(c, v, q);
        let r = scan(rules, c, n);
        lemma_scan_keeps_upper(rules, c, t, n);
        lemma_scan_frame(rules, c, n);
        if q < t {
            let i = choose|i: int| t <= i < n && c[i] != v[i];
            assert(false);
        }
        assert(!r[q] && v[q] && agree_above(r, v, q));
    }
}

/// For each rule `a`, the flags of its lower-indexed mutex partners.
fn skip_table(rules: &Vec<Rule>) -> (skip: Vec<Vec<bool>>)
    ensures
        skip.len() == rules.len(),
        forall|a: int| 0 <= a < skip.len() ==> (#[trigger] skip[a]).len() == a,
        forall|a: int, b: int|
            0 <= b < a < skip.len() ==> skip[a][b] == mutex(rules@, a, b),
{
    let mut skip: Vec<Vec<bool>> = Vec::new();
    let mut a: usize = 0;
    while a < rules.len()
        invariant
            a <= rules.len(),
            skip.len() == a,
            forall|x: int| 0 <= x < skip.len() ==> (#[trigger] skip[x]).len() == x,
            forall|x: int, b: int|
                0 <= b < x < skip.len() ==> skip[x][b] == mutex(rules@, x, b),
        decreases rules.len() - a,
    {
        let mut row: Vec<bool> = Vec::new();
        let mut b: usize = 0;
        while b < a
            invariant
                a < rules.len(),
                b <= a,
                row.len() == b,
                forall|y: int| 0 <= y < b ==> row[y] == mutex(rules@, a as int, y),
            decreases a - b,
        {
            row.push(rules[a].guard.conflicts_with(&rules[b].guard));
            b = b + 1;
        }
        skip.push(row);
        a = a + 1;
    }
    skip
}

/// Runs the scan on the counter.
fn scan_counter(rules: &Vec<Rule>, skip: &Vec<Vec<bool>>, c: &mut Vec<bool>)
    requires
        old(c).len() == rules.len(),
        skip.len() == rules.len(),
        forall|a: int| 0 <= a < skip.len() ==> (#[trigger] skip[a]).len() == a,
        forall|a: int, b: int|
            0 <= b < a < skip.len() ==> skip[a][b] == mutex(rules@, a, b),
    ensures
        final(c)@ == scan(rules@, old(c)@, old(c).len() as int),
{
    let ghost target = scan(rules@, c@, c.len() as int);
    let mut p: usize = c.len();
    while p > 0
        invariant
            c.len() == rules.len(),
            p <= c.len(),
            scan(rules@, c@, p as int) == target,
            skip.len() == rules.len(),
            forall|a: int| 0 <= a < skip.len() ==> (#[trigger] skip[a]).len() == a,
            forall|a: int, b: int|
                0 <= b < a < skip.len() ==> skip[a][b] == mutex(rules@, a, b),
        decreases p,
    {
        let a = p - 1;
        if !c[a] {
            let ghost c0 = c@;
            let mut b: usize = 0;
            while b < a
                invariant
                    a < c.len(),
                    c.len() == c0.len(),
                    c0.len() == rules.len(),
                    b <= a,
                    skip.len() == rules.len(),
                    forall|x: int| 0 <= x < skip.len() ==> (#[trigger] skip[x]).len() == x,
                    forall|x: int, y: int|
                        0 <= y < x < skip.len() ==> skip[x][y] == mutex(rules@, x, y),
                    forall|y: int|
                        0 <= y < c.len() ==> c@[y] == (c0[y] || (y < b && mutex(
                            rules@,
                            a as int,
                            y,
                        ))),
                decreases a - b,
            {
                if skip[a][b] {
                    c.set(b, true);
                }
                b = b + 1;
            }
            assert(c@ =~= or_skip(rules@, c0, a as int));
        }
        p = a;
    }
    assert(scan(rules@, c@, 0) == c@);
}

/// Increments the counter; `None` when every bit was already set (the counter
/// has run through all values), the carry's stopping position otherwise.
pub(crate) fn increment(c: &mut Vec<bool>) -> (r: Option<usize>)
    ensures
        r is None ==> final(c)@ == old(c)@ && forall|j: int| 0 <= j < old(c).len() ==> old(c)@[j],
        r matches Some(i) ==> {
            &&& i < old(c).len()
            &&& !old(c)@[i as int]
            &&& forall|j: int| 0 <= j < i ==> old(c)@[j]
            &&& final(c)@ == bumped(old(c)@, i as int)
        },
{
    let mut i: usize = 0;
    while i < c.len() && c[i]
        invariant
            i <= c.len(),
            forall|j: int| 0 <= j < i ==> c@[j],
        decreases c.len() - i,
    {
        i = i + 1;
    }
    if i == c.len() {
        return None;
    }
    let ghost c0 = c@;
    c.set(i, true);
    let mut j: usize = 0;
    while j < i
        invariant
            j <= i,
            i < c.len(),
            c.len() == c0.len(),
            forall|k: int|
                0 <= k < c.len() ==> c@[k] == (if k < j {
                    false
                } else if k == i {
                    true
                } else {
                    c0[k]
                }),
        decreases i - j,
    {
        c.set(j, false);
        j = j + 1;
    }
    assert(c@ =~= bumped(c0, i as int));
    Some(i)
}

fn flipped(c: &Vec<bool>) -> (r: Vec<bool>)
    ensures
        r@ == flip(c@),
{
    let mut r: Vec<bool> = Vec::new();
    let mut i: usize = 0;
    while i < c.len()
        invariant
            i <= c.len(),
            r.len() == i,
            forall|j: int| 0 <= j < i ==> r@[j] == !c@[j],
        decreases c.len() - i,
    {
        r.push(!c[i]);
        i = i + 1;
    }
    assert(r@ =~= flip(c@));
    r
}

/// Every subset of the rules that holds no mutex pair, as membership flags, in
/// counter order; fails once more than `ceiling` candidates have been realized.
pub fn enumerate_subsets(rules: &Vec<Rule>, ceiling: usize) -> (r: Result<
    Vec<Vec<bool>>,
    PartitionError,
>)
    requires
        ceiling < usize::MAX,
    ensures
        r matches Ok(out) ==> out.len() <= ceiling && is_enumeration(rules@, flag_views(out@)),
        r is Err <==> !fits_ceiling(rules@, ceiling as nat),
        r matches Err(e) ==> e == (PartitionError::PartitionSpaceExceeded {
            ceiling,
            observed: (ceiling + 1) as usize,
        }) && exceeds(rules@, ceiling as nat),
{
    let n = rules.len();
    let skip = skip_table(rules);
    let mut c: Vec<bool> = Vec::new();
    while c.len() < n
        invariant
            c.len() <= n,
            forall|j: int| 0 <= j < c.len() ==> !c@[j],
        decreases n - c.len(),
    {
        c.push(false);
    }
    let ghost mut t: int = n as int;
    let ghost mut outs: Seq<Seq<bool>> = Seq::empty();
    let mut out: Vec<Vec<bool>> = Vec::new();
    loop
        invariant
            n == rules.len(),
            c.len() == n,
            skip.len() == rules.len(),
            forall|a: int| 0 <= a < skip.len() ==> (#[trigger] skip[a]).len() == a,
            forall|a: int, b: int|
                0 <= b < a < skip.len() ==> skip[a][b] == mutex(rules@, a, b),
            reachable(rules@, c@, t),
            out.len() == outs.len(),
            out.len() <= ceiling,
            ceiling < usize::MAX,
            forall|k: int|
                0 <= k < outs.len() ==> (#[trigger] outs[k]).len() == n && covers(rules@, outs[k])
                    && out[k]@ == flip(outs[k]) && lex_lt(outs[k], c@),
            forall|k: int, l: int| 0 <= k < l < outs.len() ==> lex_lt(outs[k], outs[l]),
            forall|v: Seq<bool>|
                v.len() == n && covers(rules@, v) && #[trigger] lex_lt(v, c@) ==> exists|k: int|
                    0 <= k < outs.len() && outs[k] == v,
        decreases ceiling - out.len(),
    {
        let ghost c_before = c@;
        scan_counter(rules, &skip, &mut c);
        proof {
            lemma_scan_frame(rules@, c_before, n as int);
            lemma_scan_covers(rules@, c_before, n as int);
            lemma_superset_not_below(c_before, c@);
            assert forall|k: int| 0 <= k < outs.len() implies lex_lt(#[trigger] outs[k], c@) by {
                if c@ != c_before {
                    lemma_lex_trans(outs[k], c_before, c@);
                }
            }
            assert forall|v: Seq<bool>|
                v.len() == n && covers(rules@, v) && (v == c@ || #[trigger] lex_lt(v, c@)) implies exists|k: int|
                0 <= k < outs.len() + 1 && outs.push(c@)[k] == v by {
                if v == c@ {
                    assert(outs.push(c@)[outs.len() as int] == v);
                } else if lex_lt(v, c_before) {
                    let k = choose|k: int| 0 <= k < outs.len() && outs[k] == v;
                    assert(outs.push(c@)[k] == v);
                } else {
                    if v != c_before {
                        lemma_lex_total(v, c_before);
                    }
                    lemma_scan_least(rules@, c_before, t, v);
                    lemma_lex_trans(c@, v, c@);
                    lemma_lex_irrefl(c@);
                }
            }
        }
        if out.len() == ceiling {
            proof {
                let s = outs.push(c@).map_values(|x: Seq<bool>| flip(x));
                assert forall|i: int| 0 <= i < s.len() implies (#[trigger] s[i]).len() == rules.len()
                    && mutex_free(rules@, s[i]) by {
                    let x = outs.push(c@)[i];
                    lemma_flip_flip(x);
                    lemma_free_iff_covers(rules@, s[i]);
                }
                assert forall|i: int, j: int| 0 <= i < j < s.len() implies cand_lt(s[i], s[j]) by {
                    lemma_flip_flip(outs.push(c@)[i]);
                    lemma_flip_flip(outs.push(c@)[j]);
                }
                assert(s.len() == ceiling + 1);
            }
            proof {
                lemma_exceeds_not_fits(rules@, ceiling as nat);
            }
            return Err(PartitionError::PartitionSpaceExceeded { ceiling, observed: ceiling + 1 });
        }
        let m = flipped(&c);
        let ghost out0 = out@;
        out.push(m);
        let ghost r = c@;
        let ghost outs_prev = outs;
        proof {
            outs = outs.push(r);
            assert forall|k: int| 0 <= k < outs.len() implies (#[trigger] outs[k]).len() == n && covers(rules@, outs[k])
                && out[k]@ == flip(outs[k]) by {
                if k < outs.len() - 1 {
                    assert(out[k] == out0[k]);
                }
            }
            assert forall|k: int, l: int| 0 <= k < l < outs.len() implies lex_lt(outs[k], outs[l]) by {}
        }
        match increment(&mut c) {
            None => {
                proof {
                    assert forall|mm: Seq<bool>|
                        mm.len() == rules.len() && #[trigger] mutex_free(rules@, mm) implies exists|i: int|
                        0 <= i < out.len() && out[i]@ == mm by {
                        let v = flip(mm);
                        lemma_free_iff_covers(rules@, mm);
                        lemma_below_full(r, v);
                        lemma_flip_flip(mm);
                        if v == r {
                            assert(out[outs.len() - 1]@ == mm);
                        } else {
                            assert(lex_lt(v, r));
                            let k = choose|k: int| 0 <= k < outs.len() && outs[k] == v;
                            assert(out[k]@ == mm);
                        }
                    }
                    assert forall|k: int| 0 <= k < out.len() implies (#[trigger] out[k])@.len() == rules.len()
                        && mutex_free(rules@, out[k]@) by {
                        lemma_flip_flip(outs[k]);
                        lemma_free_iff_covers(rules@, out[k]@);
                    }
                    assert forall|k: int, l: int| 0 <= k < l < out.len() implies cand_lt(out[k]@, out[l]@) by {
                        lemma_flip_flip(outs[k]);
                        lemma_flip_flip(outs[l]);
                    }
                    let fv = flag_views(out@);
                    assert forall|mm: Seq<bool>|
                        mm.len() == rules.len() && #[trigger] mutex_free(rules@, mm) implies exists|i: int|
                        0 <= i < fv.len() && fv[i] == mm by {
                        let i = choose|i: int| 0 <= i < out.len() && out[i]@ == mm;
                        assert(fv[i] == mm);
                    }
                    assert(is_enumeration(rules@, fv) && fv.len() <= ceiling);
                }
                return Ok(out);
            },
            Some(i) => {
                proof {
                    assert(lex_lt(r, c@)) by {
                        assert(!r[i as int] && c@[i as int] && agree_above(r, c@, i as int));
                    }
                    assert forall|k: int| 0 <= k < outs.len() implies lex_lt(#[trigger] outs[k], c@) by {
                        if k < outs.len() - 1 {
                            lemma_lex_trans(outs[k], r, c@);
                        }
                    }
                    assert forall|v: Seq<bool>|
                        v.len() == n && covers(rules@, v) && #[trigger] lex_lt(v, c@) implies exists|k: int|
                        0 <= k < outs.len() && outs[k] == v by {
                        lemma_below_bumped(r, i as int, v);
                        if v == r {
                            assert(outs[outs.len() - 1] == v);
                        } else {
                            assert(lex_lt(v, r));
                            assert(outs == outs_prev.push(r));
                            let k = choose|k: int| 0 <= k < outs_prev.len() + 1 && outs_prev.push(r)[k] == v;
                            assert(outs[k] == v);
                        }
                    }
                    t = i as int;
                    assert forall|a: int, b: int| #[trigger] mutex(rules@, a, b) && a >= t && b >= t implies c@[a] || c@[b] by {
                        assert(r[a] || r[b]);
                    }
                }
            },
        }
    }
}

/// Some enumeration of the mutex-free subsets has at most `ceiling` entries.
pub open spec fn fits_ceiling(rules: Seq<Rule>, ceiling: nat) -> bool {
    exists|e: Seq<Seq<bool>>| is_enumeration(rules, e) && e.len() <= ceiling
}

proof fn lemma_index_grows(rules: Seq<Rule>, s: Seq<Seq<bool>>, e: Seq<Seq<bool>>, i: int) -> (j: int)
    requires
        is_enumeration(rules, e),
        forall|x: int| 0 <= x < s.len() ==> (#[trigger] s[x]).len() == rules.len() && mutex_free(rules, s[x]),
        forall|x: int, y: int| 0 <= x < y < s.len() ==> cand_lt(s[x], s[y]),
        0 <= i < s.len(),
    ensures
        0 <= j < e.len(),
        e[j] == s[i],
        j >= i,
    decreases i,
{
    let j = choose|j: int| 0 <= j < e.len() && e[j] == s[i];
    if i > 0 {
        let jp = lemma_index_grows(rules, s, e, i - 1);
        if j <= jp {
            if j == jp {
                lemma_lex_irrefl(flip(s[i]));
                assert(cand_lt(s[i - 1], s[i]));
            } else {
                assert(cand_lt(e[j], e[jp]));
                assert(cand_lt(s[i - 1], s[i]));
                lemma_lex_trans(flip(s[i]), flip(s[i - 1]), flip(s[i]));
                lemma_lex_irrefl(flip(s[i]));
            }
        }
    }
    j
}

/// More than `ceiling` distinct candidates rule out an enumeration within the ceiling.
pub proof fn lemma_exceeds_not_fits(rules: Seq<Rule>, ceiling: nat)
    requires
        exceeds(rules, ceiling),
    ensures
        !fits_ceiling(rules, ceiling),
{
    if fits_ceiling(rules, ceiling) {
        let e = choose|e: Seq<Seq<bool>>| is_enumeration(rules, e) && e.len() <= ceiling;
        let s = choose|s: Seq<Seq<bool>>|
            {
                &&& s.len() == ceiling + 1
                &&& forall|i: int|
                    0 <= i < s.len() ==> (#[trigger] s[i]).len() == rules.len() && mutex_free(rules, s[i])
                &&& forall|i: int, j: int| 0 <= i < j < s.len() ==> cand_lt(s[i], s[j])
            };
        let j = lemma_index_grows(rules, s, e, ceiling as int);
    }
}

} // verus!
