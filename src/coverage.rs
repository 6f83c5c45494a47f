//! The completeness verifier: every total state over the referenced cells must be
//! selected by exactly one cluster.
use vstd::prelude::*;

use crate::cluster::Cluster;
use crate::pred::{satisfies, Pred};
use crate::rules::PartitionError;
use crate::subsets::{increment, lemma_below_bumped, lemma_below_full, lex_lt};

verus! {

/// The cluster is the match for state `s`: its guard holds and no exclusion does.
pub open spec fn selects(c: Cluster, s: Seq<bool>) -> bool {
    &&& satisfies(c.guard@, s)
    &&& forall|x: int| 0 <= x < c.exclusions.len() ==> !satisfies(#[trigger] c.exclusions@[x].pred@, s)
}

/// How many of the first `n` clusters select `s`.
pub open spec fn count_selecting(cs: Seq<Cluster>, s: Seq<bool>, n: int) -> nat
    decreases n,
{
    if n <= 0 {
        0
    } else {
        count_selecting(cs, s, n - 1) + if selects(cs[n - 1], s) {
            1nat
        } else {
            0nat
        }
    }
}

/// One of the first `x` exclusions of `c` constrains cell `k`.
pub open spec fn excl_has(c: Cluster, x: int, k: int) -> bool {
    exists|y: int| 0 <= y < x && #[trigger] c.exclusions@[y].pred@.contains_key(k)
}

/// The guard or an exclusion of one of the first `i` clusters constrains cell `k`.
pub open spec fn clusters_have(cs: Seq<Cluster>, i: int, k: int) -> bool {
    exists|a: int|
        0 <= a < i && (cs[a].guard@.contains_key(k) || excl_has(cs[a], cs[a].exclusions.len() as int, k))
}

/// Cell `k` is constrained by a guard or an exclusion of the clusters.
pub open spec fn cell_of(cs: Seq<Cluster>, k: int) -> bool {
    clusters_have(cs, cs.len() as int, k)
}

proof fn lemma_excl_has_step(c: Cluster, x: int, k: int)
    requires
        0 <= x < c.exclusions.len(),
    ensures
        excl_has(c, x + 1, k) == (excl_has(c, x, k) || c.exclusions@[x].pred@.contains_key(k)),
{
    if excl_has(c, x + 1, k) && !c.exclusions@[x].pred@.contains_key(k) {
        let y = choose|y: int| 0 <= y < x + 1 && #[trigger] c.exclusions@[y].pred@.contains_key(k);
        assert(y < x);
    }
}

proof fn lemma_clusters_have_step(cs: Seq<Cluster>, i: int, k: int)
    requires
        0 <= i < cs.len(),
    ensures
        clusters_have(cs, i + 1, k) == (clusters_have(cs, i, k) || cs[i].guard@.contains_key(k)
            || excl_has(cs[i], cs[i].exclusions.len() as int, k)),
{
    if clusters_have(cs, i + 1, k) && !(cs[i].guard@.contains_key(k) || excl_has(
        cs[i],
        cs[i].exclusions.len() as int,
        k,
    )) {
        let a = choose|a: int|
            0 <= a < i + 1 && (cs[a].guard@.contains_key(k) || excl_has(cs[a], cs[a].exclusions.len() as int, k));
        assert(a < i);
    }
}

/// The state gives a value to every cell the clusters constrain.
pub open spec fn wide_for(cs: Seq<Cluster>, s: Seq<bool>) -> bool {
    forall|k: int| #[trigger] cell_of(cs, k) ==> 0 <= k < s.len()
}

/// Whether cluster `c` is the match for `state`.
pub fn cluster_selects(c: &Cluster, state: &Vec<bool>) -> (r: bool)
    ensures
        r == selects(*c, state@),
{
    if !c.guard.matches_state(state) {
        return false;
    }
    let mut x: usize = 0;
    while x < c.exclusions.len()
        invariant
            x <= c.exclusions.len(),
            forall|y: int| 0 <= y < x ==> !satisfies(#[trigger] c.exclusions@[y].pred@, state@),
        decreases c.exclusions.len() - x,
    {
        if c.exclusions[x].pred.matches_state(state) {
            return false;
        }
        x = x + 1;
    }
    true
}

/// Positions, increasing, of the clusters that select `state`.
pub fn matching_clusters(cs: &Vec<Cluster>, state: &Vec<bool>) -> (r: Vec<usize>)
    ensures
        r.len() == count_selecting(cs@, state@, cs.len() as int),
        lists_matches(cs@, state@, r@),
{
    let mut r: Vec<usize> = Vec::new();
    let mut j: usize = 0;
    while j < cs.len()
        invariant
            j <= cs.len(),
            r.len() == count_selecting(cs@, state@, j as int),
            forall|i: int| 0 <= i < r.len() ==> r[i] < j && selects(cs@[r[i] as int], state@),
            forall|y: int| 0 <= y < j && selects(#[trigger] cs@[y], state@) ==> exists|i: int|
                0 <= i < r.len() && r[i] == y,
            forall|a: int, b: int| 0 <= a < b < r.len() ==> r[a] < r[b],
        decreases cs.len() - j,
    {
        if cluster_selects(&cs[j], state) {
            let ghost r0 = r@;
            r.push(j);
            assert(forall|i: int| 0 <= i < r0.len() ==> r@[i] == r0[i]);
            assert(r[r.len() - 1] == j);
        }
        j = j + 1;
    }
    r
}

fn mark_cells(p: &Pred, flags: &mut Vec<bool>)
    requires
        p.width() <= old(flags).len(),
    ensures
        final(flags).len() == old(flags).len(),
        forall|k: int| 0 <= k < old(flags).len() ==> final(flags)@[k] == (old(flags)@[k] || p@.contains_key(k)),
{
    proof {
        p.lemma_width();
    }
    let ghost f0 = flags@;
    let w = p.width_exec();
    let mut i: usize = 0;
    while i < w
        invariant
            i <= w,
            w == p.width(),
            w <= flags.len(),
            flags.len() == f0.len(),
            forall|k: int| #[trigger] p@.contains_key(k) ==> 0 <= k < p.width(),
            forall|k: int| 0 <= k < flags.len() ==> flags@[k] == (f0[k] || (k < i && p@.contains_key(k))),
        decreases w - i,
    {
        if p.get(i).is_some() {
            flags.set(i, true);
        }
        i = i + 1;
    }
    assert(i == w);
    assert forall|k: int| 0 <= k < flags.len() implies flags@[k] == (f0[k] || p@.contains_key(k)) by {
        assert(flags@[k] == (f0[k] || (k < i && p@.contains_key(k))));
        if p@.contains_key(k) {
            assert(k < p.width());
        }
    }
}

/// The cells that the clusters constrain, increasing, and a width that covers them.
fn referenced_cells(cs: &Vec<Cluster>) -> (r: (Vec<usize>, usize))
    ensures
        forall|i: int, j: int| 0 <= i < j < r.0.len() ==> r.0[i] < r.0[j],
        forall|i: int| 0 <= i < r.0.len() ==> r.0[i] < r.1 && cell_of(cs@, r.0[i] as int),
        forall|k: int| #[trigger] cell_of(cs@, k) ==> 0 <= k < r.1 && exists|i: int|
            0 <= i < r.0.len() && r.0[i] == k,
{
    let mut w: usize = 0;
    let mut i: usize = 0;
    while i < cs.len()
        invariant
            i <= cs.len(),
            forall|a: int| 0 <= a < i ==> cs@[a].guard.width() <= w && forall|x: int|
                0 <= x < cs@[a].exclusions.len() ==> #[trigger] cs@[a].exclusions@[x].pred.width() <= w,
        decreases cs.len() - i,
    {
        let gw = cs[i].guard.width_exec();
        if gw > w {
            w = gw;
        }
        let mut x: usize = 0;
        while x < cs[i].exclusions.len()
            invariant
                i < cs.len(),
                x <= cs@[i as int].exclusions.len(),
                cs@[i as int].guard.width() <= w,
                forall|a: int| 0 <= a < i ==> cs@[a].guard.width() <= w && forall|y: int|
                    0 <= y < cs@[a].exclusions.len() ==> #[trigger] cs@[a].exclusions@[y].pred.width() <= w,
                forall|y: int| 0 <= y < x ==> #[trigger] cs@[i as int].exclusions@[y].pred.width() <= w,
            decreases cs@[i as int].exclusions.len() - x,
        {
            let ew = cs[i].exclusions[x].pred.width_exec();
            if ew > w {
                w = ew;
            }
            x = x + 1;
        }
        i = i + 1;
    }
    let mut flags: Vec<bool> = Vec::new();
    while flags.len() < w
        invariant
            flags.len() <= w,
            forall|k: int| 0 <= k < flags.len() ==> !flags@[k],
        decreases w - flags.len(),
    {
        flags.push(false);
    }
    let mut i: usize = 0;
    while i < cs.len()
        invariant
            i <= cs.len(),
            flags.len() == w,
            forall|a: int| 0 <= a < cs.len() ==> cs@[a].guard.width() <= w && forall|x: int|
                0 <= x < cs@[a].exclusions.len() ==> #[trigger] cs@[a].exclusions@[x].pred.width() <= w,
            forall|k: int| 0 <= k < w ==> flags@[k] == clusters_have(cs@, i as int, k),
        decreases cs.len() - i,
    {
        let ghost f0 = flags@;
        mark_cells(&cs[i].guard, &mut flags);
        let ghost f1 = flags@;
        let mut x: usize = 0;
        while x < cs[i].exclusions.len()
            invariant
                i < cs.len(),
                x <= cs@[i as int].exclusions.len(),
                flags.len() == w,
                f0.len() == w,
                f1.len() == w,
                forall|a: int| 0 <= a < cs.len() ==> cs@[a].guard.width() <= w && forall|y: int|
                    0 <= y < cs@[a].exclusions.len() ==> #[trigger] cs@[a].exclusions@[y].pred.width() <= w,
                forall|k: int| 0 <= k < w ==> f0[k] == clusters_have(cs@, i as int, k),
                forall|k: int| 0 <= k < w ==> f1[k] == (f0[k] || cs@[i as int].guard@.contains_key(k)),
                forall|k: int| 0 <= k < w ==> flags@[k] == (f1[k] || excl_has(cs@[i as int], x as int, k)),
            decreases cs@[i as int].exclusions.len() - x,
        {
            let ghost fl0 = flags@;
            mark_cells(&cs[i].exclusions[x].pred, &mut flags);
            let ghost x0 = x as int;
            x = x + 1;
            proof {
                assert forall|k: int| 0 <= k < w implies flags@[k] == (f1[k] || excl_has(
                    cs@[i as int],
                    x as int,
                    k,
                )) by {
                    lemma_excl_has_step(cs@[i as int], x0, k);
                    assert(fl0[k] == (f1[k] || excl_has(cs@[i as int], x0, k)));
                    assert(flags@[k] == (fl0[k] || cs@[i as int].exclusions@[x0].pred@.contains_key(k)));
                }
            }
        }
        proof {
            assert(x == cs@[i as int].exclusions.len());
            assert forall|k: int| 0 <= k < w implies flags@[k] == clusters_have(cs@, i + 1, k) by {
                lemma_clusters_have_step(cs@, i as int, k);
                assert(flags@[k] == (f1[k] || excl_has(cs@[i as int], x as int, k)));
                assert(f1[k] == (f0[k] || cs@[i as int].guard@.contains_key(k)));
                assert(f0[k] == clusters_have(cs@, i as int, k));
            }
        }
        i = i + 1;
    }
    let mut cells: Vec<usize> = Vec::new();
    let mut k: usize = 0;
    while k < w
        invariant
            k <= w,
            flags.len() == w,
            forall|a: int| 0 <= a < cs.len() ==> cs@[a].guard.width() <= w && forall|x: int|
                0 <= x < cs@[a].exclusions.len() ==> #[trigger] cs@[a].exclusions@[x].pred.width() <= w,
            forall|q: int| 0 <= q < w ==> flags@[q] == cell_of(cs@, q),
            forall|a: int, b: int| 0 <= a < b < cells.len() ==> cells[a] < cells[b],
            forall|a: int| 0 <= a < cells.len() ==> cells[a] < k && cell_of(cs@, cells[a] as int),
            forall|q: int| 0 <= q < k && cell_of(cs@, q) ==> exists|a: int| 0 <= a < cells.len() && cells[a] == q,
        decreases w - k,
    {
        if flags[k] {
            let ghost c0 = cells@;
            cells.push(k);
            assert(forall|a: int| 0 <= a < c0.len() ==> cells@[a] == c0[a]);
            assert(cells[cells.len() - 1] == k);
        }
        k = k + 1;
    }
    proof {
        assert forall|q: int| #[trigger] cell_of(cs@, q) implies 0 <= q < w && exists|a: int|
            0 <= a < cells.len() && cells[a] == q by {
            let a = choose|a: int|
                0 <= a < cs.len() && (cs@[a].guard@.contains_key(q) || excl_has(
                    cs@[a],
                    cs@[a].exclusions.len() as int,
                    q,
                ));
            cs@[a].guard.lemma_width();
            if !cs@[a].guard@.contains_key(q) {
                let x = choose|x: int|
                    0 <= x < cs@[a].exclusions.len() && #[trigger] cs@[a].exclusions@[x].pred@.contains_key(q);
                cs@[a].exclusions@[x].pred.lemma_width();
            }
        }
    }
    (cells, w)
}

/// Spreads the bits of `v` over the cells listed in `cells`, in a state of `w`
/// cells whose other cells are false.
pub open spec fn embed(v: Seq<bool>, cells: Seq<usize>, w: int) -> Seq<bool> {
    Seq::new(w as nat, |i: int| exists|j: int| 0 <= j < cells.len() && cells[j] == i && v[j])
}

/// The value of a bit sequence read as a binary number, bit 0 lowest.
spec fn bits_value(s: Seq<bool>) -> nat
    decreases s.len(),
{
    if s.len() == 0 {
        0
    } else {
        2 * bits_value(s.drop_first()) + if s[0] {
            1nat
        } else {
            0nat
        }
    }
}

spec fn pow2(n: nat) -> nat
    decreases n,
{
    if n == 0 {
        1
    } else {
        2 * pow2((n - 1) as nat)
    }
}

proof fn lemma_bits_value_bound(s: Seq<bool>)
    ensures
        bits_value(s) < pow2(s.len()),
    decreases s.len(),
{
    if s.len() > 0 {
        lemma_bits_value_bound(s.drop_first());
    }
}

proof fn lemma_bits_value_bumped(r: Seq<bool>, i: int)
    requires
        0 <= i < r.len(),
        !r[i],
        forall|j: int| 0 <= j < i ==> r[j],
    ensures
        bits_value(crate::subsets::bumped(r, i)) == bits_value(r) + 1,
    decreases i,
{
    let b = crate::subsets::bumped(r, i);
    if i == 0 {
        assert(b.drop_first() =~= r.drop_first());
    } else {
        let t = r.drop_first();
        assert(b.drop_first() =~= crate::subsets::bumped(t, i - 1));
        lemma_bits_value_bumped(t, i - 1);
    }
}

proof fn lemma_satisfies_agree(p: Map<int, bool>, s: Seq<bool>, t: Seq<bool>)
    requires
        forall|k: int| #[trigger] p.contains_key(k) ==> 0 <= k < s.len() && 0 <= k < t.len() && s[k] == t[k],
    ensures
        satisfies(p, s) == satisfies(p, t),
{
}

proof fn lemma_count_agree(cs: Seq<Cluster>, s: Seq<bool>, t: Seq<bool>, n: int)
    requires
        0 <= n <= cs.len(),
        forall|k: int| #[trigger] cell_of(cs, k) ==> 0 <= k < s.len() && 0 <= k < t.len() && s[k] == t[k],
    ensures
        count_selecting(cs, s, n) == count_selecting(cs, t, n),
    decreases n,
{
    if n > 0 {
        lemma_count_agree(cs, s, t, n - 1);
        let c = cs[n - 1];
        assert forall|k: int| #[trigger] c.guard@.contains_key(k) implies 0 <= k < s.len() && 0 <= k < t.len() && s[k]
            == t[k] by {
            assert(cell_of(cs, k));
        }
        lemma_satisfies_agree(c.guard@, s, t);
        assert forall|x: int| 0 <= x < c.exclusions.len() implies satisfies(#[trigger] c.exclusions@[x].pred@, s)
            == satisfies(c.exclusions@[x].pred@, t) by {
            assert forall|k: int| #[trigger] c.exclusions@[x].pred@.contains_key(k) implies 0 <= k < s.len() && 0 <= k
                < t.len() && s[k] == t[k] by {
                assert(excl_has(c, c.exclusions.len() as int, k));
                assert(cell_of(cs, k));
            }
            lemma_satisfies_agree(c.exclusions@[x].pred@, s, t);
        }
    }
}

fn build_state(v: &Vec<bool>, cells: &Vec<usize>, w: usize) -> (st: Vec<bool>)
    requires
        v.len() == cells.len(),
        forall|i: int| 0 <= i < cells.len() ==> cells[i] < w,
        forall|i: int, j: int| 0 <= i < j < cells.len() ==> cells[i] < cells[j],
    ensures
        st@ == embed(v@, cells@, w as int),
{
    let mut st: Vec<bool> = Vec::new();
    while st.len() < w
        invariant
            st.len() <= w,
            forall|i: int| 0 <= i < st.len() ==> !st@[i],
        decreases w - st.len(),
    {
        st.push(false);
    }
    let mut j: usize = 0;
    while j < cells.len()
        invariant
            v.len() == cells.len(),
            j <= cells.len(),
            st.len() == w,
            forall|i: int| 0 <= i < cells.len() ==> cells[i] < w,
            forall|a: int, b: int| 0 <= a < b < cells.len() ==> cells[a] < cells[b],
            forall|i: int|
                0 <= i < w ==> st@[i] == exists|a: int| 0 <= a < j && cells[a] == i && v@[a],
        decreases cells.len() - j,
    {
        let ghost st0 = st@;
        st.set(cells[j], v[j]);
        proof {
            assert forall|i: int| 0 <= i < w implies st@[i] == exists|a: int|
                0 <= a < j + 1 && cells[a] == i && v@[a] by {
                if i == cells[j as int] {
                    if st0[i] {
                        let a = choose|a: int| 0 <= a < j && cells[a] == i && v@[a];
                        assert(cells[a] < cells[j as int]);
                    }
                    if v@[j as int] {
                        assert(cells[j as int] == i && v@[j as int]);
                    } else if exists|a: int| 0 <= a < j + 1 && cells[a] == i && v@[a] {
                        let a = choose|a: int| 0 <= a < j + 1 && cells[a] == i && v@[a];
                        assert(a != j);
                        assert(cells[a] < cells[j as int]);
                    }
                } else {
                    if exists|a: int| 0 <= a < j + 1 && cells[a] == i && v@[a] {
                        let a = choose|a: int| 0 <= a < j + 1 && cells[a] == i && v@[a];
                        assert(a != j);
                    }
                }
            }
        }
        j = j + 1;
    }
    assert(st@ =~= embed(v@, cells@, w as int));
    st
}

/// Every state wide enough for the clusters is selected by exactly one of them.
pub open spec fn partition_complete(cs: Seq<Cluster>) -> bool {
    forall|s: Seq<bool>| #[trigger] wide_for(cs, s) ==> count_selecting(cs, s, cs.len() as int) == 1
}

/// Enumerates every assignment of the cells that the clusters constrain and checks
/// that exactly one cluster selects each; reports the first state that no cluster,
/// or several, select.
pub fn check_completeness(cs: &Vec<Cluster>) -> (r: Result<(), PartitionError>)
    ensures
        r is Ok <==> partition_complete(cs@),
        r matches Err(PartitionError::PartitionIncomplete { state }) ==> wide_for(cs@, state@)
            && count_selecting(cs@, state@, cs.len() as int) == 0,
        r matches Err(PartitionError::PartitionAmbiguous { state, clusters }) ==> wide_for(cs@, state@)
            && count_selecting(cs@, state@, cs.len() as int) > 1 && lists_matches(cs@, state@, clusters@),
        r matches Err(e) ==> e is PartitionIncomplete || e is PartitionAmbiguous,
{
    let (cells, w) = referenced_cells(cs);
    let k = cells.len();
    let mut ctr: Vec<bool> = Vec::new();
    while ctr.len() < k
        invariant
            ctr.len() <= k,
            forall|j: int| 0 <= j < ctr.len() ==> !ctr@[j],
        decreases k - ctr.len(),
    {
        ctr.push(false);
    }
    proof {
        lemma_bits_value_bound(ctr@);
    }
    loop
        invariant
            ctr.len() == k,
            k == cells.len(),
            forall|i: int, j: int| 0 <= i < j < cells.len() ==> cells[i] < cells[j],
            forall|i: int| 0 <= i < cells.len() ==> cells[i] < w && cell_of(cs@, cells[i] as int),
            forall|q: int| #[trigger] cell_of(cs@, q) ==> 0 <= q < w && exists|i: int|
                0 <= i < cells.len() && cells[i] == q,
            forall|v: Seq<bool>|
                v.len() == k && #[trigger] lex_lt(v, ctr@) ==> count_selecting(
                    cs@,
                    embed(v, cells@, w as int),
                    cs.len() as int,
                ) == 1,
            bits_value(ctr@) < pow2(k as nat),
        decreases pow2(k as nat) - bits_value(ctr@),
    {
        let st = build_state(&ctr, &cells, w);
        let found = matching_clusters(cs, &st);
        proof {
            assert forall|q: int| #[trigger] cell_of(cs@, q) implies 0 <= q < st@.len() by {}
        }
        if found.len() == 0 {
            proof {
                lemma_not_complete(cs@, st@);
            }
            return Err(PartitionError::PartitionIncomplete { state: st });
        }
        if found.len() > 1 {
            proof {
                lemma_not_complete(cs@, st@);
            }
            return Err(PartitionError::PartitionAmbiguous { state: st, clusters: found });
        }
        let ghost r = ctr@;
        match increment(&mut ctr) {
            None => {
                proof {
                    assert forall|s: Seq<bool>| #[trigger] wide_for(cs@, s) implies count_selecting(
                        cs@,
                        s,
                        cs.len() as int,
                    ) == 1 by {
                        let v = Seq::new(k as nat, |j: int| s[cells@[j] as int]);
                        let t = embed(v, cells@, w as int);
                        lemma_embed_agree(cs@, s, v, cells@, w as int);
                        lemma_count_agree(cs@, s, t, cs.len() as int);
                        lemma_below_full(r, v);
                    }
                }
                return Ok(());
            },
            Some(i) => {
                proof {
                    lemma_bits_value_bumped(r, i as int);
                    lemma_bits_value_bound(ctr@);
                    assert forall|v: Seq<bool>|
                        v.len() == k && #[trigger] lex_lt(v, ctr@) implies count_selecting(
                        cs@,
                        embed(v, cells@, w as int),
                        cs.len() as int,
                    ) == 1 by {
                        lemma_below_bumped(r, i as int, v);
                    }
                }
            },
        }
    }
}

/// `l` lists, increasing, exactly the positions of the clusters that select `s`.
pub open spec fn lists_matches(cs: Seq<Cluster>, s: Seq<bool>, l: Seq<usize>) -> bool {
    &&& forall|i: int| 0 <= i < l.len() ==> l[i] < cs.len() && selects(cs[l[i] as int], s)
    &&& forall|j: int| 0 <= j < cs.len() && selects(#[trigger] cs[j], s) ==> exists|i: int| 0 <= i < l.len() && l[i] == j
    &&& forall|i: int, j: int| 0 <= i < j < l.len() ==> l[i] < l[j]
}

proof fn lemma_not_complete(cs: Seq<Cluster>, st: Seq<bool>)
    requires
        wide_for(cs, st),
        count_selecting(cs, st, cs.len() as int) != 1,
    ensures
        !partition_complete(cs),
{
}

proof fn lemma_embed_agree(cs: Seq<Cluster>, s: Seq<bool>, v: Seq<bool>, cells: Seq<usize>, w: int)
    requires
        wide_for(cs, s),
        v.len() == cells.len(),
        forall|j: int| 0 <= j < v.len() ==> v[j] == s[cells[j] as int],
        forall|i: int, j: int| 0 <= i < j < cells.len() ==> cells[i] < cells[j],
        forall|i: int| 0 <= i < cells.len() ==> cells[i] < w,
        forall|q: int| #[trigger] cell_of(cs, q) ==> 0 <= q < w && exists|i: int|
            0 <= i < cells.len() && cells[i] == q,
    ensures
        forall|k: int| #[trigger] cell_of(cs, k) ==> 0 <= k < s.len() && 0 <= k < embed(v, cells, w).len()
            && s[k] == embed(v, cells, w)[k],
{
    assert forall|k: int| #[trigger] cell_of(cs, k) implies 0 <= k < s.len() && 0 <= k < embed(v, cells, w).len()
        && s[k] == embed(v, cells, w)[k] by {
        let i = choose|i: int| 0 <= i < cells.len() && cells[i] == k;
        if s[k] {
            assert(cells[i] == k && v[i]);
        } else if exists|j: int| 0 <= j < cells.len() && cells[j] == k && v[j] {
            let j = choose|j: int| 0 <= j < cells.len() && cells[j] == k && v[j];
            if j < i {
                assert(cells[j] < cells[i]);
            } else if i < j {
                assert(cells[i] < cells[j]);
            }
        }
    }
}

} // verus!
