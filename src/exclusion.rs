//! Exclusion synthesis: the guard conditions that must fail for a cluster to be
//! the unique match, and the dropping of clusters that they wholly shadow.
use vstd::prelude::*;

use crate::cluster::{entry_view, entry_views, Cluster, Exclusion};
use crate::fusion::{common, fuse, lemma_fusion_union, partition_case, subsumption_case, Fusion};
use crate::pred::{conflicts, entails, satisfies, Pred};
use crate::rules::Rule;

verus! {

/// The state gives a value to every cell that some rule's guard names.
pub open spec fn wide_enough(rules: Seq<Rule>, s: Seq<bool>) -> bool {
    forall|r: int, k: int|
        0 <= r < rules.len() && #[trigger] rules[r].guard@.contains_key(k) ==> 0 <= k < s.len()
}

/// Rule `r` is one the cluster must rule out: it stands in another cluster, not in
/// this one, and its guard does not already conflict with the cluster's.
pub open spec fn excludable(
    rules: Seq<Rule>,
    universe: Seq<bool>,
    members: Seq<bool>,
    guard: Map<int, bool>,
    r: int,
) -> bool {
    &&& 0 <= r < rules.len()
    &&& universe[r]
    &&& !members[r]
    &&& !conflicts(rules[r].guard@, guard)
}

/// The predicate matches exactly the states that the guard of some listed rule
/// matches, and names only cells that those guards name.
pub open spec fn summarizes(rules: Seq<Rule>, pred: Map<int, bool>, listed: Seq<usize>) -> bool {
    &&& forall|y: int| 0 <= y < listed.len() ==> #[trigger] listed[y] < rules.len()
    &&& forall|k: int| #[trigger]
        pred.contains_key(k) ==> exists|y: int|
            0 <= y < listed.len() && rules[listed[y] as int].guard@.contains_key(k)
    &&& forall|s: Seq<bool>|
        wide_enough(rules, s) ==> (#[trigger] satisfies(pred, s) <==> exists|y: int|
            0 <= y < listed.len() && satisfies(rules[listed[y] as int].guard@, s))
}

/// The exclusion list of a cluster is sound and complete for the rules it must
/// rule out, and no entry by itself rules out the whole guard.
pub open spec fn exclusions_valid(
    rules: Seq<Rule>,
    universe: Seq<bool>,
    members: Seq<bool>,
    guard: Map<int, bool>,
    exs: Seq<Exclusion>,
) -> bool {
    &&& forall|x: int| 0 <= x < exs.len() ==> summarizes(rules, (#[trigger] exs[x]).pred@, exs[x].rules@)
    &&& forall|x: int, y: int|
        0 <= x < exs.len() && 0 <= y < exs[x].rules.len() ==> excludable(
            rules,
            universe,
            members,
            guard,
            #[trigger] exs[x].rules@[y] as int,
        )
    &&& forall|x: int|
        0 <= x < exs.len() ==> !conflicts((#[trigger] exs[x]).pred@, guard) && !entails(guard, exs[x].pred@)
    &&& forall|r: int|
        #[trigger] excludable(rules, universe, members, guard, r) ==> exists|x: int, y: int|
            0 <= x < exs.len() && 0 <= y < exs[x].rules.len() && exs[x].rules@[y] == r
}

/// Every state that the guard matches is matched by a rule the cluster must rule
/// out: the cluster can never be the match.
pub open spec fn shadowed(
    rules: Seq<Rule>,
    universe: Seq<bool>,
    members: Seq<bool>,
    guard: Map<int, bool>,
) -> bool {
    forall|s: Seq<bool>|
        wide_enough(rules, s) && #[trigger] satisfies(guard, s) ==> exists|r: int|
            excludable(rules, universe, members, guard, r) && satisfies(rules[r].guard@, s)
}

proof fn lemma_entails_satisfies(a: Map<int, bool>, b: Map<int, bool>, s: Seq<bool>)
    requires
        entails(a, b),
        satisfies(a, s),
    ensures
        satisfies(b, s),
{
    assert forall|k: int| #[trigger] b.contains_key(k) implies 0 <= k < s.len() && s[k] == b[k] by {
        assert(a.contains_key(k));
        if a[k] != b[k] {
            assert(conflicts(a, b));
        }
    }
}

proof fn lemma_single_summary(rules: Seq<Rule>, r: usize)
    requires
        r < rules.len(),
    ensures
        summarizes(rules, rules[r as int].guard@, seq![r]),
{
    let listed = seq![r];
    assert forall|k: int| #[trigger] rules[r as int].guard@.contains_key(k) implies exists|y: int|
        0 <= y < listed.len() && rules[listed[y] as int].guard@.contains_key(k) by {
        assert(listed[0] == r);
    }
    assert forall|s: Seq<bool>| wide_enough(rules, s) implies (#[trigger] satisfies(
        rules[r as int].guard@,
        s,
    ) <==> exists|y: int| 0 <= y < listed.len() && satisfies(rules[listed[y] as int].guard@, s)) by {
        if satisfies(rules[r as int].guard@, s) {
            assert(listed[0] == r);
        }
    }
}

proof fn lemma_fused_summary(
    rules: Seq<Rule>,
    p: Map<int, bool>,
    listed: Seq<usize>,
    r: usize,
    split: bool,
)
    requires
        r < rules.len(),
        summarizes(rules, p, listed),
        p == rules[r as int].guard@ || crate::fusion::subsumption_case(p, rules[r as int].guard@)
            || crate::fusion::partition_case(p, rules[r as int].guard@, split),
    ensures
        summarizes(rules, common(p, rules[r as int].guard@), listed.push(r)),
{
    let g = rules[r as int].guard@;
    let c = common(p, g);
    let l2 = listed.push(r);
    assert forall|y: int| 0 <= y < l2.len() implies #[trigger] l2[y] < rules.len() by {
        if y < listed.len() {
            assert(l2[y] == listed[y]);
        }
    }
    assert forall|k: int| #[trigger] c.contains_key(k) implies exists|y: int|
        0 <= y < l2.len() && rules[l2[y] as int].guard@.contains_key(k) by {
        assert(p.contains_key(k));
        let y = choose|y: int| 0 <= y < listed.len() && rules[listed[y] as int].guard@.contains_key(k);
        assert(l2[y] == listed[y]);
    }
    assert forall|s: Seq<bool>| wide_enough(rules, s) implies (#[trigger] satisfies(c, s) <==> exists|y: int|
        0 <= y < l2.len() && satisfies(rules[l2[y] as int].guard@, s)) by {
        assert forall|k: int| #[trigger] p.contains_key(k) implies 0 <= k < s.len() by {
            let y = choose|y: int| 0 <= y < listed.len() && rules[listed[y] as int].guard@.contains_key(k);
            assert(rules[listed[y] as int].guard@.contains_key(k));
        }
        assert forall|k: int| #[trigger] g.contains_key(k) implies 0 <= k < s.len() by {
            assert(rules[r as int].guard@.contains_key(k));
        }
        lemma_fusion_union(p, g, split, s);
        if satisfies(c, s) {
            if satisfies(p, s) {
                let y = choose|y: int| 0 <= y < listed.len() && satisfies(rules[listed[y] as int].guard@, s);
                assert(l2[y] == listed[y]);
            } else {
                assert(l2[listed.len() as int] == r);
            }
        }
        if exists|y: int| 0 <= y < l2.len() && satisfies(rules[l2[y] as int].guard@, s) {
            let y = choose|y: int| 0 <= y < l2.len() && satisfies(rules[l2[y] as int].guard@, s);
            if y < listed.len() {
                assert(l2[y] == listed[y]);
            }
        }
    }
}

proof fn lemma_common_no_conflict(a: Map<int, bool>, b: Map<int, bool>, g: Map<int, bool>)
    requires
        !conflicts(a, g),
    ensures
        !conflicts(common(a, b), g),
{
    if conflicts(common(a, b), g) {
        let k = choose|k: int| #[trigger] common(a, b).contains_key(k) && g.contains_key(k)
            && common(a, b)[k] != g[k];
        assert(a.contains_key(k) && g.contains_key(k) && a[k] != g[k]);
    }
}

proof fn lemma_shadowed_by_entry(
    rules: Seq<Rule>,
    universe: Seq<bool>,
    members: Seq<bool>,
    guard: Map<int, bool>,
    p: Map<int, bool>,
    listed: Seq<usize>,
)
    requires
        summarizes(rules, p, listed),
        forall|y: int| 0 <= y < listed.len() ==> excludable(rules, universe, members, guard, #[trigger] listed[y] as int),
        entails(guard, p),
    ensures
        shadowed(rules, universe, members, guard),
{
    assert forall|s: Seq<bool>| wide_enough(rules, s) && #[trigger] satisfies(guard, s) implies exists|r: int|
        excludable(rules, universe, members, guard, r) && satisfies(rules[r].guard@, s) by {
        lemma_entails_satisfies(guard, p, s);
        let y = choose|y: int| 0 <= y < listed.len() && satisfies(rules[listed[y] as int].guard@, s);
        assert(excludable(rules, universe, members, guard, listed[y] as int));
    }
}

/// A guard `g` fuses into an entry with predicate `p` and split flag `split`.
pub open spec fn fits(p: Map<int, bool>, split: bool, g: Map<int, bool>) -> bool {
    p == g || subsumption_case(p, g) || partition_case(p, g, split)
}

/// The first entry from position `x` on that `g` fuses into, or -1.
pub open spec fn first_fit_from(es: Seq<(Map<int, bool>, Seq<usize>, bool)>, g: Map<int, bool>, x: int) -> int
    decreases es.len() - x,
{
    if x < 0 || x >= es.len() {
        -1
    } else if fits(es[x].0, es[x].2, g) {
        x
    } else {
        first_fit_from(es, g, x + 1)
    }
}

/// An entry once rule `r`, with guard `g`, has been fused into it.
pub open spec fn fused_entry(e: (Map<int, bool>, Seq<usize>, bool), g: Map<int, bool>, r: usize) -> (
    Map<int, bool>,
    Seq<usize>,
    bool,
) {
    (common(e.0, g), e.1.push(r), e.2 || !(e.0 == g || subsumption_case(e.0, g)))
}

/// The entries once rule `r`, with guard `g`, has been brought in: fused into the
/// first entry that accepts it, or added as an entry of its own.
pub open spec fn added(es: Seq<(Map<int, bool>, Seq<usize>, bool)>, g: Map<int, bool>, r: usize) -> Seq<
    (Map<int, bool>, Seq<usize>, bool),
> {
    let x = first_fit_from(es, g, 0);
    if x >= 0 {
        es.update(x, fused_entry(es[x], g, r))
    } else {
        es.push((g, seq![r], false))
    }
}

/// The predicate of the entry that rule `r`, with guard `g`, lands in.
pub open spec fn landed(es: Seq<(Map<int, bool>, Seq<usize>, bool)>, g: Map<int, bool>, r: usize) -> Map<
    int,
    bool,
> {
    let x = first_fit_from(es, g, 0);
    if x >= 0 {
        common(es[x].0, g)
    } else {
        g
    }
}

/// The exclusion entries after the rules below `r` are brought in, in index order;
/// `None` once an entry covers the whole guard.
pub open spec fn synthesis(
    rules: Seq<Rule>,
    universe: Seq<bool>,
    members: Seq<bool>,
    guard: Map<int, bool>,
    r: int,
) -> Option<Seq<(Map<int, bool>, Seq<usize>, bool)>>
    decreases r,
{
    if r <= 0 {
        Some(Seq::empty())
    } else {
        match synthesis(rules, universe, members, guard, r - 1) {
            None => None,
            Some(es) => {
                if excludable(rules, universe, members, guard, r - 1) {
                    let g = rules[r - 1].guard@;
                    if entails(guard, landed(es, g, (r - 1) as usize)) {
                        None
                    } else {
                        Some(added(es, g, (r - 1) as usize))
                    }
                } else {
                    Some(es)
                }
            },
        }
    }
}

proof fn lemma_synthesis_stays_none(
    rules: Seq<Rule>,
    universe: Seq<bool>,
    members: Seq<bool>,
    guard: Map<int, bool>,
    r: int,
    n: int,
)
    requires
        0 <= r <= n,
        synthesis(rules, universe, members, guard, r) is None,
    ensures
        synthesis(rules, universe, members, guard, n) is None,
    decreases n - r,
{
    if r < n {
        lemma_synthesis_stays_none(rules, universe, members, guard, r + 1, n);
    }
}

/// The first entry that `g` fuses into: its position, the fused predicate, and
/// whether the entry is split afterwards.
fn first_fit(exs: &Vec<Exclusion>, g: &Pred) -> (r: Option<(usize, Pred, bool)>)
    ensures
        r is None <==> first_fit_from(entry_views(exs@), g@, 0) == -1,
        r matches Some((x, p, sp)) ==> {
            &&& x < exs.len()
            &&& x == first_fit_from(entry_views(exs@), g@, 0)
            &&& p@ == common(exs[x as int].pred@, g@)
            &&& fits(exs[x as int].pred@, exs[x as int].split, g@)
            &&& sp == fused_entry(entry_view(exs[x as int]), g@, 0).2
        },
{
    let ghost vs = entry_views(exs@);
    let mut x: usize = 0;
    while x < exs.len()
        invariant
            x <= exs.len(),
            vs == entry_views(exs@),
            first_fit_from(vs, g@, 0) == first_fit_from(vs, g@, x as int),
        decreases exs.len() - x,
    {
        assert(vs[x as int] == entry_view(exs[x as int]));
        match fuse(&exs[x].pred, g, exs[x].split) {
            Fusion::Identical(p) => {
                return Some((x, p, exs[x].split));
            },
            Fusion::Subsumption(p) => {
                return Some((x, p, exs[x].split));
            },
            Fusion::Partition(p, _) => {
                return Some((x, p, true));
            },
            Fusion::Incompatible => {},
        }
        x = x + 1;
    }
    assert(first_fit_from(vs, g@, x as int) == -1);
    None
}

/// Brings excludable rule `r` into the entries, fusing it into the first entry that
/// accepts it; `false` when the resulting entry covers the whole guard.
fn add_rule(
    rules: &Vec<Rule>,
    universe: &Vec<bool>,
    members: &Vec<bool>,
    guard: &Pred,
    exs: &mut Vec<Exclusion>,
    r: usize,
) -> (ok: bool)
    requires
        universe.len() == rules.len(),
        members.len() == rules.len(),
        r < rules.len(),
        excludable(rules@, universe@, members@, guard@, r as int),
        forall|x: int| 0 <= x < old(exs).len() ==> summarizes(rules@, (#[trigger] old(exs)[x]).pred@, old(exs)[x].rules@),
        forall|x: int, y: int|
            0 <= x < old(exs).len() && 0 <= y < old(exs)[x].rules.len() ==> excludable(
                rules@,
                universe@,
                members@,
                guard@,
                #[trigger] old(exs)[x].rules@[y] as int,
            ) && old(exs)[x].rules@[y] < r,
        forall|x: int|
            0 <= x < old(exs).len() ==> !conflicts((#[trigger] old(exs)[x]).pred@, guard@) && !entails(guard@, old(exs)[x].pred@),
    ensures
        ok == !entails(guard@, landed(entry_views(old(exs)@), rules@[r as int].guard@, r)),
        ok ==> entry_views(final(exs)@) == added(entry_views(old(exs)@), rules@[r as int].guard@, r),
        !ok ==> shadowed(rules@, universe@, members@, guard@),
        ok ==> {
            &&& forall|x: int| 0 <= x < final(exs).len() ==> summarizes(rules@, (#[trigger] final(exs)[x]).pred@, final(exs)[x].rules@)
            &&& forall|x: int, y: int|
                0 <= x < final(exs).len() && 0 <= y < final(exs)[x].rules.len() ==> excludable(
                    rules@,
                    universe@,
                    members@,
                    guard@,
                    #[trigger] final(exs)[x].rules@[y] as int,
                ) && final(exs)[x].rules@[y] < r + 1
            &&& forall|x: int|
                0 <= x < final(exs).len() ==> !conflicts((#[trigger] final(exs)[x]).pred@, guard@) && !entails(guard@, final(exs)[x].pred@)
            &&& exists|x: int, y: int|
                0 <= x < final(exs).len() && 0 <= y < final(exs)[x].rules.len() && final(exs)[x].rules@[y] == r
            &&& forall|x: int, y: int|
                0 <= x < old(exs).len() && 0 <= y < old(exs)[x].rules.len() ==> exists|x2: int, y2: int|
                    0 <= x2 < final(exs).len() && 0 <= y2 < final(exs)[x2].rules.len()
                        && final(exs)[x2].rules@[y2] == #[trigger] old(exs)[x].rules@[y]
        },
{
    let ghost gd = guard@;
    let ghost exs0 = exs@;
            assert(excludable(rules@, universe@, members@, gd, r as int));
            match first_fit(&exs, &rules[r].guard) {
                Some((x, p, sp)) => {
                    let old_entry = exs.remove(x);
                    assert(old_entry == exs0[x as int]);
                    let mut listed = old_entry.rules;
                    let ghost l0 = listed@;
                    listed.push(r);
                    proof {
                        lemma_fused_summary(rules@, old_entry.pred@, l0, r, old_entry.split);
                        lemma_common_no_conflict(old_entry.pred@, rules@[r as int].guard@, gd);
                    }
                    let e = Exclusion { pred: p, rules: listed, split: sp };
                    let implied = guard.implies(&e.pred);
                    if implied {
                        proof {
                            assert forall|y: int| 0 <= y < e.rules@.len() implies excludable(
                                rules@,
                                universe@,
                                members@,
                                gd,
                                #[trigger] e.rules@[y] as int,
                            ) by {
                                if y < l0.len() {
                                    assert(e.rules@[y] == exs0[x as int].rules@[y]);
                                }
                            }
                            lemma_shadowed_by_entry(rules@, universe@, members@, gd, e.pred@, e.rules@);
                        }
                        return false;
                    }
                    exs.insert(x, e);
                    proof {
                        assert(exs@ =~= exs0.update(x as int, e));
                        let vs0 = entry_views(exs0);
                        assert(vs0[x as int] == entry_view(exs0[x as int]));
                        assert(entry_view(e) == fused_entry(vs0[x as int], rules@[r as int].guard@, r));
                        assert(entry_views(exs@) =~= vs0.update(x as int, entry_view(e)));
                        assert(exs[x as int].rules@[l0.len() as int] == r);
                        assert forall|x3: int, y3: int|
                            0 <= x3 < exs0.len() && 0 <= y3 < exs0[x3].rules.len() implies exists|x2: int, y2: int|
                            0 <= x2 < exs.len() && 0 <= y2 < exs[x2].rules.len()
                                && exs[x2].rules@[y2] == #[trigger] exs0[x3].rules@[y3] by {
                            if x3 == x {
                                assert(exs[x3].rules@[y3] == exs0[x3].rules@[y3]);
                            } else {
                                assert(exs[x3] == exs0[x3]);
                            }
                        }
                        assert forall|x2: int, y: int|
                            0 <= x2 < exs.len() && 0 <= y < exs[x2].rules.len() implies excludable(
                            rules@,
                            universe@,
                            members@,
                            gd,
                            #[trigger] exs[x2].rules@[y] as int,
                        ) && exs[x2].rules@[y] < r + 1 by {
                            if x2 == x {
                                if y < l0.len() {
                                    assert(exs[x2].rules@[y] == l0[y]);
                                    assert(exs0[x2].rules@[y] == l0[y]);
                                }
                            } else {
                                assert(exs[x2] == exs0[x2]);
                            }
                        }
                    }
                },
                None => {
                    let g = rules[r].guard.clone();
                    let e = Exclusion { pred: g, rules: vec![r], split: false };
                    proof {
                        lemma_single_summary(rules@, r);
                        assert(e.rules@ =~= seq![r]);
                        assert(!conflicts(e.pred@, gd)) by {
                            if conflicts(e.pred@, gd) {
                                let k = choose|k: int| #[trigger] e.pred@.contains_key(k) && gd.contains_key(k)
                                    && e.pred@[k] != gd[k];
                                assert(rules@[r as int].guard@.contains_key(k) && guard@.contains_key(k));
                            }
                        }
                    }
                    let implied = guard.implies(&e.pred);
                    if implied {
                        proof {
                            lemma_shadowed_by_entry(rules@, universe@, members@, gd, e.pred@, e.rules@);
                        }
                        return false;
                    }
                    exs.push(e);
                    proof {
                        assert(entry_views(exs@) =~= entry_views(exs0).push(entry_view(e)));
                        assert(entry_view(e) == (rules@[r as int].guard@, seq![r], false));
                        assert(exs[exs.len() - 1].rules@[0] == r);
                        assert forall|x3: int, y3: int|
                            0 <= x3 < exs0.len() && 0 <= y3 < exs0[x3].rules.len() implies exists|x2: int, y2: int|
                            0 <= x2 < exs.len() && 0 <= y2 < exs[x2].rules.len()
                                && exs[x2].rules@[y2] == #[trigger] exs0[x3].rules@[y3] by {
                            assert(exs[x3] == exs0[x3]);
                        }
                        assert forall|x2: int, y: int|
                            0 <= x2 < exs.len() && 0 <= y < exs[x2].rules.len() implies excludable(
                            rules@,
                            universe@,
                            members@,
                            gd,
                            #[trigger] exs[x2].rules@[y] as int,
                        ) && exs[x2].rules@[y] < r + 1 by {
                            if x2 < exs0.len() {
                                assert(exs[x2] == exs0[x2]);
                            }
                        }
                    }
                },
            }
            true
}

/// Computes the exclusions of a cluster against the rules of `universe`; `None`
/// when an exclusion turns out to cover the cluster's whole guard.
#[verifier::rlimit(60)]
pub fn synthesize_exclusions(rules: &Vec<Rule>, universe: &Vec<bool>, c: Cluster) -> (r: Option<
    Cluster,
>)
    requires
        universe.len() == rules.len(),
        c.members.len() == rules.len(),
    ensures
        r matches Some(d) ==> {
            &&& d.members@ == c.members@
            &&& d.guard@ == c.guard@
            &&& exclusions_valid(rules@, universe@, c.members@, c.guard@, d.exclusions@)
        },
        r is None ==> shadowed(rules@, universe@, c.members@, c.guard@),
        r is None <==> synthesis(rules@, universe@, c.members@, c.guard@, rules.len() as int) is None,
        r matches Some(d) ==> synthesis(rules@, universe@, c.members@, c.guard@, rules.len() as int) == Some(
            entry_views(d.exclusions@),
        ),
{
    let ghost c_members = c.members@;
    let ghost c_guard = c.guard@;
    let Cluster { members, guard, exclusions: _ } = c;
    assert(members@ == c_members && guard@ == c_guard);
    let ghost gd = guard@;
    let mut exs: Vec<Exclusion> = Vec::new();
    let mut r: usize = 0;
    while r < rules.len()
        invariant
            universe.len() == rules.len(),
            members.len() == rules.len(),
            gd == guard@,
            members@ == c_members,
            gd == c_guard,
            c_members == c.members@,
            c_guard == c.guard@,
            r <= rules.len(),
            synthesis(rules@, universe@, c_members, c_guard, r as int) == Some(entry_views(exs@)),
            forall|x: int| 0 <= x < exs.len() ==> summarizes(rules@, (#[trigger] exs[x]).pred@, exs[x].rules@),
            forall|x: int, y: int|
                0 <= x < exs.len() && 0 <= y < exs[x].rules.len() ==> excludable(
                    rules@,
                    universe@,
                    members@,
                    gd,
                    #[trigger] exs[x].rules@[y] as int,
                ) && exs[x].rules@[y] < r,
            forall|x: int|
                0 <= x < exs.len() ==> !conflicts((#[trigger] exs[x]).pred@, gd) && !entails(gd, exs[x].pred@),
            forall|q: int|
                0 <= q < r && #[trigger] excludable(rules@, universe@, members@, gd, q) ==> exists|x: int, y: int|
                    0 <= x < exs.len() && 0 <= y < exs[x].rules.len() && exs[x].rules@[y] == q,
        decreases rules.len() - r,
    {
        if universe[r] && !members[r] && !rules[r].guard.conflicts_with(&guard) {
            let ghost exs0 = exs@;
            if !add_rule(rules, universe, &members, &guard, &mut exs, r) {
                assert(shadowed(rules@, universe@, members@, guard@));
                assert(shadowed(rules@, universe@, c_members, c_guard));
                proof {
                    assert(synthesis(rules@, universe@, c_members, c_guard, r + 1) is None);
                    lemma_synthesis_stays_none(rules@, universe@, c_members, c_guard, r + 1, rules.len() as int);
                }
                return None;
            }
            proof {
                assert forall|x: int, y: int|
                    0 <= x < exs.len() && 0 <= y < exs[x].rules.len() implies excludable(
                    rules@,
                    universe@,
                    members@,
                    gd,
                    #[trigger] exs[x].rules@[y] as int,
                ) && exs[x].rules@[y] < r + 1 by {}
                assert forall|q: int|
                    0 <= q < r + 1 && #[trigger] excludable(rules@, universe@, members@, gd, q) implies exists|x: int, y: int|
                    0 <= x < exs.len() && 0 <= y < exs[x].rules.len() && exs[x].rules@[y] == q by {
                    if q < r {
                        let (x3, y3) = choose|x3: int, y3: int|
                            0 <= x3 < exs0.len() && 0 <= y3 < exs0[x3].rules.len() && exs0[x3].rules@[y3] == q;
                        assert(exs0[x3].rules@[y3] == q);
                    }
                }
            }
        }
        r = r + 1;
    }
    // Stale entries, which conflict with the guard and so never match a state the
    // cluster matches, are pruned. Every entry generalises a guard that does not
    // conflict with the cluster's, so the pruning keeps them all.
    let mut kept: Vec<Exclusion> = Vec::new();
    let ghost all = exs@;
    let mut rest = exs;
    while rest.len() > 0
        invariant
            forall|x: int| 0 <= x < all.len() ==> !conflicts((#[trigger] all[x]).pred@, gd),
            gd == guard@,
            kept.len() + rest.len() == all.len(),
            kept@ == all.subrange(0, kept.len() as int),
            rest@ == all.subrange(kept.len() as int, all.len() as int),
        decreases rest.len(),
    {
        let ghost rest0 = rest@;
        assert(rest0[0] == all[kept.len() as int]);
        let e = rest.remove(0);
        assert(!conflicts(all[kept.len() as int].pred@, gd));
        if !e.pred.conflicts_with(&guard) {
            kept.push(e);
            assert(kept@ =~= all.subrange(0, kept.len() as int));
            assert(rest@ =~= all.subrange(kept.len() as int, all.len() as int));
        } else {
            assert(false);
        }
    }
    assert(kept@ =~= all);
    assert(r == rules.len());
    Some(Cluster { members, guard, exclusions: kept })
}

} // verus!
