//! Cluster building (conjunctive guard merge) and redundancy elimination.
use vstd::prelude::*;

use crate::pred::Pred;
use crate::rules::Rule;
use crate::subsets::{flag_views, mutex_free};

verus! {

/// A predicate that must fail for its cluster to be the match, with the rules it
/// stands for and whether a partition merge has already dropped a cell from it.
pub struct Exclusion {
    pub pred: Pred,
    pub rules: Vec<usize>,
    pub split: bool,
}

/// A group of jointly applicable rules (membership flags indexed by rule), their
/// merged guard, and the exclusions that tell it apart from other clusters.
pub struct Cluster {
    pub members: Vec<bool>,
    pub guard: Pred,
    pub exclusions: Vec<Exclusion>,
}

impl Cluster {
    /// A copy with the same members and guard and no exclusions.
    pub fn base_copy(&self) -> (r: Cluster)
        ensures
            r.members@ == self.members@,
            r.guard@ == self.guard@,
            r.exclusions.len() == 0,
    {
        Cluster { members: copy_flags(&self.members), guard: self.guard.clone(), exclusions: Vec::new() }
    }

    /// Indices of the member rules, increasing.
    pub fn member_indices(&self) -> (r: Vec<usize>)
        ensures
            forall|i: int| 0 <= i < r.len() ==> r[i] < self.members.len() && self.members@[r[i] as int],
            forall|k: int| 0 <= k < self.members.len() && self.members@[k] ==> exists|i: int|
                0 <= i < r.len() && r[i] == k,
            forall|i: int, j: int| 0 <= i < j < r.len() ==> r[i] < r[j],
    {
        let mut r: Vec<usize> = Vec::new();
        let mut k: usize = 0;
        while k < self.members.len()
            invariant
                k <= self.members.len(),
                forall|i: int| 0 <= i < r.len() ==> r[i] < k && self.members@[r[i] as int],
                forall|x: int| 0 <= x < k && self.members@[x] ==> exists|i: int|
                    0 <= i < r.len() && r[i] == x,
                forall|i: int, j: int| 0 <= i < j < r.len() ==> r[i] < r[j],
            decreases self.members.len() - k,
        {
            if self.members[k] {
                let ghost r0 = r@;
                r.push(k);
                assert(forall|i: int| 0 <= i < r0.len() ==> r@[i] == r0[i]);
                assert(r[r.len() - 1] == k);
            }
            k = k + 1;
        }
        r
    }
}

/// What an exclusion entry holds: its predicate, its rules and its split flag.
pub open spec fn entry_view(e: Exclusion) -> (Map<int, bool>, Seq<usize>, bool) {
    (e.pred@, e.rules@, e.split)
}

/// What each entry of a list holds.
pub open spec fn entry_views(s: Seq<Exclusion>) -> Seq<(Map<int, bool>, Seq<usize>, bool)> {
    s.map_values(|e: Exclusion| entry_view(e))
}

/// What a cluster holds, as values: members, guard and exclusion entries.
pub open spec fn cluster_view(c: Cluster) -> (Seq<bool>, Map<int, bool>, Seq<(Map<int, bool>, Seq<usize>, bool)>) {
    (c.members@, c.guard@, entry_views(c.exclusions@))
}

/// What each cluster of a list holds.
pub open spec fn cluster_views(s: Seq<Cluster>) -> Seq<(Seq<bool>, Map<int, bool>, Seq<(Map<int, bool>, Seq<usize>, bool)>)> {
    s.map_values(|c: Cluster| cluster_view(c))
}

/// The conjunctive merge of the guards of the rules flagged in `m`.
pub open spec fn merged_guard(rules: Seq<Rule>, m: Seq<bool>) -> Map<int, bool> {
    Map::new(
        |k: int| exists|j: int| 0 <= j < m.len() && m[j] && rules[j].guard@.contains_key(k),
        |k: int| rules[choose|j: int| 0 <= j < m.len() && m[j] && rules[j].guard@.contains_key(k)].guard@[k],
    )
}

/// The clusters built from a list of candidates: one for each mutex-free candidate,
/// in order, with the merged guard and no exclusions.
pub open spec fn built(rules: Seq<Rule>, cands: Seq<Seq<bool>>) -> Seq<(Seq<bool>, Map<int, bool>, Seq<(Map<int, bool>, Seq<usize>, bool)>)>
    decreases cands.len(),
{
    if cands.len() == 0 {
        Seq::empty()
    } else {
        let b = built(rules, cands.drop_last());
        let m = cands.last();
        if mutex_free(rules, m) {
            b.push((m, merged_guard(rules, m), Seq::empty()))
        } else {
            b
        }
    }
}

/// `g` is the conjunctive merge of the guards of the rules flagged in `m` below
/// `upto`: it constrains exactly their cells, with their values.
pub open spec fn merged_upto(g: Map<int, bool>, rules: Seq<Rule>, m: Seq<bool>, upto: int) -> bool {
    &&& forall|k: int| #[trigger]
        g.contains_key(k) ==> exists|j: int|
            0 <= j < upto && m[j] && rules[j].guard@.contains_key(k) && rules[j].guard@[k] == g[k]
    &&& forall|j: int, k: int|
        0 <= j < upto && m[j] && #[trigger] rules[j].guard@.contains_key(k) ==> g.contains_key(k)
            && g[k] == rules[j].guard@[k]
}

/// `g` is the conjunctive merge of the guards of all member rules.
pub open spec fn is_merge_of(g: Map<int, bool>, rules: Seq<Rule>, m: Seq<bool>) -> bool {
    merged_upto(g, rules, m, m.len() as int)
}

/// The merge of the member guards is the one predicate `merged_guard` names.
pub proof fn lemma_merge_unique(g: Map<int, bool>, rules: Seq<Rule>, m: Seq<bool>)
    requires
        is_merge_of(g, rules, m),
    ensures
        g == merged_guard(rules, m),
{
    let mg = merged_guard(rules, m);
    assert forall|k: int| #[trigger] g.contains_key(k) == mg.contains_key(k) by {
        if g.contains_key(k) {
            let j = choose|j: int|
                0 <= j < m.len() && m[j] && rules[j].guard@.contains_key(k) && rules[j].guard@[k] == g[k];
            assert(0 <= j < m.len() && m[j] && rules[j].guard@.contains_key(k));
        }
    }
    assert forall|k: int| #[trigger] g.contains_key(k) implies g[k] == mg[k] by {
        let j = choose|j: int| 0 <= j < m.len() && m[j] && rules[j].guard@.contains_key(k);
        assert(rules[j].guard@.contains_key(k));
    }
    assert(g =~= mg);
}

/// Copies a flag vector.
fn copy_flags(v: &Vec<bool>) -> (r: Vec<bool>)
    ensures
        r@ == v@,
{
    let mut r: Vec<bool> = Vec::new();
    let mut i: usize = 0;
    while i < v.len()
        invariant
            i <= v.len(),
            r.len() == i,
            forall|j: int| 0 <= j < i ==> r@[j] == v@[j],
        decreases v.len() - i,
    {
        r.push(v[i]);
        i = i + 1;
    }
    assert(r@ =~= v@);
    r
}

/// Merges the guards of the member rules in index order; `None` when two of them
/// conflict.
pub fn build_cluster(rules: &Vec<Rule>, members: &Vec<bool>) -> (r: Option<Pred>)
    requires
        members.len() == rules.len(),
    ensures
        r is Some <==> mutex_free(rules@, members@),
        r matches Some(g) ==> is_merge_of(g@, rules@, members@),
{
    let mut g = Pred::new();
    let mut j: usize = 0;
    while j < rules.len()
        invariant
            members.len() == rules.len(),
            j <= rules.len(),
            merged_upto(g@, rules@, members@, j as int),
            forall|a: int, b: int|
                0 <= a < j && 0 <= b < j && members@[a] && members@[b] ==> !#[trigger] crate::rules::mutex(
                    rules@,
                    a,
                    b,
                ),
        decreases rules.len() - j,
    {
        if members[j] {
            let es = rules[j].guard.entries();
            let ghost gj = rules@[j as int].guard@;
            let mut e: usize = 0;
            while e < es.len()
                invariant
                    members.len() == rules.len(),
                    j < rules.len(),
                    members@[j as int],
                    gj == rules@[j as int].guard@,
                    e <= es.len(),
                    forall|i: int| 0 <= i < es.len() ==> gj.contains_key(#[trigger] es[i].0 as int)
                        && gj[es[i].0 as int] == es[i].1,
                    forall|i: int, i2: int| 0 <= i < i2 < es.len() ==> es[i].0 < es[i2].0,
                    forall|k: int| #[trigger]
                        g@.contains_key(k) ==> (exists|j2: int|
                            0 <= j2 < j && members@[j2] && rules@[j2].guard@.contains_key(k)
                                && rules@[j2].guard@[k] == g@[k]) || (exists|i: int|
                            0 <= i < e && es[i].0 == k && gj[k] == g@[k]),
                    forall|j2: int, k: int|
                        0 <= j2 < j && members@[j2] && #[trigger] rules@[j2].guard@.contains_key(k)
                            ==> g@.contains_key(k) && g@[k] == rules@[j2].guard@[k],
                    forall|i: int| 0 <= i < e ==> g@.contains_key(#[trigger] es[i].0 as int)
                        && g@[es[i].0 as int] == es[i].1,
                decreases es.len() - e,
            {
                let (k, v) = es[e];
                let _w = rules[j].guard.width_exec();
                proof {
                    rules@[j as int].guard.lemma_width();
                }
                let ok = g.insert(k, v);
                if !ok {
                    proof {
                        let kk = k as int;
                        assert(g@.contains_key(kk));
                        if exists|i: int| 0 <= i < e && es[i].0 == kk && gj[kk] == g@[kk] {
                            let i = choose|i: int| 0 <= i < e && es[i].0 == kk && gj[kk] == g@[kk];
                            assert(es[i].0 < es[e as int].0);
                        }
                        let j2 = choose|j2: int|
                            0 <= j2 < j && members@[j2] && rules@[j2].guard@.contains_key(kk)
                                && rules@[j2].guard@[kk] == g@[kk];
                        assert(crate::rules::mutex(rules@, j as int, j2));
                    }
                    return None;
                }
                proof {
                    let kk = k as int;
                    assert forall|q: int| #[trigger] g@.contains_key(q) implies (exists|j2: int|
                        0 <= j2 < j && members@[j2] && rules@[j2].guard@.contains_key(q)
                            && rules@[j2].guard@[q] == g@[q]) || (exists|i: int|
                        0 <= i < e + 1 && es[i].0 == q && gj[q] == g@[q]) by {
                        if q == kk {
                            assert(es[e as int].0 == q);
                        }
                    }
                }
                e = e + 1;
            }
            proof {
                assert forall|a: int, b: int|
                    0 <= a < j + 1 && 0 <= b < j + 1 && members@[a] && members@[b] implies !#[trigger] crate::rules::mutex(
                    rules@,
                    a,
                    b,
                ) by {
                    if crate::rules::mutex(rules@, a, b) && (a == j || b == j) {
                        let other = if a == j {
                            b
                        } else {
                            a
                        };
                        assert(crate::pred::conflicts(gj, rules@[other].guard@)) by {
                            if a != j {
                                let k = choose|k: int| #[trigger] rules@[a].guard@.contains_key(k)
                                    && rules@[b].guard@.contains_key(k) && rules@[a].guard@[k]
                                    != rules@[b].guard@[k];
                                assert(gj.contains_key(k));
                            }
                        }
                        let k = choose|k: int| #[trigger] gj.contains_key(k)
                            && rules@[other].guard@.contains_key(k) && gj[k]
                            != rules@[other].guard@[k];
                        assert(entry_listed(es@, k));
                        let i = choose|i: int| 0 <= i < es.len() && es[i].0 == k;
                        assert(g@[es[i].0 as int] == es[i].1);
                    }
                }
            }
        }
        j = j + 1;
    }
    assert forall|a: int, b: int|
        0 <= a < members@.len() && 0 <= b < members@.len() && members@[a] && members@[b] implies !#[trigger] crate::rules::mutex(
        rules@,
        a,
        b,
    ) by {}
    Some(g)
}

spec fn entry_listed(es: Seq<(usize, bool)>, k: int) -> bool {
    exists|i: int| 0 <= i < es.len() && es[i].0 == k
}

/// Builds the cluster of every candidate whose member guards merge; the others
/// are dropped.
pub fn build_clusters(rules: &Vec<Rule>, cands: &Vec<Vec<bool>>) -> (out: Vec<Cluster>)
    requires
        forall|i: int| 0 <= i < cands.len() ==> (#[trigger] cands[i]).len() == rules.len(),
    ensures
        out.len() <= cands.len(),
        forall|o: int|
            0 <= o < out.len() ==> {
                &&& (#[trigger] out[o]).members@.len() == rules.len()
                &&& exists|i: int| 0 <= i < cands.len() && out[o].members@ == cands[i]@
                &&& mutex_free(rules@, out[o].members@)
                &&& is_merge_of(out[o].guard@, rules@, out[o].members@)
                &&& out[o].exclusions.len() == 0
            },
        forall|i: int|
            0 <= i < cands.len() && mutex_free(rules@, #[trigger] cands[i]@) ==> exists|o: int|
                0 <= o < out.len() && out[o].members@ == cands[i]@,
        cluster_views(out@) == built(rules@, flag_views(cands@)),
{
    let mut out: Vec<Cluster> = Vec::new();
    let mut i: usize = 0;
    while i < cands.len()
        invariant
            i <= cands.len(),
            out.len() <= i,
            forall|x: int| 0 <= x < cands.len() ==> (#[trigger] cands[x]).len() == rules.len(),
            forall|o: int|
                0 <= o < out.len() ==> {
                    &&& (#[trigger] out[o]).members@.len() == rules.len()
                    &&& exists|x: int| 0 <= x < cands.len() && out[o].members@ == cands[x]@
                    &&& mutex_free(rules@, out[o].members@)
                    &&& is_merge_of(out[o].guard@, rules@, out[o].members@)
                    &&& out[o].exclusions.len() == 0
                },
            forall|x: int|
                0 <= x < i && mutex_free(rules@, #[trigger] cands[x]@) ==> exists|o: int|
                    0 <= o < out.len() && out[o].members@ == cands[x]@,
            cluster_views(out@) == built(rules@, flag_views(cands@).subrange(0, i as int)),
        decreases cands.len() - i,
    {
        let ghost fv = flag_views(cands@);
        let ghost pre = fv.subrange(0, i as int);
        let ghost nxt = fv.subrange(0, i + 1);
        assert(nxt.drop_last() =~= pre);
        assert(nxt.last() == cands[i as int]@);
        let ghost out_before = out@;
        match build_cluster(rules, &cands[i]) {
            Some(g) => {
                let members = copy_flags(&cands[i]);
                let ghost out0 = out@;
                out.push(Cluster { members, guard: g, exclusions: Vec::new() });
                proof {
                    assert forall|o: int| 0 <= o < out0.len() implies out@[o] == out0[o] by {}
                    assert(out[out.len() - 1].members@ == cands[i as int]@);
                    lemma_merge_unique(g@, rules@, cands[i as int]@);
                    assert(entry_views(out[out.len() - 1].exclusions@) =~= Seq::empty());
                    assert(cluster_views(out@) =~= cluster_views(out_before).push(cluster_view(out[out.len() - 1])));
                }
            },
            None => {},
        }
        i = i + 1;
    }
    assert(flag_views(cands@).subrange(0, cands.len() as int) =~= flag_views(cands@));
    out
}

/// `a` selects a strict subset of what `b` selects.
pub open spec fn strict_subset(a: Seq<bool>, b: Seq<bool>) -> bool {
    &&& a.len() == b.len()
    &&& forall|i: int| 0 <= i < a.len() && a[i] ==> b[i]
    &&& exists|i: int| 0 <= i < a.len() && b[i] && !a[i]
}

/// Some cluster of `cs` has the same guard as `c` and strictly more members.
pub open spec fn dominated_by(cs: Seq<Cluster>, c: Cluster) -> bool {
    exists|j: int|
        0 <= j < cs.len() && cs[j].guard@ == c.guard@ && strict_subset(c.members@, #[trigger] cs[j].members@)
}

/// Some view of `vs` has the same guard as `v` and strictly more members.
pub open spec fn dominated_v(
    vs: Seq<(Seq<bool>, Map<int, bool>, Seq<(Map<int, bool>, Seq<usize>, bool)>)>,
    v: (Seq<bool>, Map<int, bool>, Seq<(Map<int, bool>, Seq<usize>, bool)>),
) -> bool {
    exists|j: int| 0 <= j < vs.len() && vs[j].1 == v.1 && strict_subset(v.0, #[trigger] vs[j].0)
}

/// Redundancy elimination on cluster views.
pub open spec fn eliminated(vs: Seq<(Seq<bool>, Map<int, bool>, Seq<(Map<int, bool>, Seq<usize>, bool)>)>) -> Seq<
    (Seq<bool>, Map<int, bool>, Seq<(Map<int, bool>, Seq<usize>, bool)>),
> {
    vs.filter(|v: (Seq<bool>, Map<int, bool>, Seq<(Map<int, bool>, Seq<usize>, bool)>)| !dominated_v(vs, v))
}

proof fn lemma_filter_views(
    s: Seq<Cluster>,
    p: spec_fn(Cluster) -> bool,
    q: spec_fn((Seq<bool>, Map<int, bool>, Seq<(Map<int, bool>, Seq<usize>, bool)>)) -> bool,
)
    requires
        forall|c: Cluster| #[trigger] p(c) == q(cluster_view(c)),
    ensures
        cluster_views(s.filter(p)) == cluster_views(s).filter(q),
    decreases s.len(),
{
    reveal(Seq::filter);
    if s.len() == 0 {
        assert(cluster_views(s.filter(p)) =~= cluster_views(s).filter(q));
    } else {
        lemma_filter_views(s.drop_last(), p, q);
        let vs = cluster_views(s);
        assert(cluster_views(s.drop_last()) =~= vs.drop_last());
        assert(vs.last() == cluster_view(s.last()));
        if p(s.last()) {
            assert(cluster_views(s.drop_last().filter(p).push(s.last())) =~= cluster_views(s.drop_last().filter(p)).push(
                cluster_view(s.last()),
            ));
        }
    }
}

fn is_strict_subset(a: &Vec<bool>, b: &Vec<bool>) -> (r: bool)
    ensures
        r == strict_subset(a@, b@),
{
    if a.len() != b.len() {
        return false;
    }
    let mut grown = false;
    let mut i: usize = 0;
    while i < a.len()
        invariant
            a.len() == b.len(),
            i <= a.len(),
            forall|x: int| 0 <= x < i && a@[x] ==> b@[x],
            grown == exists|x: int| 0 <= x < i && b@[x] && !a@[x],
        decreases a.len() - i,
    {
        if a[i] && !b[i] {
            return false;
        }
        if b[i] && !a[i] {
            grown = true;
        }
        i = i + 1;
    }
    grown
}

/// Drops every cluster whose guard equals another cluster's and whose members are
/// a strict subset of that cluster's; the others keep their order.
pub fn eliminate_redundant(clusters: Vec<Cluster>) -> (out: Vec<Cluster>)
    ensures
        out@ == clusters@.filter(|c: Cluster| !dominated_by(clusters@, c)),
        cluster_views(out@) == eliminated(cluster_views(clusters@)),
{
    let ghost orig = clusters@;
    let mut keep: Vec<bool> = Vec::new();
    let mut i: usize = 0;
    while i < clusters.len()
        invariant
            i <= clusters.len(),
            keep.len() == i,
            forall|x: int| 0 <= x < i ==> keep@[x] == !dominated_by(clusters@, clusters@[x]),
        decreases clusters.len() - i,
    {
        let mut dom = false;
        let mut j: usize = 0;
        while j < clusters.len()
            invariant
                i < clusters.len(),
                j <= clusters.len(),
                dom == exists|y: int|
                    0 <= y < j && clusters@[y].guard@ == clusters@[i as int].guard@ && strict_subset(
                        clusters@[i as int].members@,
                        #[trigger] clusters@[y].members@,
                    ),
            decreases clusters.len() - j,
        {
            if clusters[j].guard == clusters[i].guard && is_strict_subset(
                &clusters[i].members,
                &clusters[j].members,
            ) {
                dom = true;
            }
            j = j + 1;
        }
        keep.push(!dom);
        i = i + 1;
    }
    let ghost pred = |c: Cluster| !dominated_by(orig, c);
    let mut rest = clusters;
    let mut out: Vec<Cluster> = Vec::new();
    let mut k: usize = 0;
    while k < keep.len()
        invariant
            keep.len() == orig.len(),
            k <= keep.len(),
            rest@ == orig.subrange(k as int, orig.len() as int),
            out@ == orig.subrange(0, k as int).filter(pred),
            forall|x: int| 0 <= x < orig.len() ==> keep@[x] == pred(orig[x]),
        decreases keep.len() - k,
    {
        let ghost rest0 = rest@;
        assert(rest0[0] == orig[k as int]);
        let c = rest.remove(0);
        let ghost s1 = orig.subrange(0, k + 1);
        assert(s1.last() == orig[k as int]);
        assert(s1.drop_last() =~= orig.subrange(0, k as int));
        assert(c == s1.last());
        reveal(Seq::filter);
        assert(s1.filter(pred) == (if pred(s1.last()) {
            s1.drop_last().filter(pred).push(s1.last())
        } else {
            s1.drop_last().filter(pred)
        }));
        if keep[k] {
            out.push(c);
        }
        k = k + 1;
        assert(rest@ =~= orig.subrange(k as int, orig.len() as int));
    }
    assert(orig.subrange(0, orig.len() as int) =~= orig);
    proof {
        let vs = cluster_views(orig);
        let q = |v: (Seq<bool>, Map<int, bool>, Seq<(Map<int, bool>, Seq<usize>, bool)>)| !dominated_v(vs, v);
        assert forall|c: Cluster| #[trigger] pred(c) == q(cluster_view(c)) by {
            assert(pred(c) == !dominated_by(orig, c));
            assert(q(cluster_view(c)) == !dominated_v(vs, cluster_view(c)));
            if dominated_by(orig, c) {
                let j = choose|j: int|
                    0 <= j < orig.len() && orig[j].guard@ == c.guard@ && strict_subset(c.members@, #[trigger] orig[j].members@);
                assert(vs[j] == cluster_view(orig[j]));
                assert(vs[j].0 == orig[j].members@ && vs[j].1 == orig[j].guard@);
                assert(dominated_v(vs, cluster_view(c)));
            }
            if dominated_v(vs, cluster_view(c)) {
                let j = choose|j: int|
                    0 <= j < vs.len() && vs[j].1 == cluster_view(c).1 && strict_subset(cluster_view(c).0, #[trigger] vs[j].0);
                assert(vs[j] == cluster_view(orig[j]));
                assert(vs[j].0 == orig[j].members@ && vs[j].1 == orig[j].guard@);
                assert(dominated_by(orig, c));
            }
        }
        lemma_filter_views(orig, pred, q);
    }
    out
}

} // verus!
