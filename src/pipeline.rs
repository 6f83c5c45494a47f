//! The full analysis run: mutex-free subsets, clusters, redundancy elimination,
//! exclusion synthesis and the completeness check.
use vstd::prelude::*;

use crate::cluster::{build_clusters, built, cluster_view, cluster_views, eliminate_redundant, eliminated, is_merge_of, Cluster};
use crate::coverage::{check_completeness, partition_complete};
use crate::exclusion::{exclusions_valid, shadowed, synthesis, synthesize_exclusions};
use crate::rules::{PartitionError, Rule};
use crate::subsets::{enumerate_subsets, exceeds, fits_ceiling, flag_views, is_enumeration, lemma_exceeds_not_fits, mutex_free};

verus! {

/// Rule `r` is a member of some cluster of `cs` other than the one at `i`.
pub open spec fn in_other(cs: Seq<Cluster>, i: int, r: int) -> bool {
    exists|j: int| 0 <= j < cs.len() && j != i && #[trigger] cs[j].members@[r]
}

/// The rule universe of cluster `i`: the rules that some other cluster holds.
pub open spec fn universe_spec(cs: Seq<Cluster>, i: int, n: nat) -> Seq<bool> {
    Seq::new(n, |r: int| in_other(cs, i, r))
}

/// The rule universe of view `i`: the rules that some other view holds.
pub open spec fn universe_v(
    vs: Seq<(Seq<bool>, Map<int, bool>, Seq<(Map<int, bool>, Seq<usize>, bool)>)>,
    i: int,
    n: nat,
) -> Seq<bool> {
    Seq::new(n, |r: int| exists|j: int| 0 <= j < vs.len() && j != i && #[trigger] vs[j].0[r])
}

/// The first `k` cluster views after exclusion synthesis: each keeps its members and
/// guard and gains its entries, or is dropped when shadowed.
pub open spec fn synthesized(
    rules: Seq<Rule>,
    vs: Seq<(Seq<bool>, Map<int, bool>, Seq<(Map<int, bool>, Seq<usize>, bool)>)>,
    k: int,
) -> Seq<(Seq<bool>, Map<int, bool>, Seq<(Map<int, bool>, Seq<usize>, bool)>)>
    decreases k,
{
    if k <= 0 {
        Seq::empty()
    } else {
        let prev = synthesized(rules, vs, k - 1);
        let c = vs[k - 1];
        match synthesis(rules, universe_v(vs, k - 1, rules.len()), c.0, c.1, rules.len() as int) {
            Some(es) => prev.push((c.0, c.1, es)),
            None => prev,
        }
    }
}

/// The cluster views that a run on `rules` with this ceiling produces, given the
/// candidate enumeration, which the rules determine.
pub open spec fn pipeline_result(
    rules: Seq<Rule>,
    ceiling: nat,
    vs: Seq<(Seq<bool>, Map<int, bool>, Seq<(Map<int, bool>, Seq<usize>, bool)>)>,
) -> bool {
    exists|e: Seq<Seq<bool>>|
        is_enumeration(rules, e) && e.len() <= ceiling && vs == synthesized(
            rules,
            eliminated(built(rules, e)),
            eliminated(built(rules, e)).len() as int,
        )
}

/// The clusters of a run on `rules` with this ceiling leave some state unmatched
/// or matched twice.
pub open spec fn result_incomplete(rules: Seq<Rule>, ceiling: nat) -> bool {
    exists|cs: Seq<Cluster>| pipeline_result(rules, ceiling, cluster_views(cs)) && !partition_complete(cs)
}

/// `c` is cluster `i` of `cs` with a valid exclusion list against its universe.
#[verifier::opaque]
pub open spec fn derived_from(rules: Seq<Rule>, cs: Seq<Cluster>, i: int, c: Cluster) -> bool {
    &&& 0 <= i < cs.len()
    &&& c.members@ == cs[i].members@
    &&& c.guard@ == cs[i].guard@
    &&& exclusions_valid(rules, universe_spec(cs, i, rules.len()), cs[i].members@, cs[i].guard@, c.exclusions@)
}

/// `c` is some cluster of `cs` with a valid exclusion list against its universe.
pub open spec fn derived(rules: Seq<Rule>, cs: Seq<Cluster>, c: Cluster) -> bool {
    exists|i: int| derived_from(rules, cs, i, c)
}

fn universe_of(cs: &Vec<Cluster>, i: usize, n: usize) -> (u: Vec<bool>)
    requires
        forall|j: int| 0 <= j < cs.len() ==> (#[trigger] cs[j]).members.len() == n,
    ensures
        u@ == universe_spec(cs@, i as int, n as nat),
{
    let mut u: Vec<bool> = Vec::new();
    let mut r: usize = 0;
    while r < n
        invariant
            r <= n,
            u.len() == r,
            forall|j: int| 0 <= j < cs.len() ==> (#[trigger] cs[j]).members.len() == n,
            forall|x: int| 0 <= x < r ==> u@[x] == in_other(cs@, i as int, x),
        decreases n - r,
    {
        let mut found = false;
        let mut j: usize = 0;
        while j < cs.len()
            invariant
                r < n,
                j <= cs.len(),
                forall|y: int| 0 <= y < cs.len() ==> (#[trigger] cs[y]).members.len() == n,
                found == exists|y: int| 0 <= y < j && y != i && #[trigger] cs@[y].members@[r as int],
            decreases cs.len() - j,
        {
            if j != i && cs[j].members[r] {
                found = true;
            }
            j = j + 1;
        }
        u.push(found);
        r = r + 1;
    }
    assert(u@ =~= universe_spec(cs@, i as int, n as nat));
    u
}

/// Synthesizes the exclusions of every cluster against its own rule universe and
/// keeps the clusters that are not shadowed, in order.
pub fn synthesize_all(rules: &Vec<Rule>, clusters: &Vec<Cluster>) -> (out: Vec<Cluster>)
    requires
        forall|j: int| 0 <= j < clusters.len() ==> (#[trigger] clusters[j]).members.len() == rules.len(),
    ensures
        forall|o: int| 0 <= o < out.len() ==> derived(rules@, clusters@, #[trigger] out[o]),
        forall|i: int|
            0 <= i < clusters.len() ==> shadowed(
                rules@,
                universe_spec(clusters@, i, rules.len() as nat),
                (#[trigger] clusters[i]).members@,
                clusters[i].guard@,
            ) || exists|o: int|
                0 <= o < out.len() && out[o].members@ == clusters[i].members@ && out[o].guard@
                    == clusters[i].guard@,
        cluster_views(out@) == synthesized(rules@, cluster_views(clusters@), clusters.len() as int),
{
    let ghost orig = clusters@;
    let n = rules.len();
    let mut univs: Vec<Vec<bool>> = Vec::new();
    let mut i: usize = 0;
    while i < clusters.len()
        invariant
            i <= clusters.len(),
            n == rules.len(),
            univs.len() == i,
            forall|j: int| 0 <= j < clusters.len() ==> (#[trigger] clusters[j]).members.len() == n,
            forall|j: int| 0 <= j < i ==> (#[trigger] univs[j])@ == universe_spec(clusters@, j, n as nat),
        decreases clusters.len() - i,
    {
        univs.push(universe_of(clusters, i, n));
        i = i + 1;
    }
    let mut out: Vec<Cluster> = Vec::new();
    let ghost mut idx: Seq<int> = Seq::empty();
    let mut k: usize = 0;
    while k < univs.len()
        invariant
            n == rules.len(),
            univs.len() == orig.len(),
            k <= univs.len(),
            orig == clusters@,
            forall|j: int| 0 <= j < orig.len() ==> (#[trigger] orig[j]).members.len() == n,
            forall|j: int| 0 <= j < orig.len() ==> (#[trigger] univs[j])@ == universe_spec(orig, j, n as nat),
            idx.len() == out.len(),
            cluster_views(out@) == synthesized(rules@, cluster_views(orig), k as int),
            forall|o: int| 0 <= o < out.len() ==> derived_from(rules@, orig, idx[o], #[trigger] out[o]),
            forall|j: int|
                0 <= j < k ==> shadowed(
                    rules@,
                    universe_spec(orig, j, n as nat),
                    (#[trigger] orig[j]).members@,
                    orig[j].guard@,
                ) || exists|o: int|
                    0 <= o < out.len() && out[o].members@ == orig[j].members@ && out[o].guard@
                        == orig[j].guard@,
        decreases univs.len() - k,
    {
        let c = clusters[k].base_copy();
        let ghost out0 = out@;
        proof {
            let vs = cluster_views(orig);
            assert(vs[k as int] == cluster_view(orig[k as int]));
            assert forall|r: int| 0 <= r < n implies univs[k as int]@[r] == universe_v(vs, k as int, rules@.len())[r] by {
                if in_other(orig, k as int, r) {
                    let j = choose|j: int| 0 <= j < orig.len() && j != k && #[trigger] orig[j].members@[r];
                    assert(vs[j] == cluster_view(orig[j]));
                    assert(vs[j].0[r]);
                }
                if exists|j: int| 0 <= j < vs.len() && j != k && #[trigger] vs[j].0[r] {
                    let j = choose|j: int| 0 <= j < vs.len() && j != k && #[trigger] vs[j].0[r];
                    assert(vs[j] == cluster_view(orig[j]));
                    assert(orig[j].members@[r]);
                }
            }
            assert(univs[k as int]@ =~= universe_v(vs, k as int, rules@.len()));
        }
        match synthesize_exclusions(rules, &univs[k], c) {
            Some(d) => {
                out.push(d);
                proof {
                    assert(cluster_views(out@) =~= cluster_views(out0).push(cluster_view(d)));
                    assert(forall|o: int| 0 <= o < out0.len() ==> out@[o] == out0[o]);
                    assert(out[out.len() - 1].members@ == orig[k as int].members@);
                    assert(derived_from(rules@, orig, k as int, out[out.len() - 1])) by {
                        reveal(derived_from);
                    }
                    idx = idx.push(k as int);
                    assert forall|o: int| 0 <= o < out.len() implies derived_from(rules@, orig, idx[o], #[trigger] out[o]) by {
                        if o < out0.len() {
                            assert(out[o] == out0[o]);
                        }
                    }
                }
            },
            None => {},
        }
        k = k + 1;
    }
    assert(cluster_views(orig).len() == orig.len());
    assert forall|o: int| 0 <= o < out.len() implies derived(rules@, clusters@, #[trigger] out[o]) by {
        assert(derived_from(rules@, orig, idx[o], out[o]));
    }
    assert forall|i: int| 0 <= i < orig.len() implies shadowed(
        rules@,
        universe_spec(orig, i, n as nat),
        (#[trigger] orig[i]).members@,
        orig[i].guard@,
    ) || exists|o: int|
        0 <= o < out.len() && out[o].members@ == orig[i].members@ && out[o].guard@ == orig[i].guard@ by {
        assert(i < k);
    }
    out
}

/// Runs the whole analysis of `rules` with at most `ceiling` candidate subsets and
/// returns the surviving clusters, which partition the state space.
pub fn analyze(rules: &Vec<Rule>, ceiling: usize) -> (r: Result<Vec<Cluster>, PartitionError>)
    requires
        ceiling < usize::MAX,
    ensures
        rules.len() == 0 <==> r == Err::<Vec<Cluster>, PartitionError>(PartitionError::EmptyProtocol),
        r matches Err(PartitionError::PartitionSpaceExceeded { ceiling: c, observed: o }) ==> c == ceiling
            && o == ceiling + 1 && exceeds(rules@, ceiling as nat),
        (r matches Err(PartitionError::PartitionSpaceExceeded { .. })) <==> (rules.len() > 0 && !fits_ceiling(
            rules@,
            ceiling as nat,
        )),
        (r matches Err(PartitionError::PartitionIncomplete { .. })) || (r matches Err(
            PartitionError::PartitionAmbiguous { .. },
        )) ==> result_incomplete(rules@, ceiling as nat),
        r matches Ok(cs) ==> {
            &&& pipeline_result(rules@, ceiling as nat, cluster_views(cs@))
            &&& partition_complete(cs@)
            &&& forall|o: int|
                0 <= o < cs.len() ==> (#[trigger] cs[o]).members@.len() == rules.len() && mutex_free(
                    rules@,
                    cs[o].members@,
                ) && is_merge_of(cs[o].guard@, rules@, cs[o].members@)
        },
{
    if rules.len() == 0 {
        return Err(PartitionError::EmptyProtocol);
    }
    let cands = match enumerate_subsets(rules, ceiling) {
        Ok(c) => c,
        Err(e) => {
            proof {
                lemma_exceeds_not_fits(rules@, ceiling as nat);
            }
            return Err(e);
        },
    };
    assert(fits_ceiling(rules@, ceiling as nat)) by {
        assert(is_enumeration(rules@, flag_views(cands@)) && flag_views(cands@).len() <= ceiling);
    }
    proof {
        assert forall|i: int| 0 <= i < cands.len() implies (#[trigger] cands[i]).len() == rules.len() by {
            assert(crate::subsets::flag_views(cands@)[i] == cands[i]@);
        }
    }
    let built = build_clusters(rules, &cands);
    let kept = eliminate_redundant(built);
    let ghost kept_v = kept@;
    proof {
        assert forall|j: int| 0 <= j < kept.len() implies (#[trigger] kept[j]).members.len() == rules.len() by {
            lemma_filter_member(built@, kept_v, j);
        }
    }
    let cs = synthesize_all(rules, &kept);
    proof {
        let e = flag_views(cands@);
        assert(cluster_views(kept_v).len() == kept_v.len());
        assert(pipeline_result(rules@, ceiling as nat, cluster_views(cs@)));
    }
    match check_completeness(&cs) {
        Ok(()) => {},
        Err(e) => {
            assert(result_incomplete(rules@, ceiling as nat));
            return Err(e);
        },
    }
    proof {
        let e = flag_views(cands@);
        assert(cluster_views(kept_v).len() == kept_v.len());
        assert(is_enumeration(rules@, e) && e.len() <= ceiling);
    }
    proof {
        assert forall|o: int| 0 <= o < cs.len() implies (#[trigger] cs[o]).members@.len() == rules.len()
            && mutex_free(rules@, cs[o].members@) && is_merge_of(cs[o].guard@, rules@, cs[o].members@) by {
            let i = choose|i: int| derived_from(rules@, kept_v, i, cs[o]);
            reveal(derived_from);
            lemma_filter_member(built@, kept_v, i);
        }
    }
    Ok(cs)
}

/// An element of a filtered sequence is an element of the sequence filtered.
proof fn lemma_filter_member(all: Seq<Cluster>, kept: Seq<Cluster>, j: int)
    requires
        kept == all.filter(|c: Cluster| !crate::cluster::dominated_by(all, c)),
        0 <= j < kept.len(),
    ensures
        exists|i: int| 0 <= i < all.len() && all[i] == kept[j],
{
    let pred = |c: Cluster| !crate::cluster::dominated_by(all, c);
    assert(kept.contains(kept[j]));
    all.lemma_filter_contains_rev(pred, kept[j]);
    assert(all.contains(kept[j]));
}

} // verus!
