//! Properties that relate the analysis stages, stated over their contracts.
use vstd::prelude::*;

use crate::cluster::{dominated_by, is_merge_of, strict_subset, Cluster};
use crate::pipeline::pipeline_result;
use crate::pred::{conflicts, entails};
use crate::rules::{lists_mutex_pairs, mutex, Rule};
use crate::subsets::{cand_lt, flip, is_enumeration, lemma_lex_irrefl, lemma_lex_trans, mutex_free};

verus! {

/// A pair of distinct rules is reported as mutex exactly when their guards conflict.
pub proof fn lemma_mutex_report_exact(rules: Seq<Rule>, pairs: Seq<(usize, usize)>, a: int, b: int)
    requires
        lists_mutex_pairs(rules, pairs),
        rules.len() <= usize::MAX,
        0 <= a < b < rules.len(),
    ensures
        (exists|i: int| 0 <= i < pairs.len() && pairs[i].0 == a && pairs[i].1 == b) <==> conflicts(
            rules[a].guard@,
            rules[b].guard@,
        ),
{
    if exists|i: int| 0 <= i < pairs.len() && pairs[i].0 == a && pairs[i].1 == b {
        let i = choose|i: int| 0 <= i < pairs.len() && pairs[i].0 == a && pairs[i].1 == b;
        assert(mutex(rules, pairs[i].0 as int, pairs[i].1 as int));
    }
    if conflicts(rules[a].guard@, rules[b].guard@) {
        assert(mutex(rules, a, b));
        let i = choose|i: int| 0 <= i < pairs.len() && pairs[i] == (a as usize, b as usize);
        assert(pairs[i].0 == a && pairs[i].1 == b);
    }
}

/// Rules whose guards merge into one predicate hold no mutex pair: no cluster
/// contains two mutually exclusive rules.
pub proof fn lemma_merged_members_mutex_free(rules: Seq<Rule>, m: Seq<bool>, g: Map<int, bool>)
    requires
        m.len() == rules.len(),
        is_merge_of(g, rules, m),
    ensures
        mutex_free(rules, m),
{
    assert forall|a: int, b: int|
        0 <= a < m.len() && 0 <= b < m.len() && m[a] && m[b] implies !#[trigger] mutex(rules, a, b) by {
        if mutex(rules, a, b) {
            let k = choose|k: int| #[trigger] rules[a].guard@.contains_key(k) && rules[b].guard@.contains_key(k)
                && rules[a].guard@[k] != rules[b].guard@[k];
            assert(g[k] == rules[a].guard@[k]);
            assert(g[k] == rules[b].guard@[k]);
        }
    }
}

/// After redundancy elimination no surviving cluster has strictly fewer members
/// than another cluster with the same guard, and every cluster that no such
/// cluster dominates survives.
pub proof fn lemma_redundancy_survivors(clusters: Seq<Cluster>, out: Seq<Cluster>)
    requires
        out == clusters.filter(|c: Cluster| !dominated_by(clusters, c)),
    ensures
        forall|o: int, j: int|
            0 <= o < out.len() && 0 <= j < clusters.len() && clusters[j].guard@ == out[o].guard@
                ==> !strict_subset(#[trigger] out[o].members@, #[trigger] clusters[j].members@),
        forall|i: int|
            0 <= i < clusters.len() && !dominated_by(clusters, #[trigger] clusters[i]) ==> out.contains(
                clusters[i],
            ),
{
    let pred = |c: Cluster| !dominated_by(clusters, c);
    assert forall|o: int, j: int|
        0 <= o < out.len() && 0 <= j < clusters.len() && clusters[j].guard@ == out[o].guard@
            implies !strict_subset(#[trigger] out[o].members@, #[trigger] clusters[j].members@) by {
        clusters.lemma_filter_pred(pred, o);
    }
    assert forall|i: int|
        0 <= i < clusters.len() && !dominated_by(clusters, #[trigger] clusters[i]) implies out.contains(
            clusters[i],
        ) by {
        clusters.lemma_filter_contains(pred, i);
    }
}

/// Implication between predicates is transitive.
pub proof fn lemma_entails_transitive(p: Map<int, bool>, q: Map<int, bool>, r: Map<int, bool>)
    requires
        entails(p, q),
        entails(q, r),
    ensures
        entails(p, r),
{
    assert forall|k: int| #[trigger] r.contains_key(k) implies p.contains_key(k) && p[k] == r[k] by {
        assert(q.contains_key(k));
        if q[k] != r[k] {
            assert(conflicts(q, r));
        }
        if p[k] != q[k] {
            assert(conflicts(p, q));
        }
    }
    if conflicts(p, r) {
        let k = choose|k: int| #[trigger] p.contains_key(k) && r.contains_key(k) && p[k] != r[k];
        assert(p[k] == r[k]);
    }
}

proof fn lemma_cand_lt_trans(a: Seq<bool>, b: Seq<bool>, c: Seq<bool>)
    requires
        cand_lt(a, b),
        cand_lt(b, c),
    ensures
        cand_lt(a, c),
{
    lemma_lex_trans(flip(a), flip(b), flip(c));
}

/// The candidate enumeration is determined by the rules: two lists that each hold
/// every mutex-free subset once, in counter order, are the same list. A rerun of
/// the enumeration therefore yields the same candidates.
pub proof fn lemma_enumeration_unique(rules: Seq<Rule>, a: Seq<Seq<bool>>, b: Seq<Seq<bool>>)
    requires
        is_enumeration(rules, a),
        is_enumeration(rules, b),
    ensures
        a == b,
{
    lemma_enumeration_prefix(rules, a, b, 0);
}

proof fn lemma_enumeration_prefix(rules: Seq<Rule>, a: Seq<Seq<bool>>, b: Seq<Seq<bool>>, i: int)
    requires
        is_enumeration(rules, a),
        is_enumeration(rules, b),
        0 <= i,
        i <= a.len(),
        i <= b.len(),
        forall|j: int| 0 <= j < i ==> a[j] == b[j],
    ensures
        a == b,
    decreases a.len() + b.len() - 2 * i,
{
    if i == a.len() && i == b.len() {
        assert(a =~= b);
    } else if i == a.len() {
        let y = b[i];
        assert(mutex_free(rules, y));
        let j = choose|j: int| 0 <= j < a.len() && a[j] == y;
        assert(cand_lt(b[j], b[i]));
        lemma_lex_irrefl(flip(y));
    } else if i == b.len() {
        let x = a[i];
        assert(mutex_free(rules, x));
        let j = choose|j: int| 0 <= j < b.len() && b[j] == x;
        assert(cand_lt(a[j], a[i]));
        lemma_lex_irrefl(flip(x));
    } else if a[i] == b[i] {
        lemma_enumeration_prefix(rules, a, b, i + 1);
    } else {
        let x = a[i];
        let y = b[i];
        assert(mutex_free(rules, x));
        assert(mutex_free(rules, y));
        let jb = choose|j: int| 0 <= j < b.len() && b[j] == x;
        let ja = choose|j: int| 0 <= j < a.len() && a[j] == y;
        if jb < i {
            assert(cand_lt(a[jb], a[i]));
            lemma_lex_irrefl(flip(x));
        } else if ja < i {
            assert(cand_lt(b[ja], b[i]));
            lemma_lex_irrefl(flip(y));
        } else {
            assert(jb > i && ja > i);
            assert(cand_lt(y, x));
            assert(cand_lt(x, y));
            lemma_cand_lt_trans(x, y, x);
            lemma_lex_irrefl(flip(x));
        }
    }
}

/// Rerunning the analysis on the same rules and ceiling yields the same clusters:
/// two successful runs produce equal cluster views (members, guards and exclusion
/// entries, in the same order).
pub proof fn lemma_rerun_identical(
    rules: Seq<Rule>,
    ceiling: nat,
    v1: Seq<(Seq<bool>, Map<int, bool>, Seq<(Map<int, bool>, Seq<usize>, bool)>)>,
    v2: Seq<(Seq<bool>, Map<int, bool>, Seq<(Map<int, bool>, Seq<usize>, bool)>)>,
)
    requires
        pipeline_result(rules, ceiling, v1),
        pipeline_result(rules, ceiling, v2),
    ensures
        v1 == v2,
{
    let e1 = choose|e: Seq<Seq<bool>>|
        is_enumeration(rules, e) && e.len() <= ceiling && v1 == crate::pipeline::synthesized(
            rules,
            crate::cluster::eliminated(crate::cluster::built(rules, e)),
            crate::cluster::eliminated(crate::cluster::built(rules, e)).len() as int,
        );
    let e2 = choose|e: Seq<Seq<bool>>|
        is_enumeration(rules, e) && e.len() <= ceiling && v2 == crate::pipeline::synthesized(
            rules,
            crate::cluster::eliminated(crate::cluster::built(rules, e)),
            crate::cluster::eliminated(crate::cluster::built(rules, e)).len() as int,
        );
    lemma_enumeration_unique(rules, e1, e2);
}

} // verus!
