use guard_partition::cluster::{build_cluster, build_clusters, eliminate_redundant, Cluster, Exclusion};
use guard_partition::coverage::{check_completeness, matching_clusters};
use guard_partition::exclusion::synthesize_exclusions;
use guard_partition::fusion::{fuse, Fusion};
use guard_partition::pipeline::{analyze, synthesize_all};
use guard_partition::pred::Pred;
use guard_partition::rules::{mutex_pairs, PartitionError, Rule};
use guard_partition::subsets::enumerate_subsets;

fn pred(entries: &[(usize, bool)]) -> Pred {
    Pred::from_entries(&entries.to_vec()).expect("consistent entries")
}

fn rule(guard: &[(usize, bool)], port: usize) -> Rule {
    Rule::new(pred(guard), port, Pred::new())
}

fn members_of(c: &Cluster) -> Vec<usize> {
    c.member_indices()
}

fn all_states(width: usize) -> Vec<Vec<bool>> {
    let mut out = Vec::new();
    for bits in 0..(1u32 << width) {
        out.push((0..width).map(|i| (bits >> i) & 1 == 1).collect());
    }
    out
}

#[test]
fn pred_insert_is_conjunctive() {
    let mut p = Pred::new();
    assert!(p.insert(3, true));
    assert!(p.insert(3, true));
    assert!(!p.insert(3, false));
    assert_eq!(p.get(3), Some(true));
    assert_eq!(p.get(2), None);
    assert_eq!(p.entries(), vec![(3, true)]);
}

#[test]
fn pred_from_entries_rejects_both_values() {
    assert!(Pred::from_entries(&vec![(1, true), (1, false)]).is_none());
    let p = Pred::from_entries(&vec![(2, false), (0, true), (2, false)]).unwrap();
    assert_eq!(p.entries(), vec![(0, true), (2, false)]);
}

#[test]
fn pred_conflict_and_implication() {
    let a = pred(&[(0, true), (1, false)]);
    let b = pred(&[(0, true)]);
    let c = pred(&[(1, true)]);
    assert!(!a.conflicts_with(&b));
    assert!(a.conflicts_with(&c));
    assert!(a.implies(&b));
    assert!(!b.implies(&a));
    assert!(!a.implies(&c));
    assert!(a.implies(&Pred::new()));
}

#[test]
fn pred_equality_ignores_construction() {
    let a = pred(&[(4, true), (0, false)]);
    let b = pred(&[(0, false), (4, true)]);
    let c = pred(&[(4, true)]).without(4);
    assert!(a == b);
    assert!(c == Pred::new());
    assert!(a != Pred::new());
}

#[test]
fn pred_matches_state() {
    let p = pred(&[(0, true), (2, false)]);
    assert!(p.matches_state(&vec![true, true, false]));
    assert!(!p.matches_state(&vec![true, true, true]));
    assert!(!p.matches_state(&vec![true]));
    assert!(Pred::new().matches_state(&vec![]));
}

#[test]
fn mutex_pairs_match_guard_conflicts() {
    let rules = vec![rule(&[(0, true)], 1), rule(&[(0, false)], 2), rule(&[(1, true)], 3), rule(&[(0, true), (1, false)], 4)];
    let pairs = mutex_pairs(&rules).unwrap();
    assert_eq!(pairs, vec![(0, 1), (1, 3), (2, 3)]);
    for a in 0..rules.len() {
        for b in (a + 1)..rules.len() {
            let conflict = rules[a].guard.conflicts_with(&rules[b].guard);
            assert_eq!(pairs.contains(&(a, b)), conflict);
        }
    }
}

#[test]
fn mutex_pairs_empty_protocol() {
    assert_eq!(mutex_pairs(&vec![]), Err(PartitionError::EmptyProtocol));
}

#[test]
fn analyze_empty_protocol() {
    assert!(matches!(analyze(&vec![], 100), Err(PartitionError::EmptyProtocol)));
}

#[test]
fn enumeration_skips_mutex_pairs_scenario_a() {
    let rules = vec![rule(&[(0, true)], 1), rule(&[(0, false)], 2)];
    let cands = enumerate_subsets(&rules, 100).unwrap();
    assert_eq!(cands, vec![vec![false, true], vec![true, false], vec![false, false]]);
    assert!(cands.iter().all(|m| !(m[0] && m[1])));
}

#[test]
fn enumeration_lists_every_mutex_free_subset() {
    let rules = vec![
        rule(&[(0, true)], 0),
        rule(&[(0, false)], 1),
        rule(&[(1, true)], 2),
        rule(&[(1, false), (0, true)], 3),
        rule(&[], 4),
    ];
    let n = rules.len();
    let cands = enumerate_subsets(&rules, 1000).unwrap();
    let mut expected = Vec::new();
    for bits in 0..(1u32 << n) {
        let m: Vec<bool> = (0..n).map(|i| (bits >> i) & 1 == 1).collect();
        let free = (0..n).all(|a| (0..n).all(|b| !(m[a] && m[b] && rules[a].guard.conflicts_with(&rules[b].guard))));
        if free {
            expected.push(m);
        }
    }
    assert_eq!(cands.len(), expected.len());
    for m in &expected {
        assert!(cands.contains(m));
    }
}

#[test]
fn enumeration_ceiling_exceeded() {
    let rules = vec![rule(&[(0, true)], 1), rule(&[(1, true)], 2)];
    assert_eq!(
        enumerate_subsets(&rules, 3),
        Err(PartitionError::PartitionSpaceExceeded { ceiling: 3, observed: 4 })
    );
    assert_eq!(enumerate_subsets(&rules, 4).unwrap().len(), 4);
    assert!(matches!(
        analyze(&rules, 1),
        Err(PartitionError::PartitionSpaceExceeded { ceiling: 1, observed: 2 })
    ));
}

#[test]
fn build_cluster_merges_or_rejects() {
    let rules = vec![rule(&[(0, true)], 1), rule(&[(1, false)], 2), rule(&[(0, false)], 3)];
    let g = build_cluster(&rules, &vec![true, true, false]).unwrap();
    assert!(g == pred(&[(0, true), (1, false)]));
    assert!(build_cluster(&rules, &vec![true, false, true]).is_none());
    assert!(build_cluster(&rules, &vec![false, false, false]).unwrap() == Pred::new());
}

#[test]
fn clusters_hold_no_mutex_pair() {
    let rules = vec![
        rule(&[(0, true)], 0),
        rule(&[(0, false)], 1),
        rule(&[(0, true), (1, true)], 2),
        rule(&[(1, false)], 3),
    ];
    let pairs = mutex_pairs(&rules).unwrap();
    let cands: Vec<Vec<bool>> = all_states(rules.len());
    let clusters = build_clusters(&rules, &cands);
    assert!(!clusters.is_empty());
    for c in &clusters {
        let m = members_of(c);
        for &(a, b) in &pairs {
            assert!(!(m.contains(&a) && m.contains(&b)));
        }
    }
}

#[test]
fn redundancy_drops_strict_subsets_with_equal_guard() {
    let rules = vec![rule(&[], 3), rule(&[(1, true)], 4), rule(&[(1, false)], 5)];
    let cands = vec![
        vec![true, true, false],
        vec![false, true, false],
        vec![true, false, false],
        vec![false, false, false],
        vec![true, false, true],
    ];
    let kept = eliminate_redundant(build_clusters(&rules, &cands));
    let sets: Vec<Vec<usize>> = kept.iter().map(members_of).collect();
    assert_eq!(sets, vec![vec![0, 1], vec![0], vec![0, 2]]);
}

#[test]
fn fusion_subsumption_is_symmetric() {
    let a = pred(&[(0, true)]);
    let b = pred(&[(0, true), (1, false)]);
    match (fuse(&a, &b, false), fuse(&b, &a, false)) {
        (Fusion::Subsumption(x), Fusion::Subsumption(y)) => {
            assert!(x == a);
            assert!(y == a);
        }
        _ => panic!("expected subsumption both ways"),
    }
}

#[test]
fn fusion_identical_is_symmetric() {
    let a = pred(&[(2, false)]);
    let b = pred(&[(2, false)]);
    match (fuse(&a, &b, true), fuse(&b, &a, true)) {
        (Fusion::Identical(x), Fusion::Identical(y)) => assert!(x == y && x == a),
        _ => panic!("expected identical both ways"),
    }
}

#[test]
fn fusion_partition_drops_the_discrepant_cell() {
    let a = pred(&[(0, true), (1, true)]);
    let b = pred(&[(0, true), (1, false)]);
    match (fuse(&a, &b, false), fuse(&b, &a, false)) {
        (Fusion::Partition(x, c1), Fusion::Partition(y, c2)) => {
            assert_eq!(c1, 1);
            assert_eq!(c2, 1);
            assert!(x == pred(&[(0, true)]));
            assert!(x == y);
        }
        _ => panic!("expected a partition merge both ways"),
    }
    assert!(matches!(fuse(&a, &b, true), Fusion::Incompatible));
}

#[test]
fn fusion_incompatible_cases() {
    let a = pred(&[(0, true), (1, true)]);
    let b = pred(&[(0, false), (1, false)]);
    assert!(matches!(fuse(&a, &b, false), Fusion::Incompatible));
    let c = pred(&[(0, true), (2, true)]);
    assert!(matches!(fuse(&a, &c, false), Fusion::Incompatible));
    let d = pred(&[(0, false)]);
    assert!(matches!(fuse(&a, &d, false), Fusion::Incompatible));
}

#[test]
fn implication_is_transitive_on_a_chain() {
    let p = pred(&[(0, true), (1, false), (2, true)]);
    let q = pred(&[(0, true), (1, false)]);
    let r = pred(&[(0, true)]);
    let s = Pred::new();
    assert!(p.implies(&q) && q.implies(&r) && r.implies(&s));
    assert!(p.implies(&r));
    assert!(p.implies(&s));
    assert!(q.implies(&s));
}

#[test]
fn scenario_a_two_mutex_rules() {
    let rules = vec![rule(&[(0, true)], 1), rule(&[(0, false)], 2)];
    assert_eq!(mutex_pairs(&rules).unwrap(), vec![(0, 1)]);
    let clusters = analyze(&rules, 100).unwrap();
    assert_eq!(clusters.len(), 2);
    let sets: Vec<Vec<usize>> = clusters.iter().map(members_of).collect();
    assert!(sets.contains(&vec![0]));
    assert!(sets.contains(&vec![1]));
    for c in &clusters {
        assert!(c.exclusions.is_empty());
    }
}

#[test]
fn scenario_b_wildcard_is_absorbed() {
    let rules = vec![rule(&[], 3), rule(&[(1, true)], 4), rule(&[(1, false)], 5)];
    let pairs = mutex_pairs(&rules).unwrap();
    assert_eq!(pairs, vec![(1, 2)]);
    let clusters = analyze(&rules, 100).unwrap();
    assert_eq!(clusters.len(), 2);
    let ports: Vec<Vec<usize>> =
        clusters.iter().map(|c| members_of(c).iter().map(|&i| rules[i].port).collect()).collect();
    let with_t = ports.iter().position(|p| *p == vec![3, 4]).expect("cluster {3,4}");
    let with_f = ports.iter().position(|p| *p == vec![3, 5]).expect("cluster {3,5}");
    assert!(clusters[with_t].guard == pred(&[(1, true)]));
    assert!(clusters[with_f].guard == pred(&[(1, false)]));
    assert!(!ports.contains(&vec![3]));
    for c in &clusters {
        for e in &c.exclusions {
            assert!(!e.pred.conflicts_with(&c.guard));
        }
    }
}

#[test]
fn scenario_c_cluster_shadowed_by_exclusion() {
    let rules = vec![rule(&[(0, true)], 7), rule(&[(0, true), (1, true)], 8)];
    let cluster = Cluster { members: vec![false, true], guard: pred(&[(0, true), (1, true)]), exclusions: Vec::new() };
    assert!(synthesize_exclusions(&rules, &vec![true, false], cluster).is_none());
    let clusters = analyze(&rules, 100).unwrap();
    for state in all_states(2) {
        if state[0] {
            assert_eq!(matching_clusters(&clusters, &state).len(), 1);
        }
    }
}

#[test]
fn synthesis_records_fused_exclusions() {
    let rules = vec![rule(&[], 0), rule(&[(0, true), (1, true)], 1), rule(&[(0, true), (1, false)], 2)];
    let cluster = Cluster { members: vec![true, false, false], guard: Pred::new(), exclusions: Vec::new() };
    let c = synthesize_exclusions(&rules, &vec![false, true, true], cluster).unwrap();
    assert_eq!(c.exclusions.len(), 1);
    assert!(c.exclusions[0].pred == pred(&[(0, true)]));
    assert_eq!(c.exclusions[0].rules, vec![1, 2]);
    assert!(c.exclusions[0].split);
}

#[test]
fn completeness_over_all_states() {
    let protocols = vec![
        vec![rule(&[(0, true)], 1), rule(&[(0, false)], 2)],
        vec![rule(&[], 3), rule(&[(1, true)], 4), rule(&[(1, false)], 5)],
        vec![rule(&[(0, true)], 1), rule(&[(0, true), (1, true)], 2)],
        vec![rule(&[], 0), rule(&[(0, true)], 1)],
        vec![rule(&[(0, true), (2, false)], 0), rule(&[(1, true)], 1), rule(&[(2, true)], 2), rule(&[(0, false)], 3)],
    ];
    for rules in &protocols {
        let clusters = analyze(rules, 200).unwrap();
        assert_eq!(check_completeness(&clusters), Ok(()));
        for state in all_states(3) {
            assert_eq!(matching_clusters(&clusters, &state).len(), 1);
        }
    }
}

#[test]
fn completeness_reports_gaps_and_overlaps() {
    let only_true = vec![Cluster { members: vec![true], guard: pred(&[(0, true)]), exclusions: Vec::new() }];
    assert_eq!(
        check_completeness(&only_true),
        Err(PartitionError::PartitionIncomplete { state: vec![false] })
    );
    let twice = vec![
        Cluster { members: vec![true], guard: Pred::new(), exclusions: Vec::new() },
        Cluster { members: vec![true], guard: Pred::new(), exclusions: Vec::new() },
    ];
    assert_eq!(
        check_completeness(&twice),
        Err(PartitionError::PartitionAmbiguous { state: vec![], clusters: vec![0, 1] })
    );
    let excluded = vec![
        Cluster {
            members: vec![true, false],
            guard: Pred::new(),
            exclusions: vec![Exclusion { pred: pred(&[(0, true)]), rules: vec![1], split: false }],
        },
        Cluster { members: vec![false, true], guard: pred(&[(0, true)]), exclusions: Vec::new() },
    ];
    assert_eq!(check_completeness(&excluded), Ok(()));
    assert_eq!(matching_clusters(&excluded, &vec![true]), vec![1]);
    assert_eq!(matching_clusters(&excluded, &vec![false]), vec![0]);
}

#[test]
fn rerun_gives_the_same_clusters() {
    let rules = vec![rule(&[], 3), rule(&[(1, true)], 4), rule(&[(1, false)], 5), rule(&[(0, true)], 6)];
    let first = analyze(&rules, 200).unwrap();
    let second = analyze(&rules, 200).unwrap();
    assert_eq!(first.len(), second.len());
    for c in &first {
        let twin = second.iter().find(|d| d.members == c.members).expect("same membership");
        assert!(twin.guard == c.guard);
        assert_eq!(twin.exclusions.len(), c.exclusions.len());
        for (x, y) in c.exclusions.iter().zip(twin.exclusions.iter()) {
            assert!(x.pred == y.pred);
            assert_eq!(x.rules, y.rules);
        }
    }
}

#[test]
fn synthesize_all_uses_each_clusters_universe() {
    let rules = vec![rule(&[], 3), rule(&[(1, true)], 4), rule(&[(1, false)], 5)];
    let kept = vec![
        Cluster { members: vec![true, true, false], guard: pred(&[(1, true)]), exclusions: Vec::new() },
        Cluster { members: vec![true, false, false], guard: Pred::new(), exclusions: Vec::new() },
        Cluster { members: vec![true, false, true], guard: pred(&[(1, false)]), exclusions: Vec::new() },
    ];
    let out = synthesize_all(&rules, &kept);
    let sets: Vec<Vec<usize>> = out.iter().map(members_of).collect();
    assert_eq!(sets, vec![vec![0, 1], vec![0, 2]]);
    assert!(out.iter().all(|c| c.exclusions.is_empty()));
}

#[test]
fn cluster_copy_and_member_listing() {
    let c = Cluster {
        members: vec![false, true, true, false],
        guard: pred(&[(2, true)]),
        exclusions: vec![Exclusion { pred: pred(&[(0, false)]), rules: vec![0], split: false }],
    };
    assert_eq!(c.member_indices(), vec![1, 2]);
    let d = c.base_copy();
    assert_eq!(d.members, c.members);
    assert!(d.guard == c.guard);
    assert!(d.exclusions.is_empty());
}
