//! Guard fusion: merging two exclusion predicates into one that matches exactly
//! the states either of them matches.
use vstd::prelude::*;

use crate::pred::{conflicts, satisfies, Pred};

verus! {

/// The part of `a` on which `b` agrees: the cells both constrain to the same value.
pub open spec fn common(a: Map<int, bool>, b: Map<int, bool>) -> Map<int, bool> {
    Map::new(|k: int| a.contains_key(k) && b.contains_key(k) && a[k] == b[k], |k: int| a[k])
}

/// Neither is identical to the other, they do not conflict, and one constrains a
/// subset of the other's cells.
pub open spec fn subsumption_case(a: Map<int, bool>, b: Map<int, bool>) -> bool {
    &&& a != b
    &&& !conflicts(a, b)
    &&& (a.dom().subset_of(b.dom()) || b.dom().subset_of(a.dom()))
}

/// `a` and `b` constrain the same cells and differ at `k` alone.
pub open spec fn one_discrepancy(a: Map<int, bool>, b: Map<int, bool>, k: int) -> bool {
    &&& a.dom() == b.dom()
    &&& a.contains_key(k)
    &&& a[k] != b[k]
    &&& forall|j: int| #[trigger] a.contains_key(j) && j != k ==> a[j] == b[j]
}

/// A partition merge applies: no discrepancy recorded yet, and a single one here.
pub open spec fn partition_case(a: Map<int, bool>, b: Map<int, bool>, split: bool) -> bool {
    !split && exists|k: int| one_discrepancy(a, b, k)
}

/// The outcome of fusing a predicate into an exclusion entry.
pub enum Fusion {
    /// The two are identical; the entry stays as it is.
    Identical(Pred),
    /// One subsumes the other; the more general one results.
    Subsumption(Pred),
    /// They split on one cell, which is dropped.
    Partition(Pred, usize),
    /// No fusion applies.
    Incompatible,
}

fn same_cells(a: &Pred, b: &Pred) -> (r: bool)
    ensures
        r == (a@.dom() == b@.dom()),
{
    let n = if a.width_exec() < b.width_exec() {
        b.width_exec()
    } else {
        a.width_exec()
    };
    proof {
        a.lemma_width();
        b.lemma_width();
    }
    let mut i: usize = 0;
    while i < n
        invariant
            i <= n,
            a.width() <= n,
            b.width() <= n,
            forall|k: int| #[trigger] a@.contains_key(k) ==> 0 <= k < a.width(),
            forall|k: int| #[trigger] b@.contains_key(k) ==> 0 <= k < b.width(),
            forall|k: int| 0 <= k < i ==> #[trigger] a@.contains_key(k) == b@.contains_key(k),
        decreases n - i,
    {
        if a.get(i).is_some() != b.get(i).is_some() {
            assert(a@.contains_key(i as int) != b@.contains_key(i as int));
            return false;
        }
        i = i + 1;
    }
    assert(a@.dom() =~= b@.dom());
    true
}

/// Fuses `g` into an entry predicate `e`; `split` tells whether the entry already
/// went through a partition merge.
pub fn fuse(e: &Pred, g: &Pred, split: bool) -> (r: Fusion)
    ensures
        r is Identical <==> e@ == g@,
        r is Subsumption <==> subsumption_case(e@, g@),
        r is Partition <==> e@ != g@ && !subsumption_case(e@, g@) && partition_case(e@, g@, split),
        r matches Fusion::Identical(p) ==> p@ == common(e@, g@),
        r matches Fusion::Subsumption(p) ==> p@ == common(e@, g@),
        r matches Fusion::Partition(p, cell) ==> p@ == common(e@, g@) && one_discrepancy(
            e@,
            g@,
            cell as int,
        ),
{
    if e == g {
        assert(common(e@, g@) =~= e@);
        return Fusion::Identical(e.clone());
    }
    if g.implies(e) {
        assert(common(e@, g@) =~= e@);
        return Fusion::Subsumption(e.clone());
    }
    if e.implies(g) {
        assert(common(e@, g@) =~= g@);
        return Fusion::Subsumption(g.clone());
    }
    assert(!subsumption_case(e@, g@));
    if split || !same_cells(e, g) {
        return Fusion::Incompatible;
    }
    proof {
        e.lemma_width();
    }
    let w = e.width_exec();
    let mut found: Option<usize> = None;
    let mut i: usize = 0;
    while i < w
        invariant
            i <= w,
            w == e.width(),
            e@.dom() == g@.dom(),
            forall|k: int| #[trigger] e@.contains_key(k) ==> 0 <= k < e.width(),
            found is None ==> forall|k: int| 0 <= k < i && #[trigger] e@.contains_key(k) ==> e@[k] == g@[k],
            found matches Some(c) ==> c < i && e@.contains_key(c as int) && e@[c as int] != g@[c as int]
                && forall|k: int| 0 <= k < i && #[trigger] e@.contains_key(k) && k != c ==> e@[k] == g@[k],
        decreases w - i,
    {
        match (e.get(i), g.get(i)) {
            (Some(x), Some(y)) => {
                if x != y {
                    if found.is_some() {
                        assert(!partition_case(e@, g@, split)) by {
                            if exists|k: int| one_discrepancy(e@, g@, k) {
                                let k = choose|k: int| one_discrepancy(e@, g@, k);
                                let c = found.unwrap();
                                assert(e@.contains_key(c as int) && e@.contains_key(i as int));
                            }
                        }
                        return Fusion::Incompatible;
                    }
                    found = Some(i);
                }
            },
            _ => {},
        }
        i = i + 1;
    }
    match found {
        None => {
            assert(e@ =~= g@);
            Fusion::Incompatible
        },
        Some(c) => {
            assert(one_discrepancy(e@, g@, c as int));
            let p = e.without(c);
            assert(p@ =~= common(e@, g@));
            Fusion::Partition(p, c)
        },
    }
}

/// In every fusing case the result matches exactly the states that match either
/// input (for states that give a value to every cell of both).
pub proof fn lemma_fusion_union(a: Map<int, bool>, b: Map<int, bool>, split: bool, s: Seq<bool>)
    requires
        a == b || subsumption_case(a, b) || partition_case(a, b, split),
        forall|k: int| #[trigger] a.contains_key(k) ==> 0 <= k < s.len(),
        forall|k: int| #[trigger] b.contains_key(k) ==> 0 <= k < s.len(),
    ensures
        satisfies(common(a, b), s) <==> (satisfies(a, s) || satisfies(b, s)),
{
    let c = common(a, b);
    if a == b {
        assert(c =~= a);
    } else if subsumption_case(a, b) {
        if a.dom().subset_of(b.dom()) {
            assert(c =~= a);
            if satisfies(b, s) {
                assert forall|k: int| #[trigger] a.contains_key(k) implies 0 <= k < s.len() && s[k] == a[k] by {
                    assert(b.contains_key(k));
                    if a[k] != b[k] {
                        assert(conflicts(a, b));
                    }
                }
            }
        } else {
            assert(c =~= b);
            if satisfies(a, s) {
                assert forall|k: int| #[trigger] b.contains_key(k) implies 0 <= k < s.len() && s[k] == b[k] by {
                    assert(a.contains_key(k));
                    if a[k] != b[k] {
                        assert(conflicts(a, b));
                    }
                }
            }
        }
    } else {
        let k0 = choose|k: int| one_discrepancy(a, b, k);
        assert(c =~= a.remove(k0));
        if satisfies(c, s) {
            if s[k0] == a[k0] {
                assert forall|k: int| #[trigger] a.contains_key(k) implies 0 <= k < s.len() && s[k] == a[k] by {
                    if k != k0 {
                        assert(c.contains_key(k));
                    }
                }
            } else {
                assert forall|k: int| #[trigger] b.contains_key(k) implies 0 <= k < s.len() && s[k] == b[k] by {
                    assert(a.contains_key(k));
                    if k != k0 {
                        assert(c.contains_key(k));
                    }
                }
            }
        }
    }
}

/// Fusion does not depend on which predicate is the entry: each case holds of
/// `(a, b)` exactly when it holds of `(b, a)`, and the result is the same.
pub proof fn lemma_fusion_symmetric(a: Map<int, bool>, b: Map<int, bool>, split: bool)
    ensures
        (a == b) == (b == a),
        subsumption_case(a, b) == subsumption_case(b, a),
        partition_case(a, b, split) == partition_case(b, a, split),
        common(a, b) == common(b, a),
{
    assert(common(a, b) =~= common(b, a));
    if conflicts(a, b) {
        let k = choose|k: int| #[trigger] a.contains_key(k) && b.contains_key(k) && a[k] != b[k];
        assert(b.contains_key(k) && a.contains_key(k) && b[k] != a[k]);
    }
    if conflicts(b, a) {
        let k = choose|k: int| #[trigger] b.contains_key(k) && a.contains_key(k) && b[k] != a[k];
        assert(a.contains_key(k) && b.contains_key(k) && a[k] != b[k]);
    }
    if partition_case(a, b, split) {
        let k = choose|k: int| one_discrepancy(a, b, k);
        assert(one_discrepancy(b, a, k));
    }
    if partition_case(b, a, split) {
        let k = choose|k: int| one_discrepancy(b, a, k);
        assert(one_discrepancy(a, b, k));
    }
}

} // verus!
