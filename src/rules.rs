//! The rule store and the mutex analysis over it.
use vstd::prelude::*;

use crate::pred::{conflicts, Pred};

verus! {

/// A guarded transition: it may fire on `port` when `guard` holds, and leaves the
/// cells of `assign` with the given values.
pub struct Rule {
    pub guard: Pred,
    pub port: usize,
    pub assign: Pred,
}

impl Rule {
    pub fn new(guard: Pred, port: usize, assign: Pred) -> (r: Rule)
        ensures
            r.guard@ == guard@,
            r.port == port,
            r.assign@ == assign@,
    {
        Rule { guard, port, assign }
    }
}

impl Clone for Rule {
    fn clone(&self) -> (r: Rule)
        ensures
            r.guard@ == self.guard@,
            r.port == self.port,
            r.assign@ == self.assign@,
    {
        Rule { guard: self.guard.clone(), port: self.port, assign: self.assign.clone() }
    }
}

/// Why an analysis run stopped without a partition.
#[derive(Debug, PartialEq, Eq)]
pub enum PartitionError {
    /// No rule was supplied.
    EmptyProtocol,
    /// More candidate subsets were realized than the ceiling allows.
    PartitionSpaceExceeded { ceiling: usize, observed: usize },
    /// A state is matched by no cluster.
    PartitionIncomplete { state: Vec<bool> },
    /// A state is matched by several clusters (their positions are listed).
    PartitionAmbiguous { state: Vec<bool>, clusters: Vec<usize> },
}

/// Rules `a` and `b` are distinct rules of the store whose guards conflict.
pub open spec fn mutex(rules: Seq<Rule>, a: int, b: int) -> bool {
    &&& 0 <= a < rules.len()
    &&& 0 <= b < rules.len()
    &&& a != b
    &&& conflicts(rules[a].guard@, rules[b].guard@)
}

/// Pairs ordered by their first, then their second index.
pub open spec fn pair_lt(p: (usize, usize), q: (usize, usize)) -> bool {
    p.0 < q.0 || (p.0 == q.0 && p.1 < q.1)
}

/// `pairs` holds exactly the mutex pairs of `rules`, each as `(a, b)` with `a < b`,
/// in increasing order.
pub open spec fn lists_mutex_pairs(rules: Seq<Rule>, pairs: Seq<(usize, usize)>) -> bool {
    &&& forall|i: int|
        0 <= i < pairs.len() ==> (#[trigger] pairs[i]).0 < pairs[i].1 && mutex(
            rules,
            pairs[i].0 as int,
            pairs[i].1 as int,
        )
    &&& forall|a: int, b: int|
        0 <= a < b && #[trigger] mutex(rules, a, b) ==> exists|i: int|
            0 <= i < pairs.len() && pairs[i] == (a as usize, b as usize)
    &&& forall|i: int, j: int| 0 <= i < j < pairs.len() ==> pair_lt(pairs[i], pairs[j])
}

/// Every unordered pair of mutually exclusive rules, as `(a, b)` with `a < b`, in
/// increasing order.
pub fn mutex_pairs(rules: &Vec<Rule>) -> (r: Result<Vec<(usize, usize)>, PartitionError>)
    ensures
        rules.len() == 0 <==> r is Err,
        r is Err ==> r == Err::<Vec<(usize, usize)>, PartitionError>(PartitionError::EmptyProtocol),
        r matches Ok(pairs) ==> lists_mutex_pairs(rules@, pairs@),
{
    if rules.len() == 0 {
        return Err(PartitionError::EmptyProtocol);
    }
    let n = rules.len();
    let mut pairs: Vec<(usize, usize)> = Vec::new();
    let mut a: usize = 0;
    while a < n
        invariant
            n == rules.len(),
            0 <= a <= n,
            forall|i: int|
                0 <= i < pairs.len() ==> (#[trigger] pairs[i]).0 < pairs[i].1 && pairs[i].0 < a
                    && mutex(rules@, pairs[i].0 as int, pairs[i].1 as int),
            forall|x: int, y: int|
                0 <= x < y && x < a && #[trigger] mutex(rules@, x, y) ==> exists|i: int|
                    0 <= i < pairs.len() && pairs[i] == (x as usize, y as usize),
            forall|i: int, j: int| 0 <= i < j < pairs.len() ==> pair_lt(pairs[i], pairs[j]),
        decreases n - a,
    {
        let mut b: usize = a + 1;
        while b < n
            invariant
                n == rules.len(),
                0 <= a < n,
                a + 1 <= b <= n,
                forall|i: int|
                    0 <= i < pairs.len() ==> (#[trigger] pairs[i]).0 < pairs[i].1 && (pairs[i].0
                        < a || (pairs[i].0 == a && pairs[i].1 < b)) && mutex(
                        rules@,
                        pairs[i].0 as int,
                        pairs[i].1 as int,
                    ),
                forall|x: int, y: int|
                    0 <= x < y && (x < a || (x == a && y < b)) && #[trigger] mutex(rules@, x, y)
                        ==> exists|i: int| 0 <= i < pairs.len() && pairs[i] == (x as usize, y as usize),
                forall|i: int, j: int| 0 <= i < j < pairs.len() ==> pair_lt(pairs[i], pairs[j]),
            decreases n - b,
        {
            if rules[a].guard.conflicts_with(&rules[b].guard) {
                let ghost p0 = pairs@;
                pairs.push((a, b));
                assert(forall|i: int| 0 <= i < p0.len() ==> pairs@[i] == p0[i]);
                assert(pairs[pairs.len() - 1] == (a, b));
            }
            b = b + 1;
        }
        a = a + 1;
    }
    assert forall|x: int, y: int| 0 <= x < y && #[trigger] mutex(rules@, x, y) implies exists|i: int|
        0 <= i < pairs.len() && pairs[i] == (x as usize, y as usize) by {
        assert(x < a);
    }
    assert(lists_mutex_pairs(rules@, pairs@));
    Ok(pairs)
}

} // verus!
