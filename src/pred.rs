//! Partial boolean assignments over memory cells.
use vstd::prelude::*;

verus! {

/// Two predicates conflict when they share a cell with differing values.
pub open spec fn conflicts(a: Map<int, bool>, b: Map<int, bool>) -> bool {
    exists|k: int| #[trigger] a.contains_key(k) && b.contains_key(k) && a[k] != b[k]
}

/// `a` implies `b` when they do not conflict and every cell of `b` is constrained by `a`.
pub open spec fn entails(a: Map<int, bool>, b: Map<int, bool>) -> bool {
    !conflicts(a, b) && b.dom().subset_of(a.dom())
}

/// A total state (one value per cell index) satisfies a predicate.
pub open spec fn satisfies(p: Map<int, bool>, state: Seq<bool>) -> bool {
    forall|k: int| #[trigger] p.contains_key(k) ==> 0 <= k < state.len() && state[k] == p[k]
}

/// The mapping described by a dense cell table.
pub open spec fn cells_map(s: Seq<Option<bool>>) -> Map<int, bool> {
    Map::new(|k: int| 0 <= k < s.len() && s[k] is Some, |k: int| s[k]->Some_0)
}

/// A partial assignment from memory-cell ids to booleans; an absent cell is "don't care".
pub struct Pred {
    cells: Vec<Option<bool>>,
}

impl View for Pred {
    type V = Map<int, bool>;

    closed spec fn view(&self) -> Map<int, bool> {
        cells_map(self.cells@)
    }
}

impl Clone for Pred {
    fn clone(&self) -> (r: Pred)
        ensures
            r@ == self@,
    {
        Pred { cells: self.cells.clone() }
    }
}

impl Pred {
    /// One past the largest cell index this predicate can hold.
    pub closed spec fn width(&self) -> nat {
        self.cells@.len()
    }

    pub proof fn lemma_width(&self)
        ensures
            forall|k: int| #[trigger] self@.contains_key(k) ==> 0 <= k < self.width(),
    {
    }

    /// The universal predicate, with no constrained cell.
    pub fn new() -> (r: Pred)
        ensures
            r@ == Map::<int, bool>::empty(),
    {
        let r = Pred { cells: Vec::new() };
        assert(r@ =~= Map::<int, bool>::empty());
        r
    }

    /// The value required of `cell`, if any.
    pub fn get(&self, cell: usize) -> (r: Option<bool>)
        ensures
            r == (if self@.contains_key(cell as int) {
                Some(self@[cell as int])
            } else {
                None
            }),
    {
        if cell < self.cells.len() {
            self.cells[cell]
        } else {
            None
        }
    }

    /// Number of cells this predicate can hold without growing.
    pub fn width_exec(&self) -> (r: usize)
        ensures
            r == self.width(),
    {
        self.cells.len()
    }

    /// Conjunctive insertion: fails, leaving the predicate unchanged, when `cell`
    /// already holds the other value.
    pub fn insert(&mut self, cell: usize, val: bool) -> (ok: bool)
        requires
            cell < usize::MAX,
        ensures
            ok == !(old(self)@.contains_key(cell as int) && old(self)@[cell as int] != val),
            ok ==> final(self)@ == old(self)@.insert(cell as int, val),
            !ok ==> final(self)@ == old(self)@,
    {
        if cell < self.cells.len() {
            match self.cells[cell] {
                Some(v) => {
                    if v != val {
                        return false;
                    }
                },
                None => {},
            }
        } else {
            while self.cells.len() <= cell
                invariant
                    cells_map(self.cells@) == old(self)@,
                    old(self).cells@.len() <= self.cells@.len(),
                    cell < usize::MAX,
                decreases cell + 1 - self.cells.len(),
            {
                let ghost before = self.cells@;
                self.cells.push(None);
                assert(cells_map(self.cells@) =~= cells_map(before));
            }
        }
        let ghost before = self.cells@;
        self.cells.set(cell, Some(val));
        assert(cells_map(self.cells@) =~= cells_map(before).insert(cell as int, val));
        true
    }

    /// The same predicate without any constraint on `cell`.
    pub fn without(&self, cell: usize) -> (r: Pred)
        ensures
            r@ == self@.remove(cell as int),
    {
        let mut cells = self.cells.clone();
        if cell < cells.len() {
            cells.set(cell, None);
        }
        let r = Pred { cells };
        assert(r@ =~= self@.remove(cell as int));
        r
    }

    /// Builds a predicate from `(cell, value)` pairs; `None` when a cell is given
    /// both values.
    pub fn from_entries(entries: &Vec<(usize, bool)>) -> (r: Option<Pred>)
        requires
            forall|i: int| 0 <= i < entries.len() ==> #[trigger] entries[i].0 < usize::MAX,
        ensures
            r is Some <==> entries_consistent(entries@),
            r matches Some(p) ==> p@ == entries_map(entries@),
    {
        let mut p = Pred::new();
        let mut i: usize = 0;
        while i < entries.len()
            invariant
                0 <= i <= entries.len(),
                entries_consistent(entries@.subrange(0, i as int)),
                p@ == entries_map(entries@.subrange(0, i as int)),
                forall|j: int| 0 <= j < entries.len() ==> #[trigger] entries[j].0 < usize::MAX,
            decreases entries.len() - i,
        {
            let (c, v) = entries[i];
            let ghost pre = entries@.subrange(0, i as int);
            let ghost nxt = entries@.subrange(0, i + 1);
            assert(nxt.drop_last() =~= pre);
            proof {
                lemma_entries_map_dom(pre);
            }
            let ghost p_old = p@;
            let ok = p.insert(c, v);
            if !ok {
                assert(!entries_consistent(entries@)) by {
                    let j = choose|j: int| 0 <= j < pre.len() && pre[j].0 == c && pre[j].1 != v;
                    assert(entries@[j] == pre[j]);
                    assert(entries@[i as int] == (c, v));
                }
                return None;
            }
            assert(entries_consistent(nxt)) by {
                assert forall|a: int, b: int|
                    0 <= a < nxt.len() && 0 <= b < nxt.len() && #[trigger] nxt[a].0
                        == #[trigger] nxt[b].0 implies nxt[a].1 == nxt[b].1 by {
                    if a < i && b < i {
                        assert(pre[a] == nxt[a] && pre[b] == nxt[b]);
                    } else if a < i {
                        assert(pre[a] == nxt[a]);
                        assert(entries_map(pre).contains_key(pre[a].0 as int));
                        assert(p_old.contains_key(c as int) && p_old[c as int] == pre[a].1);
                    } else if b < i {
                        assert(pre[b] == nxt[b]);
                        assert(entries_map(pre).contains_key(pre[b].0 as int));
                        assert(p_old.contains_key(c as int) && p_old[c as int] == pre[b].1);
                    }
                }
            }
            i = i + 1;
        }
        assert(entries@.subrange(0, entries.len() as int) =~= entries@);
        Some(p)
    }

    /// Whether the two predicates conflict.
    pub fn conflicts_with(&self, o: &Pred) -> (r: bool)
        ensures
            r == conflicts(self@, o@),
    {
        let n = if self.cells.len() < o.cells.len() {
            self.cells.len()
        } else {
            o.cells.len()
        };
        let mut i: usize = 0;
        while i < n
            invariant
                n <= self.cells.len(),
                n <= o.cells.len(),
                0 <= i <= n,
                forall|k: int|
                    0 <= k < i ==> !(#[trigger] self@.contains_key(k) && o@.contains_key(k)
                        && self@[k] != o@[k]),
            decreases n - i,
        {
            match (self.cells[i], o.cells[i]) {
                (Some(a), Some(b)) => {
                    if a != b {
                        assert(self@.contains_key(i as int));
                        return true;
                    }
                },
                _ => {},
            }
            i = i + 1;
        }
        false
    }

    /// Whether this predicate implies `o`.
    pub fn implies(&self, o: &Pred) -> (r: bool)
        ensures
            r == entails(self@, o@),
    {
        if self.conflicts_with(o) {
            return false;
        }
        let mut i: usize = 0;
        while i < o.cells.len()
            invariant
                0 <= i <= o.cells.len(),
                forall|k: int| 0 <= k < i ==> #[trigger] o@.contains_key(k) ==> self@.contains_key(k),
            decreases o.cells.len() - i,
        {
            if o.cells[i].is_some() && self.get(i).is_none() {
                assert(o@.contains_key(i as int));
                return false;
            }
            i = i + 1;
        }
        true
    }

    /// Whether the total state satisfies this predicate.
    pub fn matches_state(&self, state: &Vec<bool>) -> (r: bool)
        ensures
            r == satisfies(self@, state@),
    {
        let mut i: usize = 0;
        while i < self.cells.len()
            invariant
                0 <= i <= self.cells.len(),
                forall|k: int|
                    0 <= k < i ==> #[trigger] self@.contains_key(k) ==> k < state.len() && state@[k]
                        == self@[k],
            decreases self.cells.len() - i,
        {
            match self.cells[i] {
                Some(v) => {
                    if i >= state.len() || state[i] != v {
                        assert(self@.contains_key(i as int));
                        return false;
                    }
                },
                None => {},
            }
            i = i + 1;
        }
        true
    }

    /// The constrained cells with their values, by increasing cell id.
    pub fn entries(&self) -> (r: Vec<(usize, bool)>)
        ensures
            forall|i: int| 0 <= i < r.len() ==> self@.contains_key(#[trigger] r[i].0 as int)
                && self@[r[i].0 as int] == r[i].1,
            forall|k: int| #[trigger] self@.contains_key(k) ==> exists|i: int|
                0 <= i < r.len() && r[i].0 == k,
            forall|i: int, j: int| 0 <= i < j < r.len() ==> r[i].0 < r[j].0,
    {
        let mut r: Vec<(usize, bool)> = Vec::new();
        let mut i: usize = 0;
        while i < self.cells.len()
            invariant
                0 <= i <= self.cells.len(),
                forall|j: int| 0 <= j < r.len() ==> self@.contains_key(#[trigger] r[j].0 as int)
                    && self@[r[j].0 as int] == r[j].1 && r[j].0 < i,
                forall|k: int| 0 <= k < i && #[trigger] self@.contains_key(k) ==> exists|j: int|
                    0 <= j < r.len() && r[j].0 == k,
                forall|a: int, b: int| 0 <= a < b < r.len() ==> r[a].0 < r[b].0,
            decreases self.cells.len() - i,
        {
            match self.cells[i] {
                Some(v) => {
                    assert(self@.contains_key(i as int) && self@[i as int] == v);
                    let ghost r0 = r@;
                    r.push((i, v));
                    assert(forall|j: int| 0 <= j < r0.len() ==> r@[j] == r0[j]);
                    assert(r[r.len() - 1].0 == i);
                },
                None => {
                    assert(!self@.contains_key(i as int));
                },
            }
            i = i + 1;
        }
        r
    }
}

impl PartialEq for Pred {
    fn eq(&self, o: &Pred) -> (r: bool)
        ensures
            r == (self@ == o@),
    {
        let mut i: usize = 0;
        let n = if self.cells.len() < o.cells.len() {
            o.cells.len()
        } else {
            self.cells.len()
        };
        while i < n
            invariant
                0 <= i <= n,
                n >= self.cells.len(),
                n >= o.cells.len(),
                forall|k: int| 0 <= k < i ==> #[trigger] self@.contains_key(k) == o@.contains_key(k)
                    && (self@.contains_key(k) ==> self@[k] == o@[k]),
            decreases n - i,
        {
            if self.get(i) != o.get(i) {
                assert(self@ != o@) by {
                    if self@ == o@ {
                        assert(self@.contains_key(i as int) == o@.contains_key(i as int));
                    }
                }
                return false;
            }
            i = i + 1;
        }
        assert(self@ =~= o@);
        true
    }
}

impl vstd::std_specs::cmp::PartialEqSpecImpl for Pred {
    open spec fn obeys_eq_spec() -> bool {
        true
    }

    open spec fn eq_spec(&self, o: &Pred) -> bool {
        self@ == o@
    }
}

/// No cell is given two values by the pairs.
pub open spec fn entries_consistent(s: Seq<(usize, bool)>) -> bool {
    forall|a: int, b: int|
        0 <= a < s.len() && 0 <= b < s.len() && #[trigger] s[a].0 == #[trigger] s[b].0 ==> s[a].1
            == s[b].1
}

/// The mapping given by a list of pairs, the later pair winning.
pub open spec fn entries_map(s: Seq<(usize, bool)>) -> Map<int, bool>
    decreases s.len(),
{
    if s.len() == 0 {
        Map::empty()
    } else {
        entries_map(s.drop_last()).insert(s.last().0 as int, s.last().1)
    }
}

proof fn lemma_entries_map_dom(s: Seq<(usize, bool)>)
    requires
        entries_consistent(s),
    ensures
        forall|k: int| #[trigger] entries_map(s).contains_key(k) ==> exists|j: int|
            0 <= j < s.len() && s[j].0 == k && s[j].1 == entries_map(s)[k],
        forall|j: int|
            0 <= j < s.len() ==> #[trigger] entries_map(s).contains_key(s[j].0 as int)
                && entries_map(s)[s[j].0 as int] == s[j].1,
    decreases s.len(),
{
    if s.len() > 0 {
        let t = s.drop_last();
        assert(entries_consistent(t)) by {
            assert forall|a: int, b: int|
                0 <= a < t.len() && 0 <= b < t.len() && #[trigger] t[a].0 == #[trigger] t[b].0 implies t[a].1
                    == t[b].1 by {
                assert(t[a] == s[a] && t[b] == s[b]);
            }
        }
        lemma_entries_map_dom(t);
        assert forall|k: int| #[trigger] entries_map(s).contains_key(k) implies exists|j: int|
            0 <= j < s.len() && s[j].0 == k && s[j].1 == entries_map(s)[k] by {
            if k == s.last().0 as int {
                assert(s[s.len() - 1].0 == k);
            } else {
                assert(entries_map(t).contains_key(k));
                let j = choose|j: int| 0 <= j < t.len() && t[j].0 == k && t[j].1 == entries_map(t)[k];
                assert(s[j] == t[j]);
            }
        }
        assert forall|j: int| 0 <= j < s.len() implies #[trigger] entries_map(s).contains_key(
            s[j].0 as int) && entries_map(s)[s[j].0 as int] == s[j].1 by {
            assert(entries_map(s) == entries_map(t).insert(s.last().0 as int, s.last().1));
            if j < s.len() - 1 {
                assert(t[j] == s[j]);
                if s[j].0 == s.last().0 {
                    assert(s[j].1 == s[s.len() - 1].1);
                }
            }
        }
    }
}

} // verus!
