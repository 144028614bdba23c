//! Which ordered pairs of places are taken.

use vstd::prelude::*;

verus! {

/// A set of ordered pairs of places, the first of each below a given size.
/// It holds, for each place, the places that are paired with it.
pub(crate) struct Occupancy {
    rows: Vec<Vec<usize>>,
}

impl Occupancy {
    /// The number of places.
    pub(crate) closed spec fn size(&self) -> nat {
        self.rows@.len()
    }

    /// The pair of `a` and `b` is in the set.
    pub(crate) closed spec fn holds(&self, a: int, b: int) -> bool {
        &&& 0 <= a < self.rows@.len()
        &&& exists|i: int| 0 <= i < self.rows@[a]@.len() && #[trigger] self.rows@[a]@[i] == b
    }

    /// The empty set of pairs of places below `size`.
    pub(crate) fn new(size: usize) -> (occupancy: Occupancy)
        ensures
            occupancy.size() == size,
            forall|a: int, b: int| !#[trigger] occupancy.holds(a, b),
    {
        let mut rows: Vec<Vec<usize>> = Vec::new();
        let mut i: usize = 0;
        while i < size
            invariant
                i <= size,
                rows@.len() == i,
                forall|a: int| 0 <= a < i ==> (#[trigger] rows@[a])@.len() == 0,
            decreases size - i,
        {
            rows.push(Vec::new());
            i += 1;
        }
        Occupancy { rows }
    }

    /// Makes room for one more place. The set stays as it is.
    pub(crate) fn add_place(&mut self)
        ensures
            final(self).size() == old(self).size() + 1,
            forall|a: int, b: int| #[trigger] final(self).holds(a, b) <==> old(self).holds(a, b),
    {
        let ghost before = self.rows@;
        self.rows.push(Vec::new());
        proof {
            let after = self.rows@;
            assert forall|a: int, b: int| #[trigger] self.holds(a, b) <==> old(self).holds(a, b) by {
                if 0 <= a < before.len() {
                    assert(after[a] == before[a]);
                }
            }
        }
    }

    /// Whether the pair of `a` and `b` is in the set.
    pub(crate) fn contains(&self, a: usize, b: usize) -> (found: bool)
        requires
            a < self.size(),
        ensures
            found == self.holds(a as int, b as int),
    {
        let row = &self.rows[a];
        let mut i: usize = 0;
        while i < row.len()
            invariant
                i <= row.len(),
                a < self.rows@.len(),
                row@ == self.rows@[a as int]@,
                forall|j: int| 0 <= j < i ==> #[trigger] row@[j] != b,
            decreases row.len() - i,
        {
            if row[i] == b {
                assert(self.rows@[a as int]@[i as int] == b);
                return true;
            }
            i += 1;
        }
        false
    }

    /// Puts the pair of `a` and `b` into the set.
    pub(crate) fn mark(&mut self, a: usize, b: usize)
        requires
            a < old(self).size(),
        ensures
            final(self).size() == old(self).size(),
            forall|x: int, y: int|
                #[trigger] final(self).holds(x, y) <==> old(self).holds(x, y) || (x == a && y == b),
    {
        let ghost before = self.rows@;
        self.rows[a].push(b);
        proof {
            let after = self.rows@;
            assert(after[a as int]@ == before[a as int]@.push(b));
            assert forall|x: int, y: int| #[trigger]
                self.holds(x, y) <==> old(self).holds(x, y) || (x == a && y == b) by {
                if 0 <= x < before.len() {
                    if x == a {
                        if old(self).holds(x, y) {
                            let i: int = choose|i: int|
                                0 <= i < before[x]@.len() && #[trigger] before[x]@[i] == y;
                            assert(after[x]@[i] == y);
                        }
                        if y == b {
                            assert(after[x]@[after[x]@.len() - 1] == b);
                        }
                        if self.holds(x, y) {
                            let i: int = choose|i: int|
                                0 <= i < after[x]@.len() && #[trigger] after[x]@[i] == y;
                            if i < before[x]@.len() {
                                assert(before[x]@[i] == y);
                            }
                        }
                    } else {
                        assert(after[x] == before[x]);
                    }
                }
            }
        }
    }
}

} // verus!
