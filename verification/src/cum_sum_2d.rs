//! Two-dimensional prefix sums over a group: constant-time rectangle
//! queries by inclusion-exclusion.

use vstd::prelude::*;

use crate::algebra::{Group, Monoid, Zero};

verus! {

/// The prefix table: entry `(i+1, j+1)` accumulates the input rectangle
/// `[0, i] x [0, j]`, built by the usual inclusion-exclusion recurrence.
pub struct CumSum2D<T: Group> {
    table: Vec<Vec<T>>,
}

impl<T: Group> CumSum2D<T> {
    /// The stored table.
    pub closed spec fn tab(&self) -> Seq<Seq<T>> {
        Seq::new(self.table@.len(), |i: int| self.table@[i]@)
    }

    /// Builds the prefix table of a rectangular input.
    pub fn new(vals: &Vec<Vec<T>>) -> (r: Self)
        requires
            1 <= vals@.len() < usize::MAX,
            forall|i: int|
                0 <= i < vals@.len() ==> (#[trigger] vals@[i])@.len() == vals@[0]@.len(),
            vals@[0]@.len() < usize::MAX,
        ensures
            r.tab().len() == vals@.len() + 1,
            forall|i: int| 0 <= i <= vals@.len() ==> (#[trigger] r.tab()[i]).len() == vals@[0]@.len()
                + 1,
            forall|j: int| 0 <= j <= vals@[0]@.len() ==> #[trigger] r.tab()[0][j]
                == T::zero_spec(),
            forall|i: int| 0 <= i <= vals@.len() ==> #[trigger] r.tab()[i][0] == T::zero_spec(),
            forall|i: int, j: int|
                0 <= i < vals@.len() && 0 <= j < vals@[0]@.len() ==> #[trigger] r.tab()[i + 1][j
                    + 1] == vals@[i]@[j].plus_spec(r.tab()[i][j + 1]).plus_spec(
                    r.tab()[i + 1][j],
                ).minus_spec(r.tab()[i][j]),
    {
        let n = vals.len();
        let m = vals[0].len();
        let z = T::zero();
        let mut table: Vec<Vec<T>> = Vec::new();
        let mut row0: Vec<T> = Vec::new();
        while row0.len() < m + 1
            invariant
                row0@.len() <= m + 1,
                m < usize::MAX,
                z == T::zero_spec(),
                forall|j: int| 0 <= j < row0@.len() ==> row0@[j] == T::zero_spec(),
            decreases m + 1 - row0.len(),
        {
            row0.push(z);
        }
        table.push(row0);
        let mut i: usize = 0;
        while i < n
            invariant
                i <= n,
                n == vals@.len() < usize::MAX,
                m == vals@[0]@.len() < usize::MAX,
                forall|k: int| 0 <= k < vals@.len() ==> (#[trigger] vals@[k])@.len() == m,
                z == T::zero_spec(),
                table@.len() == i + 1,
                forall|k: int| 0 <= k <= i ==> (#[trigger] table@[k])@.len() == m + 1,
                forall|j: int| 0 <= j <= m ==> #[trigger] table@[0]@[j] == T::zero_spec(),
                forall|k: int| 0 <= k <= i ==> #[trigger] table@[k]@[0] == T::zero_spec(),
                forall|k: int, j: int|
                    0 <= k < i && 0 <= j < m ==> #[trigger] table@[k + 1]@[j + 1]
                        == vals@[k]@[j].plus_spec(table@[k]@[j + 1]).plus_spec(
                        table@[k + 1]@[j],
                    ).minus_spec(table@[k]@[j]),
            decreases n - i,
        {
            let mut row: Vec<T> = Vec::new();
            row.push(z);
            let mut j: usize = 0;
            while j < m
                invariant
                    j <= m,
                    i < n,
                    n == vals@.len(),
                    m == vals@[0]@.len() < usize::MAX,
                    forall|k: int| 0 <= k < vals@.len() ==> (#[trigger] vals@[k])@.len() == m,
                    table@.len() == i + 1,
                    forall|k: int| 0 <= k <= i ==> (#[trigger] table@[k])@.len() == m + 1,
                    row@.len() == j + 1,
                    row@[0] == T::zero_spec(),
                    forall|jj: int|
                        0 <= jj < j ==> #[trigger] row@[jj + 1] == vals@[i as int]@[jj].plus_spec(
                            table@[i as int]@[jj + 1],
                        ).plus_spec(row@[jj]).minus_spec(table@[i as int]@[jj]),
                decreases m - j,
            {
                let prev = &table[i];
                let a = vals[i][j].plus(&prev[j + 1]);
                let b = a.plus(&row[j]);
                let c = b.minus(&prev[j]);
                row.push(c);
                j = j + 1;
            }
            table.push(row);
            i = i + 1;
        }
        let r = CumSum2D { table };
        r
    }

    /// The inclusion-exclusion combination for the rectangle
    /// `[lx, rx) x [ly, ry)` of the input: two corner subtractions followed
    /// by one addition.
    pub fn query(&self, lx: usize, ly: usize, rx: usize, ry: usize) -> (r: T)
        requires
            lx < self.tab().len(),
            rx < self.tab().len(),
            ly < self.tab()[rx as int].len(),
            ry < self.tab()[rx as int].len(),
            ly < self.tab()[lx as int].len(),
            ry < self.tab()[lx as int].len(),
        ensures
            r == self.tab()[rx as int][ry as int].minus_spec(
                self.tab()[rx as int][ly as int],
            ).minus_spec(self.tab()[lx as int][ry as int]).plus_spec(
                self.tab()[lx as int][ly as int],
            ),
    {
        let a = self.table[rx][ry].minus(&self.table[rx][ly]);
        let b = a.minus(&self.table[lx][ry]);
        b.plus(&self.table[lx][ly])
    }
}

} // verus!
