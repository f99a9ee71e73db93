//! A partially persistent array: the newest version is mutable, and every
//! older version stays readable by its timestamp.  Each slot keeps its full
//! history as a list of (time, value) pairs with strictly increasing times.

use vstd::pervasive::VecAdditionalExecFns;
use vstd::prelude::*;

verus! {

/// The value a history row shows to a reader at time `t`: the payload of the
/// last entry written strictly before `t`.
pub open spec fn val_before<T>(row: Seq<(usize, T)>, t: int) -> T
    decreases row.len(),
{
    if row.len() == 0 {
        arbitrary()
    } else if row.last().0 < t {
        row.last().1
    } else {
        val_before(row.drop_last(), t)
    }
}

/// With every entry from index `l + 1` on at or after `t`, and entry `l`
/// strictly before `t`, entry `l` is what a reader at `t` sees.
proof fn lemma_val_before<T>(row: Seq<(usize, T)>, t: int, l: int)
    requires
        0 <= l < row.len(),
        row[l].0 < t,
        forall|k: int| l < k < row.len() ==> #[trigger] row[k].0 >= t,
    ensures
        val_before(row, t) == row[l].1,
    decreases row.len(),
{
    if l == row.len() - 1 {
    } else {
        assert(row.drop_last()[l] == row[l]);
        lemma_val_before(row.drop_last(), t, l);
    }
}

pub struct PartiallyPersistentArray<T> {
    data: Vec<Vec<(usize, T)>>,
    time: usize,
}

impl<T: Copy> PartiallyPersistentArray<T> {
    /// The per-slot histories.
    pub closed spec fn rows(&self) -> Seq<Seq<(usize, T)>> {
        Seq::new(self.data@.len(), |i: int| self.data@[i]@)
    }

    /// The current clock.
    pub closed spec fn now(&self) -> usize {
        self.time
    }

    /// Histories are non-empty, start at time 0, and carry strictly
    /// increasing times below the clock.
    pub closed spec fn wf(&self) -> bool {
        &&& self.time >= 1
        &&& forall|i: int|
            0 <= i < self.rows().len() ==> {
                let row = #[trigger] self.rows()[i];
                &&& row.len() >= 1
                &&& row[0].0 == 0
                &&& forall|a: int, b: int|
                    0 <= a < b < row.len() ==> (#[trigger] row[a]).0 < (#[trigger] row[b]).0
                &&& forall|a: int| 0 <= a < row.len() ==> #[trigger] row[a].0 < self.time
            }
    }

    /// Builds `n` slots, all holding `init` since time 0; the clock starts
    /// at 1.
    pub fn new(n: usize, init: T) -> (r: Self)
        ensures
            r.wf(),
            r.rows().len() == n,
            r.now() == 1,
            forall|i: int, t: int|
                0 <= i < n && 1 <= t ==> #[trigger] val_before(r.rows()[i], t) == init,
    {
        let mut data: Vec<Vec<(usize, T)>> = Vec::new();
        while data.len() < n
            invariant
                data@.len() <= n,
                forall|i: int| 0 <= i < data@.len() ==> (#[trigger] data@[i])@ =~= seq![
                    (0usize, init),
                ],
            decreases n - data.len(),
        {
            let mut row: Vec<(usize, T)> = Vec::new();
            row.push((0, init));
            data.push(row);
        }
        let r = PartiallyPersistentArray { data, time: 1 };
        proof {
            assert forall|i: int, t: int|
                0 <= i < n && 1 <= t implies #[trigger] val_before(r.rows()[i], t) == init by {
                assert(r.rows()[i] =~= seq![(0usize, init)]);
                lemma_val_before(r.rows()[i], t, 0);
            }
        }
        r
    }

    /// The current time.
    pub fn get_time(&self) -> (r: usize)
        ensures
            r == self.now(),
    {
        self.time
    }

    /// Writes `v` into slot `i` at the current time, advances the clock and
    /// returns the new time.  Every read of an older time is unaffected.
    pub fn update(&mut self, i: usize, v: T) -> (r: usize)
        requires
            old(self).wf(),
            i < old(self).rows().len(),
            old(self).now() < usize::MAX,
        ensures
            final(self).wf(),
            r == final(self).now() == old(self).now() + 1,
            final(self).rows().len() == old(self).rows().len(),
            final(self).rows()[i as int] == old(self).rows()[i as int].push(
                (old(self).now(), v),
            ),
            forall|k: int|
                0 <= k < old(self).rows().len() && k != i ==> final(self).rows()[k] == old(
                    self,
                ).rows()[k],
            forall|k: int, t: int|
                0 <= k < old(self).rows().len() && 1 <= t <= old(self).now() ==> #[trigger]
                val_before(final(self).rows()[k], t) == val_before(old(self).rows()[k], t),
    {
        let mut row: Vec<(usize, T)> = Vec::new();
        self.data.set_and_swap(i, &mut row);
        row.push((self.time, v));
        self.data.set_and_swap(i, &mut row);
        let r = self.time + 1;
        self.time = r;
        proof {
            let rs0 = old(self).rows();
            let rs1 = self.rows();
            assert(rs1 =~= rs0.update(i as int, rs0[i as int].push((old(self).time, v))));
            assert forall|k: int, t: int|
                0 <= k < rs0.len() && 1 <= t <= old(self).time implies #[trigger] val_before(
                rs1[k],
                t,
            ) == val_before(rs0[k], t) by {
                if k == i {
                    assert(rs1[k].drop_last() =~= rs0[k]);
                    assert(rs1[k].last().0 >= t);
                }
            }
        }
        r
    }

    /// Reads slot `i` as it stood at time `t`: the last value written
    /// strictly before `t`.
    pub fn get(&self, t: usize, i: usize) -> (r: Option<T>)
        requires
            self.wf(),
            i < self.rows().len(),
            1 <= t,
        ensures
            r == Some(val_before(self.rows()[i as int], t as int)),
    {
        let row = &self.data[i];
        let mut l: usize = 0;
        let mut r_: usize = row.len();
        proof {
            assert(self.rows()[i as int] == row@);
        }
        while l + 1 < r_
            invariant
                0 <= l < r_ <= row@.len(),
                row@ == self.rows()[i as int],
                self.wf(),
                i < self.rows().len(),
                1 <= t,
                row@[l as int].0 < t,
                forall|k: int| r_ <= k < row@.len() ==> #[trigger] row@[k].0 >= t,
            decreases r_ - l,
        {
            let m = l + (r_ - l) / 2;
            if row[m].0 < t {
                l = m;
            } else {
                proof {
                    assert forall|k: int| m <= k < row@.len() implies #[trigger] row@[k].0
                        >= t by {
                        if k > m {
                            assert(row@[m as int].0 < row@[k].0);
                        }
                    }
                }
                r_ = m;
            }
        }
        proof {
            lemma_val_before(row@, t as int, l as int);
        }
        Some(row[l].1)
    }
}

} // verus!
