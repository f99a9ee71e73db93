//! Lower and upper bound search over a sorted vector.

use vstd::prelude::*;

verus! {

/// Binary searches over a sorted container.  The two bounds bracket the run
/// of elements equal to the probe: `lower_bound` is the first slot not below
/// it, `upper_bound` the first slot strictly above it.
pub trait BinarySearch {
    type E;

    /// The ordering the container is sorted by.
    spec fn le_spec(a: Self::E, b: Self::E) -> bool;

    /// The contents being searched.
    spec fn seq_of(&self) -> Seq<Self::E>;

    /// Sorted under `le_spec`.
    open spec fn sorted(&self) -> bool {
        forall|i: int, j: int|
            0 <= i <= j < self.seq_of().len() ==> Self::le_spec(
                #[trigger] self.seq_of()[i],
                #[trigger] self.seq_of()[j],
            )
    }

    /// The first index whose element is not below `e`.
    fn lower_bound(&self, e: &Self::E) -> (r: usize)
        requires
            self.sorted(),
            1 <= self.seq_of().len() <= usize::MAX / 2,
        ensures
            r <= self.seq_of().len(),
            forall|k: int| 0 <= k < r ==> !Self::le_spec(*e, #[trigger] self.seq_of()[k]),
            r < self.seq_of().len() ==> Self::le_spec(*e, self.seq_of()[r as int]),
    ;

    /// The first index whose element is strictly above `e`.
    fn upper_bound(&self, e: &Self::E) -> (r: usize)
        requires
            self.sorted(),
            1 <= self.seq_of().len() <= usize::MAX / 2,
        ensures
            r <= self.seq_of().len(),
            forall|k: int| 0 <= k < r ==> Self::le_spec(#[trigger] self.seq_of()[k], *e),
            r < self.seq_of().len() ==> !Self::le_spec(self.seq_of()[r as int], *e),
    ;
}

impl BinarySearch for Vec<i64> {
    type E = i64;

    open spec fn le_spec(a: i64, b: i64) -> bool {
        a <= b
    }

    fn lower_bound(&self, e: &i64) -> (r: usize) {
        if self[0] >= *e {
            0
        } else {
            let mut ng: usize = 0;
            let mut ok: usize = self.len();
            while ok - ng > 1
                invariant
                    0 <= ng < ok <= self@.len() <= usize::MAX / 2,
                    self.sorted(),
                    !(*e <= self@[ng as int]),
                    ok < self@.len() ==> *e <= self@[ok as int],
                decreases ok - ng,
            {
                let m = (ok + ng) / 2;
                if self[m] >= *e {
                    ok = m;
                } else {
                    ng = m;
                }
            }
            proof {
                assert(ok == ng + 1);
                assert forall|k: int| 0 <= k < ok implies !(*e <= self@[k]) by {
                    assert(Self::le_spec(self@[k], self@[ng as int]));
                }
            }
            ok
        }
    }

    open spec fn seq_of(&self) -> Seq<i64> {
        self@
    }

    fn upper_bound(&self, e: &i64) -> (r: usize) {
        if self[0] > *e {
            0
        } else {
            let mut ng: usize = 0;
            let mut ok: usize = self.len();
            while ok - ng > 1
                invariant
                    0 <= ng < ok <= self@.len() <= usize::MAX / 2,
                    self.sorted(),
                    self@[ng as int] <= *e,
                    ok < self@.len() ==> !(self@[ok as int] <= *e),
                decreases ok - ng,
            {
                let m = (ok + ng) / 2;
                if self[m] > *e {
                    ok = m;
                } else {
                    ng = m;
                }
            }
            proof {
                assert(ok == ng + 1);
                assert forall|k: int| 0 <= k < ok implies self@[k] <= *e by {
                    assert(Self::le_spec(self@[k], self@[ng as int]));
                }
            }
            ok
        }
    }
}

} // verus!
