//! The convex-hull-trick container: a stack of lines `y = a*x + b`, pruned
//! on insertion, with point evaluation and a bisection query over the stored
//! lines.

use vstd::prelude::*;

verus! {

/// Coordinates are kept small enough that every product in the pruning test
/// and in evaluation fits an `i64`.
pub open spec fn coord_ok(v: i64) -> bool {
    -0x4000_0000 <= v <= 0x4000_0000
}

/// Lexicographic order on (slope, intercept) pairs.
pub open spec fn line_lt(p: (i64, i64), q: (i64, i64)) -> bool {
    p.0 < q.0 || (p.0 == q.0 && p.1 < q.1)
}

/// The middle line `l2` is dominated by its neighbours: the cross-product
/// test, taken after putting the outer pair in lexicographic order.
pub open spec fn dominated(l1: (i64, i64), l2: (i64, i64), l3: (i64, i64)) -> bool {
    let p1 = if line_lt(l1, l3) {
        l3
    } else {
        l1
    };
    let p3 = if line_lt(l1, l3) {
        l1
    } else {
        l3
    };
    (p3.1 - l2.1) * (l2.0 - p1.0) >= (l2.1 - p1.1) * (p3.0 - l2.0)
}

/// The value of line `(a, b)` at `x`.
pub open spec fn line_at(l: (i64, i64), x: i64) -> int {
    l.0 * x + l.1
}

/// Every line of `orig` from position `len` on was struck while dominated
/// with respect to the incoming line `(a, b)`.
pub open spec fn struck(orig: Seq<(i64, i64)>, len: int, a: i64, b: i64) -> bool {
    forall|j: int|
        len <= j < orig.len() ==> j >= 1 && dominated(orig[j - 1], #[trigger] orig[j], (a, b))
}

pub struct ConvexHullTrick {
    lines: Vec<(i64, i64)>,
}

impl ConvexHullTrick {
    /// The stored lines, oldest first.
    pub closed spec fn view_lines(&self) -> Seq<(i64, i64)> {
        self.lines@
    }

    /// Every stored coordinate is in the safe range.
    pub closed spec fn wf(&self) -> bool {
        forall|i: int|
            0 <= i < self.lines@.len() ==> coord_ok((#[trigger] self.lines@[i]).0) && coord_ok(
                self.lines@[i].1,
            )
    }

    /// An empty container.
    pub fn new() -> (r: ConvexHullTrick)
        ensures
            r.wf(),
            r.view_lines().len() == 0,
    {
        ConvexHullTrick { lines: Vec::new() }
    }

    /// The pruning test, on explicit lines.
    pub fn check(l1: (i64, i64), l2: (i64, i64), l3: (i64, i64)) -> (r: bool)
        requires
            coord_ok(l1.0) && coord_ok(l1.1),
            coord_ok(l2.0) && coord_ok(l2.1),
            coord_ok(l3.0) && coord_ok(l3.1),
        ensures
            r == dominated(l1, l2, l3),
    {
        let swap = l1.0 < l3.0 || (l1.0 == l3.0 && l1.1 < l3.1);
        let (p1, p3) = if swap {
            (l3, l1)
        } else {
            (l1, l3)
        };
        proof {
            assert((p3.1 - l2.1) * (l2.0 - p1.0) <= 0x4000_0000_0000_0000 && (p3.1 - l2.1) * (
            l2.0 - p1.0) >= -0x4000_0000_0000_0000) by (nonlinear_arith)
                requires
                    -0x8000_0000 <= p3.1 - l2.1 <= 0x8000_0000,
                    -0x8000_0000 <= l2.0 - p1.0 <= 0x8000_0000,
            ;
            assert((l2.1 - p1.1) * (p3.0 - l2.0) <= 0x4000_0000_0000_0000 && (l2.1 - p1.1) * (
            p3.0 - l2.0) >= -0x4000_0000_0000_0000) by (nonlinear_arith)
                requires
                    -0x8000_0000 <= l2.1 - p1.1 <= 0x8000_0000,
                    -0x8000_0000 <= p3.0 - l2.0 <= 0x8000_0000,
            ;
        }
        (p3.1 - l2.1) * (l2.0 - p1.0) >= (l2.1 - p1.1) * (p3.0 - l2.0)
    }

    /// Pushes the line `y = a*x + b`, first popping every line that becomes
    /// dominated: the result is a prefix of the old stack plus the new line,
    /// cut exactly where the domination test stops.
    pub fn add(&mut self, a: i64, b: i64)
        requires
            old(self).wf(),
            coord_ok(a) && coord_ok(b),
        ensures
            final(self).wf(),
            exists|k: int|
                0 <= k <= old(self).view_lines().len() && final(self).view_lines() == (
                #[trigger] old(self).view_lines().subrange(0, k)).push((a, b)) && (k < 2
                    || !dominated(
                    old(self).view_lines()[k - 2],
                    old(self).view_lines()[k - 1],
                    (a, b),
                )) && struck(old(self).view_lines(), k, a, b),
    {
        let ghost orig = self.lines@;
        loop
            invariant
                self.lines@.len() <= orig.len(),
                self.lines@ == orig.subrange(0, self.lines@.len() as int),
                forall|i: int|
                    0 <= i < orig.len() ==> coord_ok((#[trigger] orig[i]).0) && coord_ok(
                        orig[i].1,
                    ),
                coord_ok(a) && coord_ok(b),
                struck(orig, self.lines@.len() as int, a, b),
            ensures
                self.lines@.len() <= orig.len(),
                self.lines@ == orig.subrange(0, self.lines@.len() as int),
                struck(orig, self.lines@.len() as int, a, b),
                self.lines@.len() < 2 || !dominated(
                    orig[self.lines@.len() - 2],
                    orig[self.lines@.len() - 1],
                    (a, b),
                ),
            decreases self.lines.len(),
        {
            if self.lines.len() < 2 {
                break ;
            }
            let l = self.lines.len();
            if !Self::check(self.lines[l - 2], self.lines[l - 1], (a, b)) {
                break ;
            }
            self.lines.pop();
            proof {
                assert(self.lines@ =~= orig.subrange(0, self.lines@.len() as int));
            }
        }
        let ghost k = self.lines@.len() as int;
        self.lines.push((a, b));
        proof {
            assert(0 <= k <= orig.len());
            assert(self.lines@ == (#[trigger] orig.subrange(0, k)).push((a, b)));
            assert(k < 2 || !dominated(orig[k - 2], orig[k - 1], (a, b)));
            assert(struck(orig, k, a, b));
            assert(old(self).view_lines() == orig);
            assert(self.view_lines() == (#[trigger] old(self).view_lines().subrange(0, k)).push(
                (a, b),
            ));
            assert(k < 2 || !dominated(
                old(self).view_lines()[k - 2],
                old(self).view_lines()[k - 1],
                (a, b),
            ));
            assert(struck(old(self).view_lines(), k, a, b));
        }
    }

    /// The value of stored line `i` at `x`.
    pub fn calc(&self, i: usize, x: i64) -> (r: i64)
        requires
            self.wf(),
            i < self.view_lines().len(),
            coord_ok(x),
        ensures
            r == line_at(self.view_lines()[i as int], x),
    {
        proof {
            let l = self.lines@[i as int];
            assert(l.0 * x <= 0x4000_0000 * 0x4000_0000 && l.0 * x >= -(
            0x4000_0000 * 0x4000_0000)) by (nonlinear_arith)
                requires
                    coord_ok(l.0) && coord_ok(x),
            ;
        }
        self.lines[i].0 * x + self.lines[i].1
    }

    /// Evaluates the stack at `x`, bisecting on comparisons of adjacent
    /// lines; the result is the value of one of the stored lines (the least
    /// one whenever the stack forms a proper hull).
    pub fn query(&self, x: i64) -> (r: i64)
        requires
            self.wf(),
            1 <= self.view_lines().len() <= usize::MAX / 2,
            coord_ok(x),
        ensures
            exists|i: int|
                0 <= i < self.view_lines().len() && r == line_at(
                    #[trigger] self.view_lines()[i],
                    x,
                ),
    {
        if self.lines.len() == 1 {
            let r = self.calc(0, x);
            proof {
                assert(exists|i: int|
                    0 <= i < self.view_lines().len() && r == line_at(
                        #[trigger] self.view_lines()[i],
                        x,
                    )) by {
                    assert(r == line_at(self.view_lines()[0], x));
                }
            }
            return r;
        }
        let mut ng: usize = 0;
        let mut ok: usize = self.lines.len();
        let first_better = {
            if ng + 1 == self.lines.len() {
                true
            } else {
                self.calc(ng, x) < self.calc(ng + 1, x)
            }
        };
        if first_better {
            let r = self.calc(ng, x);
            proof {
                assert(exists|i: int|
                    0 <= i < self.view_lines().len() && r == line_at(
                        #[trigger] self.view_lines()[i],
                        x,
                    )) by {
                    assert(r == line_at(self.view_lines()[ng as int], x));
                }
            }
            return r;
        }
        while ok - ng > 1
            invariant
                self.wf(),
                coord_ok(x),
                2 <= self.view_lines().len() <= usize::MAX / 2,
                ng < ok <= self.view_lines().len(),
                ok == self.view_lines().len() ==> ng + 2 <= self.view_lines().len(),
            decreases ok - ng,
        {
            let m = (ok + ng) / 2;
            let better = {
                if m + 1 == self.lines.len() {
                    true
                } else {
                    self.calc(m, x) < self.calc(m + 1, x)
                }
            };
            if better {
                ok = m;
            } else {
                ng = m;
            }
        }
        proof {
            assert(ok < self.view_lines().len());
        }
        let r = self.calc(ok, x);
        proof {
            assert(r == line_at(self.view_lines()[ok as int], x));
        }
        r
    }
}

} // verus!
