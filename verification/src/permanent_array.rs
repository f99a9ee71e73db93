//! A persistent array: a perfect binary tree of shared subtrees.  Updating
//! returns a new array that shares everything but the path to the changed
//! slot; old versions stay readable.

use std::rc::Rc;

use vstd::prelude::*;

verus! {

/// Either a leaf holding one value or a node holding its size and two
/// equally sized halves.
pub enum ParsistentArray<T> {
    Node(usize, Rc<ParsistentArray<T>>, Rc<ParsistentArray<T>>),
    Leaf(T),
}

/// Relies on std's `Rc::clone`: the returned handle refers to the same
/// value as the argument.
#[verifier::external_body]
fn rc_dup<T>(x: &Rc<ParsistentArray<T>>) -> (r: Rc<ParsistentArray<T>>)
    ensures
        r == *x,
{
    Rc::clone(x)
}

impl<T: Copy> ParsistentArray<T> {
    /// The model: the sequence of stored values, left to right.
    pub open spec fn view(self) -> Seq<T>
        decreases self,
    {
        match self {
            ParsistentArray::Leaf(v) => seq![v],
            ParsistentArray::Node(n, l, r) => l.view() + r.view(),
        }
    }

    /// Well-formed: every node's halves have equal lengths and its stored
    /// size is the subtree's length.
    pub open spec fn wf(self) -> bool
        decreases self,
    {
        match self {
            ParsistentArray::Leaf(v) => true,
            ParsistentArray::Node(n, l, r) => {
                &&& l.wf()
                &&& r.wf()
                &&& l.view().len() == r.view().len()
                &&& n == l.view().len() + r.view().len()
            },
        }
    }

    /// Builds an array of at least `n` slots (the smallest power of two),
    /// all holding `init`.
    pub fn new(n: usize, init: T) -> (res: Self)
        requires
            1 <= n <= usize::MAX / 2,
        ensures
            res.wf(),
            n <= res.view().len() < 2 * n,
            res.view() == Seq::new(res.view().len(), |k: int| init),
    {
        let mut l: usize = 1;
        while l < n
            invariant
                1 <= l < 2 * n,
                crate::segtree::is_pow2(l as int),
                n <= usize::MAX / 2,
            decreases 2 * n - l,
        {
            l = l * 2;
        }
        let res = Self::new_(l, init);
        proof {
            assert(res.view() =~= Seq::new(res.view().len(), |k: int| init));
        }
        res
    }

    /// Builds a perfect subtree of exactly `n` slots, `n` a power of two.
    fn new_(n: usize, init: T) -> (res: Self)
        requires
            1 <= n,
            crate::segtree::is_pow2(n as int),
        ensures
            res.wf(),
            res.view().len() == n,
            forall|k: int| 0 <= k < n ==> res.view()[k] == init,
        decreases n,
    {
        if n == 1 {
            ParsistentArray::Leaf(init)
        } else {
            proof {
                assert(n % 2 == 0 && crate::segtree::is_pow2(n as int / 2));
            }
            let half = n / 2;
            let left = Self::new_(half, init);
            let right = Self::new_(half, init);
            ParsistentArray::Node(n, Rc::new(left), Rc::new(right))
        }
    }

    /// The number of slots.
    pub fn len(&self) -> (r: usize)
        requires
            self.wf(),
        ensures
            r == self.view().len(),
    {
        match self {
            ParsistentArray::Leaf(_) => 1,
            ParsistentArray::Node(n, _, _) => *n,
        }
    }

    /// A new array equal to this one except that slot `i` holds `val`; this
    /// array is untouched.
    pub fn update(&self, i: usize, val: T) -> (res: Self)
        requires
            self.wf(),
            i < self.view().len(),
        ensures
            res.wf(),
            res.view() == self.view().update(i as int, val),
        decreases *self,
    {
        match self {
            ParsistentArray::Leaf(_) => {
                proof {
                    assert(self.view().update(i as int, val) =~= seq![val]);
                }
                ParsistentArray::Leaf(val)
            },
            ParsistentArray::Node(n, left, right) => {
                let half = *n / 2;
                proof {
                    assert(left.view().len() == half);
                }
                if i < half {
                    let nl = left.update(i, val);
                    proof {
                        assert(nl.view() + right.view() =~= self.view().update(i as int, val));
                    }
                    ParsistentArray::Node(*n, Rc::new(nl), rc_dup(right))
                } else {
                    let nr = right.update(i - half, val);
                    proof {
                        assert(left.view() + nr.view() =~= self.view().update(i as int, val));
                    }
                    ParsistentArray::Node(*n, rc_dup(left), Rc::new(nr))
                }
            },
        }
    }

    /// Reads slot `i`.
    pub fn get(&self, i: usize) -> (r: T)
        requires
            self.wf(),
            i < self.view().len(),
        ensures
            r == self.view()[i as int],
        decreases *self,
    {
        match self {
            ParsistentArray::Leaf(v) => *v,
            ParsistentArray::Node(n, left, right) => {
                let half = *n / 2;
                if i < half {
                    left.get(i)
                } else {
                    right.get(i - half)
                }
            },
        }
    }
}

} // verus!
