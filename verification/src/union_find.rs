//! Union-find with union by rank and full path compression.  The model is
//! the root assignment: every operation says exactly how each element's
//! root changes.

use vstd::prelude::*;
use vstd::set_lib::{lemma_int_range, set_int_range};

verus! {

/// Walks parent pointers for at most `fuel` steps.
pub open spec fn root_from(par: Seq<usize>, x: int, fuel: nat) -> int
    decreases fuel,
{
    if !(0 <= x < par.len()) {
        x
    } else if par[x] == x || fuel == 0 {
        x
    } else {
        root_from(par, par[x] as int, (fuel - 1) as nat)
    }
}

/// The indices that are their own parent.
pub open spec fn roots_set(par: Seq<usize>) -> Set<int> {
    Set::new(|j: int| 0 <= j < par.len() && par[j] == j)
}

/// The forest invariant: parents are in range, ranks strictly increase
/// toward the root, and no rank can reach the element count minus the
/// number of remaining roots — which both bounds the walk and keeps rank
/// increments from overflowing.
pub open spec fn uf_wf(par: Seq<usize>, rank: Seq<usize>) -> bool {
    let n = par.len() as int;
    &&& rank.len() == n
    &&& forall|x: int| 0 <= x < n ==> (#[trigger] par[x]) < n
    &&& forall|x: int|
        0 <= x < n && (#[trigger] par[x]) != x ==> rank[par[x] as int] > rank[x]
    &&& forall|x: int| 0 <= x < n ==> roots_set(par).len() + #[trigger] rank[x] <= n
    &&& (n >= 1 ==> roots_set(par).len() >= 1)
}

/// The root set is finite and no larger than the element count.
pub proof fn lemma_roots_finite(par: Seq<usize>)
    ensures
        roots_set(par).finite(),
        roots_set(par).len() <= par.len(),
{
    lemma_int_range(0, par.len() as int);
    vstd::set_lib::lemma_len_subset(roots_set(par), set_int_range(0, par.len() as int));
}

/// With enough fuel the walk reaches a root, the same one for any
/// sufficient fuel, and a strictly higher rank when the start is not
/// already a root.
pub proof fn lemma_root_from_ok(par: Seq<usize>, rank: Seq<usize>, x: int, f1: nat, f2: nat)
    requires
        uf_wf(par, rank),
        0 <= x < par.len(),
        f1 >= par.len() - rank[x],
        f2 >= par.len() - rank[x],
    ensures
        ({
            let r = root_from(par, x, f1);
            &&& r == root_from(par, x, f2)
            &&& 0 <= r < par.len()
            &&& par[r] == r
            &&& par[x] != x ==> rank[r] > rank[x]
        }),
    decreases f1,
{
    if par[x] != x {
        let p = par[x] as int;
        assert(rank[p] > rank[x]);
        assert(roots_set(par).len() + rank[p] <= par.len());
        lemma_roots_finite(par);
        assert(f1 >= 1 && f2 >= 1);
        lemma_root_from_ok(par, rank, p, (f1 - 1) as nat, (f2 - 1) as nat);
    }
}

/// The canonical root: the walk with fuel for the worst case.
pub open spec fn root_of(par: Seq<usize>, x: int) -> int {
    root_from(par, x, par.len() as nat)
}

/// `root_of` in terms of one parent step.
pub proof fn lemma_root_of_step(par: Seq<usize>, rank: Seq<usize>, x: int)
    requires
        uf_wf(par, rank),
        0 <= x < par.len(),
    ensures
        0 <= root_of(par, x) < par.len(),
        par[root_of(par, x)] == root_of(par, x),
        par[x] == x ==> root_of(par, x) == x,
        par[x] != x ==> root_of(par, x) == root_of(par, par[x] as int),
        par[x] != x ==> rank[root_of(par, x)] > rank[x],
{
    let n = par.len() as nat;
    assert(roots_set(par).len() + rank[x] <= par.len());
    lemma_roots_finite(par);
    lemma_root_from_ok(par, rank, x, n, n);
    if par[x] != x {
        let p = par[x] as int;
        lemma_root_from_ok(par, rank, p, (n - 1) as nat, n);
    }
}

/// Path compression: pointing a non-root straight at its root keeps the
/// forest well-formed and changes nobody's root.
pub proof fn lemma_compress(par: Seq<usize>, rank: Seq<usize>, x: int)
    requires
        uf_wf(par, rank),
        0 <= x < par.len(),
        par[x] != x,
    ensures
        uf_wf(par.update(x, root_of(par, x) as usize), rank),
{
    let r = root_of(par, x);
    lemma_root_of_step(par, rank, x);
    let par2 = par.update(x, r as usize);
    assert(roots_set(par2) =~= roots_set(par));
    assert(uf_wf(par2, rank));
}

/// One point of the compression argument, by induction on the rank gap.
pub proof fn lemma_compress_point(par: Seq<usize>, rank: Seq<usize>, par2: Seq<usize>, x: int, y: int)
    requires
        uf_wf(par, rank),
        uf_wf(par2, rank),
        0 <= x < par.len(),
        par[x] != x,
        par2 == par.update(x, root_of(par, x) as usize),
        0 <= y < par.len(),
    ensures
        root_of(par2, y) == root_of(par, y),
    decreases par.len() - rank[y],
{
    lemma_root_of_step(par, rank, y);
    lemma_root_of_step(par2, rank, y);
    let r = root_of(par, x);
    lemma_root_of_step(par, rank, x);
    if y == x {
        // par2 sends x straight to r, which is still a root
        assert(par2[y] == r as usize);
        assert(r != x);
        assert(par2[r] == par[r]);
        lemma_root_of_step(par2, rank, r);
    } else if par[y] == y {
    } else {
        assert(par2[y] == par[y]);
        assert(rank[par[y] as int] > rank[y]);
        assert(roots_set(par).len() + rank[par[y] as int] <= par.len());
        lemma_roots_finite(par);
        lemma_compress_point(par, rank, par2, x, par[y] as int);
    }
}

/// Attaching one root below another (bumping the rank when they were
/// equal): the forest stays well-formed and exactly the first root's class
/// moves.
pub proof fn lemma_attach(
    par: Seq<usize>,
    rank: Seq<usize>,
    rank2: Seq<usize>,
    a: int,
    b: int,
)
    requires
        uf_wf(par, rank),
        0 <= a < par.len(),
        0 <= b < par.len(),
        a != b,
        par[a] == a,
        par[b] == b,
        (rank2 == rank && rank[a] < rank[b]) || (rank2 == rank.update(b, (rank[b] + 1) as usize)
            && rank[a] == rank[b] && rank[b] + 1 <= usize::MAX),
    ensures
        uf_wf(par.update(a, b as usize), rank2),
{
    let n = par.len() as int;
    let par2 = par.update(a, b as usize);
    lemma_roots_finite(par);
    assert(roots_set(par).contains(a) && roots_set(par).contains(b));
    assert(roots_set(par2) =~= roots_set(par).remove(a));
    assert(roots_set(par2).len() == roots_set(par).len() - 1);
    assert(roots_set(par2).contains(b));
    assert(roots_set(par2).remove(b).len() == roots_set(par2).len() - 1);
    // two distinct roots existed, so the count was at least 2
    assert(roots_set(par).remove(a).contains(b));
    assert(uf_wf(par2, rank2));
}

pub proof fn lemma_attach_point(
    par: Seq<usize>,
    rank: Seq<usize>,
    rank2: Seq<usize>,
    par2: Seq<usize>,
    a: int,
    b: int,
    y: int,
)
    requires
        uf_wf(par, rank),
        uf_wf(par2, rank2),
        0 <= a < par.len(),
        0 <= b < par.len(),
        a != b,
        par[a] == a,
        par[b] == b,
        par2 == par.update(a, b as usize),
        0 <= y < par.len(),
    ensures
        root_of(par2, y) == (if root_of(par, y) == a {
            b
        } else {
            root_of(par, y)
        }),
    decreases par.len() - rank[y],
{
    lemma_root_of_step(par, rank, y);
    lemma_root_of_step(par2, rank2, y);
    if y == a {
        assert(par2[a] == b as usize);
        lemma_root_of_step(par2, rank2, b);
    } else if par[y] == y {
    } else {
        assert(par2[y] == par[y]);
        assert(rank[par[y] as int] > rank[y]);
        assert(roots_set(par).len() + rank[par[y] as int] <= par.len());
        lemma_roots_finite(par);
        lemma_attach_point(par, rank, rank2, par2, a, b, par[y] as int);
    }
}

/// The whole correctness argument for one `find` call: after the recursive
/// call has found the root and preserved every class, rewiring `x` straight
/// to it keeps the forest well-formed and still preserves every class.
proof fn lemma_find_step(
    par0: Seq<usize>,
    rank0: Seq<usize>,
    par1: Seq<usize>,
    x: int,
    res: int,
)
    requires
        uf_wf(par0, rank0),
        uf_wf(par1, rank0),
        par1.len() == par0.len(),
        0 <= x < par0.len(),
        par0[x] != x,
        forall|y: int| 0 <= y < par0.len() ==> #[trigger] root_of(par1, y) == root_of(par0, y),
        res == root_of(par0, par0[x] as int),
    ensures
        res == root_of(par0, x),
        0 <= res < par0.len(),
        par1[x] != x,
        res == root_of(par1, x),
        uf_wf(par1.update(x, res as usize), rank0),
        forall|y: int|
            0 <= y < par0.len() ==> #[trigger] root_of(par1.update(x, res as usize), y)
                == root_of(par0, y),
{
    lemma_root_of_step(par0, rank0, x);
    assert(res == root_of(par0, x));
    assert(root_of(par1, x) == res);
    if par1[x] == x {
        lemma_root_of_step(par1, rank0, x);
        assert(root_of(par1, x) == x);
        assert(rank0[res] > rank0[x]);
        assert(false);
    }
    lemma_compress(par1, rank0, x);
    let par2 = par1.update(x, res as usize);
    assert(par2 == par1.update(x, root_of(par1, x) as usize));
    assert forall|y: int| 0 <= y < par0.len() implies #[trigger] root_of(par2, y) == root_of(
        par0,
        y,
    ) by {
        lemma_compress_point(par1, rank0, par2, x, y);
    }
}

/// Union-find over `{0, .., len - 1}`.
pub struct UnionFind {
    par: Vec<usize>,
    rank: Vec<usize>,
}

impl UnionFind {
    /// The number of elements.
    pub closed spec fn n(&self) -> int {
        self.par@.len() as int
    }

    pub closed spec fn wf(&self) -> bool {
        uf_wf(self.par@, self.rank@)
    }

    /// The representative of `x`'s class.
    pub closed spec fn spec_root(&self, x: int) -> int {
        root_of(self.par@, x)
    }

    /// The stored ranks (used only to state that queries keep them).
    pub closed spec fn ranks(&self) -> Seq<usize> {
        self.rank@
    }

    /// `n` singleton classes.
    pub fn new(n: usize) -> (r: UnionFind)
        ensures
            r.wf(),
            r.n() == n,
            forall|x: int| 0 <= x < n ==> #[trigger] r.spec_root(x) == x,
    {
        let mut vec: Vec<usize> = Vec::new();
        while vec.len() < n
            invariant
                vec@.len() <= n,
                forall|i: int| 0 <= i < vec@.len() ==> #[trigger] vec@[i] == i,
            decreases n - vec.len(),
        {
            let i = vec.len();
            vec.push(i);
        }
        let mut rank: Vec<usize> = Vec::new();
        while rank.len() < n
            invariant
                rank@.len() <= n,
                forall|i: int| 0 <= i < rank@.len() ==> #[trigger] rank@[i] == 0,
            decreases n - rank.len(),
        {
            rank.push(0);
        }
        let r = UnionFind { par: vec, rank };
        proof {
            assert(roots_set(r.par@) =~= set_int_range(0, n as int));
            lemma_int_range(0, n as int);
            assert(uf_wf(r.par@, r.rank@));
        }
        r
    }

    /// The whole correctness argument for one `unite` branch: after both
    /// finds, linking the root `child` under the distinct root `parent`
    /// (bumping `parent`'s rank when they were equal) merges exactly the two
    /// classes.
    proof fn lemma_unite_branch(
        pre: Self,
        mid: Self,
        par3: Seq<usize>,
        rank3: Seq<usize>,
        a: int,
        b: int,
        child: int,
        parent: int,
    )
        requires
            pre.wf(),
            mid.wf(),
            mid.n() == pre.n(),
            mid.ranks() == pre.ranks(),
            forall|y: int|
                0 <= y < pre.n() ==> #[trigger] mid.spec_root(y) == pre.spec_root(y),
            0 <= a < pre.n(),
            0 <= b < pre.n(),
            child != parent,
            (child == pre.spec_root(a) && parent == pre.spec_root(b)) || (child == pre.spec_root(
                b,
            ) && parent == pre.spec_root(a)),
            par3 == mid.par@.update(child, parent as usize),
            (rank3 == mid.rank@ && mid.rank@[child] < mid.rank@[parent]) || (rank3
                == mid.rank@.update(parent, (mid.rank@[parent] + 1) as usize) && mid.rank@[child]
                == mid.rank@[parent] && mid.rank@[parent] + 1 <= usize::MAX),
        ensures
            uf_wf(par3, rank3),
            forall|y: int|
                0 <= y < pre.n() ==> #[trigger] root_of(par3, y) == (if pre.spec_root(y)
                    == pre.spec_root(a) || pre.spec_root(y) == pre.spec_root(b) {
                    parent
                } else {
                    pre.spec_root(y)
                }),
    {
        let n = pre.n();
        lemma_root_of_step(pre.par@, pre.rank@, a);
        lemma_root_of_step(pre.par@, pre.rank@, b);
        let ra = pre.spec_root(a);
        let rb = pre.spec_root(b);
        lemma_root_of_step(pre.par@, pre.rank@, ra);
        lemma_root_of_step(pre.par@, pre.rank@, rb);
        assert(mid.spec_root(child) == child && mid.spec_root(parent) == parent);
        lemma_root_of_step(mid.par@, mid.rank@, child);
        lemma_root_of_step(mid.par@, mid.rank@, parent);
        assert(mid.par@[child] == child && mid.par@[parent] == parent);
        lemma_attach(mid.par@, mid.rank@, rank3, child, parent);
        assert forall|y: int|
            0 <= y < n implies #[trigger] root_of(par3, y) == (if pre.spec_root(y)
            == pre.spec_root(a) || pre.spec_root(y) == pre.spec_root(b) {
            parent
        } else {
            pre.spec_root(y)
        }) by {
            lemma_attach_point(mid.par@, mid.rank@, rank3, par3, child, parent, y);
            assert(root_of(mid.par@, y) == mid.spec_root(y));
            assert(mid.spec_root(y) == pre.spec_root(y));
            if root_of(mid.par@, y) == child {
                assert(pre.spec_root(y) == child);
            }
        }
    }

    /// The representative of `x`'s class, compressing the path behind
    /// itself; no class changes.
    #[verifier::rlimit(100)]
    #[verifier::spinoff_prover]
    pub fn find(&mut self, x: usize) -> (r: usize)
        requires
            old(self).wf(),
            x < old(self).n(),
        ensures
            final(self).wf(),
            final(self).n() == old(self).n(),
            final(self).ranks() == old(self).ranks(),
            r < final(self).n(),
            r == old(self).spec_root(x as int),
            forall|y: int|
                0 <= y < old(self).n() ==> #[trigger] final(self).spec_root(y) == old(
                    self,
                ).spec_root(y),
        decreases old(self).n() - old(self).ranks()[x as int],
    {
        let p = self.par[x];
        if p == x {
            proof {
                lemma_root_of_step(self.par@, self.rank@, x as int);
            }
            return x;
        }
        proof {
            assert(self.rank@[p as int] > self.rank@[x as int]);
            assert(roots_set(self.par@).len() + self.rank@[p as int] <= self.n());
            lemma_roots_finite(self.par@);
        }
        let res = self.find(p);
        proof {
            let par1 = self.par@;
            assert forall|y: int|
                0 <= y < old(self).n() implies #[trigger] root_of(par1, y) == root_of(
                old(self).par@,
                y,
            ) by {
                assert(self.spec_root(y) == old(self).spec_root(y));
            }
            lemma_find_step(old(self).par@, old(self).rank@, par1, x as int, res as int);
        }
        let ghost par1 = self.par@;
        self.par.set(x, res);
        proof {
            assert(self.par@ == par1.update(x as int, res as usize));
            assert forall|y: int|
                0 <= y < old(self).n() implies #[trigger] self.spec_root(y) == old(
                self,
            ).spec_root(y) by {
                assert(root_of(self.par@, y) == root_of(old(self).par@, y));
            }
        }
        res
    }

    /// Whether `a` and `b` are in the same class.
    pub fn same(&mut self, a: usize, b: usize) -> (r: bool)
        requires
            old(self).wf(),
            a < old(self).n(),
            b < old(self).n(),
        ensures
            final(self).wf(),
            final(self).n() == old(self).n(),
            r == (old(self).spec_root(a as int) == old(self).spec_root(b as int)),
            forall|y: int|
                0 <= y < old(self).n() ==> #[trigger] final(self).spec_root(y) == old(
                    self,
                ).spec_root(y),
    {
        let ra = self.find(a);
        let rb = self.find(b);
        ra == rb
    }

    /// Merges the classes of `a` and `b` (by rank); every other class is
    /// untouched.  Merging a class with itself changes nothing.
    #[verifier::rlimit(100)]
    #[verifier::spinoff_prover]
    pub fn unite(&mut self, a: usize, b: usize)
        requires
            old(self).wf(),
            a < old(self).n(),
            b < old(self).n(),
        ensures
            final(self).wf(),
            final(self).n() == old(self).n(),
            final(self).spec_root(a as int) == final(self).spec_root(b as int),
            forall|y: int|
                0 <= y < old(self).n() ==> #[trigger] final(self).spec_root(y) == (
                if old(self).spec_root(y) == old(self).spec_root(a as int) || old(self).spec_root(
                    y,
                ) == old(self).spec_root(b as int) {
                    final(self).spec_root(a as int)
                } else {
                    old(self).spec_root(y)
                }),
    {
        let apar = self.find(a);
        let bpar = self.find(b);
        if apar == bpar {
            return ;
        }
        let ghost pre = *old(self);
        let ghost mid = *self;
        let nn = self.par.len();
        proof {
            assert(roots_set(self.par@).len() + self.rank@[bpar as int] <= nn);
            lemma_roots_finite(self.par@);
            lemma_root_of_step(pre.par@, pre.rank@, a as int);
            lemma_root_of_step(pre.par@, pre.rank@, b as int);
            lemma_root_of_step(pre.par@, pre.rank@, apar as int);
            lemma_root_of_step(pre.par@, pre.rank@, bpar as int);
            assert(pre.spec_root(apar as int) == apar && pre.spec_root(bpar as int) == bpar);
            assert(mid.spec_root(apar as int) == apar && mid.spec_root(bpar as int) == bpar);
            lemma_root_of_step(mid.par@, mid.rank@, apar as int);
            lemma_root_of_step(mid.par@, mid.rank@, bpar as int);
            assert(mid.par@[apar as int] == apar && mid.par@[bpar as int] == bpar);
            assert(roots_set(mid.par@).contains(apar as int));
            assert(roots_set(mid.par@).contains(bpar as int));
            assert(roots_set(mid.par@).remove(apar as int).contains(bpar as int));
            assert(roots_set(mid.par@).remove(apar as int).len() >= 1);
            assert(roots_set(mid.par@).len() >= 2);
        }
        if self.rank[apar] > self.rank[bpar] {
            self.par.set(bpar, apar);
            proof {
                Self::lemma_unite_branch(
                    pre,
                    mid,
                    self.par@,
                    self.rank@,
                    a as int,
                    b as int,
                    bpar as int,
                    apar as int,
                );
            }
        } else if self.rank[apar] == self.rank[bpar] {
            let nr = self.rank[bpar] + 1;
            self.par.set(apar, bpar);
            self.rank.set(bpar, nr);
            proof {
                Self::lemma_unite_branch(
                    pre,
                    mid,
                    self.par@,
                    self.rank@,
                    a as int,
                    b as int,
                    apar as int,
                    bpar as int,
                );
            }
        } else {
            self.par.set(apar, bpar);
            proof {
                Self::lemma_unite_branch(
                    pre,
                    mid,
                    self.par@,
                    self.rank@,
                    a as int,
                    b as int,
                    apar as int,
                    bpar as int,
                );
            }
        }
    }
}

} // verus!
