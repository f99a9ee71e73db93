//! A binary trie: a set of bit strings stored as a tree with one branch per
//! bit, specified against a recursive membership predicate.

use vstd::prelude::*;

verus! {

/// Either empty, or a node with the subtrie for words starting with `false`,
/// the subtrie for words starting with `true`, and whether the empty word
/// ends here.
pub enum BinaryTrie {
    Node(Box<BinaryTrie>, Box<BinaryTrie>, bool),
    Empty,
}

/// Two non-empty strings with the same head and tail are the same.
proof fn lemma_head_tail_eq(u: Seq<bool>, v: Seq<bool>)
    requires
        u.len() > 0,
        v.len() > 0,
        u[0] == v[0],
        u.drop_first() == v.drop_first(),
    ensures
        u == v,
{
    assert(u =~= seq![u[0]] + u.drop_first());
    assert(v =~= seq![v[0]] + v.drop_first());
    assert(u == seq![v[0]] + v.drop_first());
}

impl BinaryTrie {
    /// Membership of a bit string.
    pub open spec fn has(self, w: Seq<bool>) -> bool
        decreases self,
    {
        match self {
            BinaryTrie::Empty => false,
            BinaryTrie::Node(l, r, end) => if w.len() == 0 {
                end
            } else if w[0] {
                r.has(w.drop_first())
            } else {
                l.has(w.drop_first())
            },
        }
    }

    /// The empty trie: no word is present.
    pub fn new() -> (r: BinaryTrie)
        ensures
            forall|w: Seq<bool>| !r.has(w),
    {
        BinaryTrie::Empty
    }

    /// Inserts the bit string `word`; everything already present stays.
    pub fn add(&mut self, word: &[bool])
        ensures
            forall|u: Seq<bool>| final(self).has(u) == (u == word@ || old(self).has(u)),
    {
        self.add_(word, 0);
        proof {
            assert(word@.skip(0) =~= word@);
        }
    }

    /// Worker: inserts the suffix of `word` from position `i` on.
    fn add_(&mut self, word: &[bool], i: usize)
        requires
            i <= word@.len(),
        ensures
            forall|u: Seq<bool>|
                #[trigger] final(self).has(u) == (u == word@.skip(i as int) || old(self).has(u)),
        decreases word@.len() - i,
    {
        let ghost suffix = word@.skip(i as int);
        if i < word.len() {
            let bit = word[i];
            proof {
                assert(suffix.len() > 0 && suffix[0] == bit);
                assert(suffix.drop_first() =~= word@.skip(i as int + 1));
            }
            match self {
                BinaryTrie::Node(left, right, end) => {
                    let ghost l0 = **left;
                    let ghost r0 = **right;
                    let ghost e0 = *end;
                    if bit {
                        right.add_(word, i + 1);
                    } else {
                        left.add_(word, i + 1);
                    }
                    proof {
                        let lc = **left;
                        let rc = **right;
                        let rest = word@.skip(i as int + 1);
                        assert forall|u: Seq<bool>|
                            #[trigger] self.has(u) == (u == suffix || old(self).has(u)) by {
                            if u.len() == 0 {
                                assert(self.has(u) == e0 && old(self).has(u) == e0);
                            } else {
                                let d = u.drop_first();
                                if u[0] == bit {
                                    if bit {
                                        assert(self.has(u) == rc.has(d));
                                        assert(rc.has(d) == (d == rest || r0.has(d)));
                                        assert(old(self).has(u) == r0.has(d));
                                    } else {
                                        assert(self.has(u) == lc.has(d));
                                        assert(lc.has(d) == (d == rest || l0.has(d)));
                                        assert(old(self).has(u) == l0.has(d));
                                    }
                                    if d == rest {
                                        lemma_head_tail_eq(u, suffix);
                                    }
                                    if u == suffix {
                                        assert(d == suffix.drop_first());
                                    }
                                } else {
                                    if bit {
                                        assert(self.has(u) == lc.has(d) && lc == l0);
                                        assert(old(self).has(u) == l0.has(d));
                                    } else {
                                        assert(self.has(u) == rc.has(d) && rc == r0);
                                        assert(old(self).has(u) == r0.has(d));
                                    }
                                    assert(u != suffix);
                                }
                            }
                        }
                    }
                },
                BinaryTrie::Empty => {
                    let mut sub = BinaryTrie::Empty;
                    sub.add_(word, i + 1);
                    let ghost subv = sub;
                    if bit {
                        *self = BinaryTrie::Node(Box::new(BinaryTrie::Empty), Box::new(sub), false);
                    } else {
                        *self = BinaryTrie::Node(Box::new(sub), Box::new(BinaryTrie::Empty), false);
                    }
                    proof {
                        let rest = word@.skip(i as int + 1);
                        assert(forall|d: Seq<bool>| #[trigger] subv.has(d) == (d == rest));
                        assert forall|u: Seq<bool>|
                            #[trigger] self.has(u) == (u == suffix || old(self).has(u)) by {
                            assert(!old(self).has(u));
                            if u.len() == 0 {
                                assert(!self.has(u) && u != suffix);
                            } else {
                                let d = u.drop_first();
                                if u[0] == bit {
                                    assert(self.has(u) == subv.has(d));
                                    if d == rest {
                                        lemma_head_tail_eq(u, suffix);
                                    }
                                    if u == suffix {
                                        assert(d == suffix.drop_first());
                                    }
                                } else {
                                    assert(self.has(u) == BinaryTrie::Empty.has(d));
                                    assert(u != suffix);
                                }
                            }
                        }
                    }
                },
            }
        } else {
            proof {
                assert(suffix =~= Seq::<bool>::empty());
            }
            match self {
                BinaryTrie::Node(left, right, end) => {
                    let ghost l0 = **left;
                    let ghost r0 = **right;
                    *end = true;
                    proof {
                        assert forall|u: Seq<bool>|
                            #[trigger] self.has(u) == (u == suffix || old(self).has(u)) by {
                            if u.len() == 0 {
                                assert(u =~= suffix);
                                assert(self.has(u));
                            } else {
                                let d = u.drop_first();
                                if u[0] {
                                    assert(self.has(u) == r0.has(d));
                                    assert(old(self).has(u) == r0.has(d));
                                } else {
                                    assert(self.has(u) == l0.has(d));
                                    assert(old(self).has(u) == l0.has(d));
                                }
                                assert(u != suffix);
                            }
                        }
                    }
                },
                BinaryTrie::Empty => {
                    *self = BinaryTrie::Node(
                        Box::new(BinaryTrie::Empty),
                        Box::new(BinaryTrie::Empty),
                        true,
                    );
                    proof {
                        assert forall|u: Seq<bool>|
                            #[trigger] self.has(u) == (u == suffix || old(self).has(u)) by {
                            assert(!old(self).has(u));
                            if u.len() == 0 {
                                assert(u =~= suffix);
                                assert(self.has(u));
                            } else {
                                let d = u.drop_first();
                                assert(self.has(u) == BinaryTrie::Empty.has(d));
                                assert(u != suffix);
                            }
                        }
                    }
                },
            }
        }
    }

    /// Whether the bit string `word` is present.
    pub fn contain(&self, word: &[bool]) -> (r: bool)
        ensures
            r == self.has(word@),
    {
        let r = self.contain_(word, 0);
        proof {
            assert(word@.skip(0) =~= word@);
        }
        r
    }

    /// Worker: membership of the suffix of `word` from position `i` on.
    fn contain_(&self, word: &[bool], i: usize) -> (r: bool)
        requires
            i <= word@.len(),
        ensures
            r == self.has(word@.skip(i as int)),
        decreases word@.len() - i,
    {
        let ghost suffix = word@.skip(i as int);
        match self {
            BinaryTrie::Empty => false,
            BinaryTrie::Node(left, right, end) => {
                if i < word.len() {
                    proof {
                        assert(suffix.len() > 0 && suffix[0] == word@[i as int]);
                        assert(suffix.drop_first() =~= word@.skip(i as int + 1));
                    }
                    if word[i] {
                        right.contain_(word, i + 1)
                    } else {
                        left.contain_(word, i + 1)
                    }
                } else {
                    proof {
                        assert(suffix =~= Seq::<bool>::empty());
                    }
                    *end
                }
            },
        }
    }
}

} // verus!
