//! Sliding-window minimum over a vector, by the monotone-deque technique:
//! each output is the least element of one width-sized window.

use std::collections::VecDeque;

use vstd::prelude::*;

verus! {

/// `m` is the least value of `a[s..t)`.
pub open spec fn is_window_min(a: Seq<i64>, s: int, t: int, m: i64) -> bool {
    &&& exists|j: int| s <= j < t && #[trigger] a[j] == m
    &&& forall|j: int| s <= j < t ==> m <= #[trigger] a[j]
}

/// Some deque entry at or after position `j` has a value no larger than
/// `a[j]`.
pub open spec fn covered(a: Seq<i64>, d: Seq<(i64, usize)>, j: int) -> bool {
    exists|k: int| 0 <= k < d.len() && j <= (#[trigger] d[k]).1 && d[k].0 <= a[j]
}

/// The deque invariant while the window `[s, t)` is loaded: entries carry
/// window positions with their values, both strictly increasing, and every
/// window element is dominated by some entry at or after it.
pub open spec fn deque_ok(a: Seq<i64>, d: Seq<(i64, usize)>, s: int, t: int) -> bool {
    &&& forall|k: int|
        0 <= k < d.len() ==> s <= (#[trigger] d[k]).1 < t && d[k].0 == a[d[k].1 as int]
    &&& forall|k1: int, k2: int|
        0 <= k1 < k2 < d.len() ==> (#[trigger] d[k1]).1 < (#[trigger] d[k2]).1 && d[k1].0
            < d[k2].0
    &&& forall|j: int| s <= j < t ==> #[trigger] covered(a, d, j)
}

/// With the window loaded, the front entry is the window minimum.
#[verifier::rlimit(100)]
proof fn lemma_front_min(a: Seq<i64>, d: Seq<(i64, usize)>, s: int, t: int)
    requires
        deque_ok(a, d, s, t),
        s < t,
        0 <= s,
        t <= a.len(),
    ensures
        d.len() > 0,
        is_window_min(a, s, t, d[0].0),
{
    assert(covered(a, d, s));
    assert(a[d[0].1 as int] == d[0].0);
    assert forall|j: int| s <= j < t implies d[0].0 <= #[trigger] a[j] by {
        assert(covered(a, d, j));
        let k = choose|k: int| 0 <= k < d.len() && j <= (#[trigger] d[k]).1 && d[k].0 <= a[j];
        if k > 0 {
            assert(d[0].0 < d[k].0);
        }
    }
}

/// Strikes dominated entries off the back, then appends `a[t]`: the window
/// grows by one on the right.
#[verifier::rlimit(100)]
fn deque_add(set: &mut VecDeque<(i64, usize)>, a: &Vec<i64>, s: usize, t: usize)
    requires
        deque_ok(a@, old(set)@, s as int, t as int),
        s <= t < a@.len(),
    ensures
        deque_ok(a@, final(set)@, s as int, t + 1),
{
    let e = a[t];
    while set.len() > 0 && set[set.len() - 1].0 >= e
        invariant
            e == a@[t as int],
            s <= t < a@.len(),
            forall|k: int|
                0 <= k < set@.len() ==> s <= (#[trigger] set@[k]).1 < t && set@[k].0
                    == a@[set@[k].1 as int],
            forall|k1: int, k2: int|
                0 <= k1 < k2 < set@.len() ==> (#[trigger] set@[k1]).1 < (#[trigger] set@[k2]).1
                    && set@[k1].0 < set@[k2].0,
            forall|j: int|
                s <= j < t ==> (#[trigger] covered(a@, set@, j)) || e <= a@[j],
        decreases set.len(),
    {
        let ghost pre = set@;
        set.pop_back();
        proof {
            assert forall|j: int|
                s <= j < t implies (#[trigger] covered(a@, set@, j)) || e <= a@[j] by {
                if covered(a@, pre, j) {
                    let k = choose|k: int|
                        0 <= k < pre.len() && j <= (#[trigger] pre[k]).1 && pre[k].0 <= a@[j];
                    if k < pre.len() - 1 {
                        assert(set@[k] == pre[k]);
                        assert(j <= (#[trigger] set@[k]).1 && set@[k].0 <= a@[j]);
                        assert(covered(a@, set@, j));
                    } else {
                        assert(e <= pre[k].0);
                    }
                }
            }
        }
    }
    let ghost mid = set@;
    set.push_back((e, t));
    proof {
        assert forall|j: int|
            s <= j < t + 1 implies #[trigger] covered(a@, set@, j) by {
            let last = set@.len() - 1;
            if j == t {
                assert(j <= (#[trigger] set@[last]).1 && set@[last].0 <= a@[j]);
            } else {
                if covered(a@, mid, j) {
                    let k = choose|k: int|
                        0 <= k < mid.len() && j <= (#[trigger] mid[k]).1 && mid[k].0 <= a@[j];
                    assert(set@[k] == mid[k]);
                    assert(j <= (#[trigger] set@[k]).1 && set@[k].0 <= a@[j]);
                } else {
                    assert(e <= a@[j]);
                    assert(j <= (#[trigger] set@[last]).1 && set@[last].0 <= a@[j]);
                }
            }
        }
        // the appended entry extends both orders: every earlier value is
        // below the struck threshold
        assert forall|k1: int, k2: int|
            0 <= k1 < k2 < set@.len() implies (#[trigger] set@[k1]).1 < (#[trigger] set@[k2]).1
            && set@[k1].0 < set@[k2].0 by {
            if k2 == set@.len() - 1 && mid.len() > 0 && k1 < mid.len() - 1 {
                assert(mid[k1].0 < mid[mid.len() - 1].0);
            }
        }
    }
}

/// Drops front entries that fell out of the window: the window start moves
/// up to `s2`.
#[verifier::rlimit(100)]
fn deque_evict(set: &mut VecDeque<(i64, usize)>, a: &Vec<i64>, s: usize, s2: usize, t: usize)
    requires
        deque_ok(a@, old(set)@, s as int, t as int),
        s <= s2 <= t,
        t <= a@.len(),
    ensures
        deque_ok(a@, final(set)@, s2 as int, t as int),
{
    while set.len() > 0 && set[0].1 < s2
        invariant
            s <= s2 <= t <= a@.len(),
            forall|k: int|
                0 <= k < set@.len() ==> s <= (#[trigger] set@[k]).1 < t && set@[k].0
                    == a@[set@[k].1 as int],
            forall|k1: int, k2: int|
                0 <= k1 < k2 < set@.len() ==> (#[trigger] set@[k1]).1 < (#[trigger] set@[k2]).1
                    && set@[k1].0 < set@[k2].0,
            forall|j: int| s2 <= j < t ==> #[trigger] covered(a@, set@, j),
        decreases set.len(),
    {
        let ghost pre = set@;
        set.pop_front();
        proof {
            assert forall|j: int|
                s2 <= j < t implies #[trigger] covered(a@, set@, j) by {
                assert(covered(a@, pre, j));
                let k = choose|k: int|
                    0 <= k < pre.len() && j <= (#[trigger] pre[k]).1 && pre[k].0 <= a@[j];
                assert(pre[0].1 < s2 <= j <= pre[k].1);
                assert(k > 0);
                assert(set@[k - 1] == pre[k]);
                assert(j <= (#[trigger] set@[k - 1]).1 && set@[k - 1].0 <= a@[j]);
            }
        }
    }
    proof {
        // whatever is left starts at or after the new window start
        assert forall|k: int|
            0 <= k < set@.len() implies s2 <= (#[trigger] set@[k]).1 < t && set@[k].0
            == a@[set@[k].1 as int] by {
            if set@.len() > 0 && k > 0 {
                assert(set@[0].1 < set@[k].1);
            }
        }
    }
}

/// The minimum of every window of `width` consecutive elements.
#[verifier::rlimit(100)]
pub fn sliding_minimum(a: Vec<i64>, width: usize) -> (res: Vec<i64>)
    requires
        1 <= width <= a@.len(),
    ensures
        res@.len() == a@.len() - width + 1,
        forall|i: int|
            0 <= i < res@.len() ==> is_window_min(a@, i, i + width, #[trigger] res@[i]),
{
    let n = a.len();
    let mut set: VecDeque<(i64, usize)> = VecDeque::new();
    let mut res: Vec<i64> = Vec::new();
    let mut i: usize = 0;
    while i < width
        invariant
            i <= width <= a@.len(),
            deque_ok(a@, set@, 0, i as int),
        decreases width - i,
    {
        deque_add(&mut set, &a, 0, i);
        i = i + 1;
    }
    let mut s: usize = 0;
    while s + width < n
        invariant
            n == a@.len(),
            1 <= width <= n,
            s + width <= n,
            deque_ok(a@, set@, s as int, s + width),
            res@.len() == s,
            forall|k: int|
                0 <= k < res@.len() ==> is_window_min(a@, k, k + width, #[trigger] res@[k]),
        decreases n - s,
    {
        proof {
            lemma_front_min(a@, set@, s as int, s + width);
        }
        let front = set[0];
        res.push(front.0);
        deque_add(&mut set, &a, s, s + width);
        deque_evict(&mut set, &a, s, s + 1, s + width + 1);
        s = s + 1;
    }
    proof {
        lemma_front_min(a@, set@, s as int, s + width);
    }
    let front = set[0];
    res.push(front.0);
    res
}

} // verus!
