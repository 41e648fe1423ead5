//! Stable ordering of items by a pair of integer keys.

use vstd::prelude::*;

verus! {

/// Item `i` comes before item `j`: a smaller key, compared first by its
/// first part, then by its second, or an equal key and a smaller index.
pub open spec fn key_before(keys: Seq<(u64, u64)>, i: int, j: int) -> bool {
    keys[i].0 < keys[j].0 || (keys[i].0 == keys[j].0 && (keys[i].1 < keys[j].1 || (keys[i].1
        == keys[j].1 && i < j)))
}

/// `order` lists every index of `keys` once, ordered by key, and items with
/// equal keys in the order in which they stand in `keys`: what a stable sort
/// by key makes of the indices.
pub open spec fn is_stable_order(keys: Seq<(u64, u64)>, order: Seq<usize>) -> bool {
    &&& order.len() == keys.len()
    &&& forall|a: int| 0 <= a < order.len() ==> #[trigger] order[a] < keys.len()
    &&& forall|k: usize| k < keys.len() ==> #[trigger] order.contains(k)
    &&& forall|a: int, b: int|
        0 <= a < b < order.len() ==> key_before(keys, #[trigger] order[a] as int, #[trigger] order[b] as int)
}

/// Whether key `a` is greater than key `b`.
fn key_greater(a: (u64, u64), b: (u64, u64)) -> (r: bool)
    ensures
        r == (a.0 > b.0 || (a.0 == b.0 && a.1 > b.1)),
{
    a.0 > b.0 || (a.0 == b.0 && a.1 > b.1)
}

/// The indices of `keys` in the order of a stable sort by key.
pub fn stable_order(keys: &Vec<(u64, u64)>) -> (r: Vec<usize>)
    ensures
        is_stable_order(keys@, r@),
{
    let n = keys.len();
    let mut order: Vec<usize> = Vec::new();
    for i in 0..n
        invariant
            n == keys@.len(),
            order@.len() == i,
            forall|a: int| 0 <= a < order@.len() ==> #[trigger] order@[a] < i,
            forall|k: usize| k < i ==> #[trigger] order@.contains(k),
            forall|a: int, b: int|
                0 <= a < b < order@.len() ==> key_before(keys@, #[trigger] order@[a] as int, #[trigger] order@[b] as int),
    {
        let mut p = order.len();
        while p > 0 && key_greater(keys[order[p - 1]], keys[i])
            invariant
                n == keys@.len(),
                i < n,
                order@.len() == i,
                p <= order@.len(),
                forall|a: int| 0 <= a < order@.len() ==> #[trigger] order@[a] < i,
                forall|q: int| p <= q < order@.len() ==> key_before(keys@, i as int, #[trigger] order@[q] as int),
            decreases p,
        {
            p = p - 1;
        }
        proof {
            assert forall|q: int| 0 <= q < p implies key_before(keys@, #[trigger] order@[q] as int, i as int) by {
                if q < p - 1 {
                    assert(key_before(keys@, order@[q] as int, order@[p - 1] as int));
                }
            }
        }
        let ghost old_order = order@;
        order.insert(p, i);
        proof {
            assert forall|k: usize| k < i + 1 implies #[trigger] order@.contains(k) by {
                if k < i {
                    assert(old_order.contains(k));
                    let j = choose|j: int| 0 <= j < old_order.len() && old_order[j] == k;
                    if j < p {
                        assert(order@[j] == k);
                    } else {
                        assert(order@[j + 1] == k);
                    }
                } else {
                    assert(order@[p as int] == i);
                }
            }
            assert forall|a: int| 0 <= a < order@.len() implies #[trigger] order@[a] < i + 1 by {
                if a < p {
                    assert(order@[a] == old_order[a]);
                } else if a > p {
                    assert(order@[a] == old_order[a - 1]);
                }
            }
            assert forall|a: int, b: int|
                0 <= a < b < order@.len() implies key_before(keys@, #[trigger] order@[a] as int, #[trigger] order@[b] as int) by {
                if b < p {
                    assert(order@[a] == old_order[a] && order@[b] == old_order[b]);
                } else if b == p {
                    assert(order@[a] == old_order[a]);
                } else if a < p {
                    assert(order@[a] == old_order[a] && order@[b] == old_order[b - 1]);
                    assert(key_before(keys@, old_order[a] as int, i as int));
                } else if a == p {
                    assert(order@[b] == old_order[b - 1]);
                } else {
                    assert(order@[a] == old_order[a - 1] && order@[b] == old_order[b - 1]);
                }
            }
        }
    }
    order
}


/// Every two entries of `order` stand in key order.
pub open spec fn strictly_sorted(keys: Seq<(u64, u64)>, order: Seq<usize>) -> bool {
    forall|a: int, b: int|
        0 <= a < b < order.len() ==> key_before(keys, #[trigger] order[a] as int, #[trigger] order[b] as int)
}

proof fn lemma_sorted_same_members_equal(keys: Seq<(u64, u64)>, o1: Seq<usize>, o2: Seq<usize>)
    requires
        strictly_sorted(keys, o1),
        strictly_sorted(keys, o2),
        forall|x: usize| #![trigger o1.contains(x)] #![trigger o2.contains(x)] o1.contains(x) <==> o2.contains(x),
    ensures
        o1 == o2,
    decreases o1.len(),
{
    if o1.len() == 0 {
        if o2.len() > 0 {
            assert(o2.contains(o2[0]));
        }
        assert(o1 =~= o2);
    } else {
        assert(o1.contains(o1[0]));
        assert(o2.len() > 0);
        assert(o2.contains(o2[0]));
        let x = o1[0];
        let y = o2[0];
        if x != y {
            let p = choose|p: int| 0 <= p < o1.len() && o1[p] == y;
            let q = choose|q: int| 0 <= q < o2.len() && o2[q] == x;
            assert(key_before(keys, x as int, y as int));
            assert(key_before(keys, y as int, x as int));
        }
        let r1 = o1.drop_first();
        let r2 = o2.drop_first();
        assert forall|x2: usize| #![trigger r1.contains(x2)] #![trigger r2.contains(x2)] r1.contains(x2) <==> r2.contains(x2) by {
            if r1.contains(x2) {
                let p = choose|p: int| 0 <= p < r1.len() && r1[p] == x2;
                assert(o1[p + 1] == x2);
                assert(key_before(keys, o1[0] as int, o1[p + 1] as int));
                assert(o2.contains(x2));
                let q = choose|q: int| 0 <= q < o2.len() && o2[q] == x2;
                assert(q != 0);
                assert(r2[q - 1] == x2);
            }
            if r2.contains(x2) {
                let p = choose|p: int| 0 <= p < r2.len() && r2[p] == x2;
                assert(o2[p + 1] == x2);
                assert(key_before(keys, o2[0] as int, o2[p + 1] as int));
                assert(o1.contains(x2));
                let q = choose|q: int| 0 <= q < o1.len() && o1[q] == x2;
                assert(q != 0);
                assert(r1[q - 1] == x2);
            }
        }
        assert(strictly_sorted(keys, r1)) by {
            assert forall|a: int, b: int| 0 <= a < b < r1.len() implies key_before(keys, #[trigger] r1[a] as int, #[trigger] r1[b] as int) by {
                assert(r1[a] == o1[a + 1] && r1[b] == o1[b + 1]);
            }
        }
        assert(strictly_sorted(keys, r2)) by {
            assert forall|a: int, b: int| 0 <= a < b < r2.len() implies key_before(keys, #[trigger] r2[a] as int, #[trigger] r2[b] as int) by {
                assert(r2[a] == o2[a + 1] && r2[b] == o2[b + 1]);
            }
        }
        lemma_sorted_same_members_equal(keys, r1, r2);
        assert(o1 =~= o2) by {
            assert forall|i: int| 0 <= i < o1.len() implies o1[i] == o2[i] by {
                if i > 0 {
                    assert(o1[i] == r1[i - 1] && o2[i] == r2[i - 1]);
                }
            }
        }
    }
}

/// There is only one stable order of given keys: the contract of
/// `stable_order` determines its result.
pub proof fn lemma_stable_order_unique(keys: Seq<(u64, u64)>, o1: Seq<usize>, o2: Seq<usize>)
    requires
        is_stable_order(keys, o1),
        is_stable_order(keys, o2),
    ensures
        o1 == o2,
{
    assert forall|x: usize| #![trigger o1.contains(x)] #![trigger o2.contains(x)] o1.contains(x) <==> o2.contains(x) by {
        if o1.contains(x) {
            let p = choose|p: int| 0 <= p < o1.len() && o1[p] == x;
            assert(x < keys.len());
        }
        if o2.contains(x) {
            let p = choose|p: int| 0 <= p < o2.len() && o2[p] == x;
            assert(x < keys.len());
        }
    }
    lemma_sorted_same_members_equal(keys, o1, o2);
}

} // verus!
