//! A stable sort by a `(start, end)` key, as the order in which to visit a
//! list rather than a reordering of it: the merge sorts lists whose items own
//! strings, and visiting them in order reads the same as moving them.

use vstd::prelude::*;

verus! {

/// Whether key `x` sorts strictly before key `y`: by start, then by end.
pub open spec fn key_lt(x: (usize, usize), y: (usize, usize)) -> bool {
    x.0 < y.0 || (x.0 == y.0 && x.1 < y.1)
}

/// Whether item `x` of `keys` comes before item `y` in a stable sort: by its
/// key, and between equal keys by where it stood.
pub open spec fn before(keys: Seq<(usize, usize)>, x: int, y: int) -> bool {
    key_lt(keys[x], keys[y]) || (keys[x] == keys[y] && x < y)
}

/// `order` visits each of `0..keys.len()` once, in the order of a stable
/// sort by key.
pub open spec fn sorted_order(keys: Seq<(usize, usize)>, order: Seq<usize>) -> bool {
    &&& order.len() == keys.len()
    &&& forall|i: int| 0 <= i < order.len() ==> (#[trigger] order[i]) < keys.len()
    &&& forall|i: int, j: int|
        0 <= i < j < order.len() ==> before(keys, #[trigger] order[i] as int, #[trigger] order[j] as int)
    &&& forall|x: int| 0 <= x < keys.len() ==> #[trigger] visits(order, x)
}

/// Some position of `order` holds `x`.
pub open spec fn visits(order: Seq<usize>, x: int) -> bool {
    exists|p: int| 0 <= p < order.len() && order[p] == x
}

/// Distinct positions of a stable order hold distinct items.
pub proof fn lemma_order_distinct(keys: Seq<(usize, usize)>, order: Seq<usize>, i: int, j: int)
    requires
        sorted_order(keys, order),
        0 <= i < order.len(),
        0 <= j < order.len(),
        i != j,
    ensures
        order[i] != order[j],
{
    if i < j {
        assert(before(keys, order[i] as int, order[j] as int));
    } else {
        assert(before(keys, order[j] as int, order[i] as int));
    }
}

/// The exec form of `key_lt`.
fn key_less(x: (usize, usize), y: (usize, usize)) -> (r: bool)
    ensures
        r == key_lt(x, y),
{
    x.0 < y.0 || (x.0 == y.0 && x.1 < y.1)
}

/// The order of a stable sort of `keys`, by insertion.
pub fn sort_order(keys: &Vec<(usize, usize)>) -> (order: Vec<usize>)
    ensures
        sorted_order(keys@, order@),
{
    let n = keys.len();
    let ghost k = keys@;
    let mut order: Vec<usize> = Vec::new();
    let mut i: usize = 0;
    while i < n
        invariant
            i <= n == k.len(),
            k == keys@,
            order@.len() == i,
            forall|a: int| 0 <= a < i ==> order@[a] == a,
        decreases n - i,
    {
        order.push(i);
        i = i + 1;
    }
    proof {
        assert forall|x: int| 0 <= x < n implies #[trigger] visits(order@, x) by {
            assert(order@[x] == x);
        }
    }
    let mut i: usize = 0;
    while i < n
        invariant
            i <= n == k.len() == order@.len(),
            k == keys@,
            forall|a: int| i <= a < n ==> order@[a] == a,
            forall|a: int| 0 <= a < i ==> order@[a] < i,
            forall|a: int, b: int|
                0 <= a < b < i ==> before(k, #[trigger] order@[a] as int, #[trigger] order@[b] as int),
            forall|x: int| 0 <= x < n ==> #[trigger] visits(order@, x),
        decreases n - i,
    {
        let mut j: usize = i;
        while j > 0 && key_less(keys[order[j]], keys[order[j - 1]])
            invariant
                j <= i < n == k.len() == order@.len(),
                k == keys@,
                order@[j as int] == i,
                forall|a: int| i < a < n ==> order@[a] == a,
                forall|a: int| 0 <= a <= i && a != j ==> order@[a] < i,
                forall|a: int, b: int|
                    0 <= a < b <= i && a != j && b != j ==> before(
                        k,
                        #[trigger] order@[a] as int,
                        #[trigger] order@[b] as int,
                    ),
                forall|b: int| j < b <= i ==> before(k, i as int, #[trigger] order@[b] as int),
                forall|x: int| 0 <= x < n ==> #[trigger] visits(order@, x),
            decreases j,
        {
            let x = order[j];
            let y = order[j - 1];
            let ghost prev = order@;
            order[j] = y;
            order[j - 1] = x;
            proof {
                assert forall|z: int| 0 <= z < n implies #[trigger] visits(order@, z) by {
                    assert(visits(prev, z));
                    let p = choose|p: int| 0 <= p < prev.len() && prev[p] == z;
                    if p == j {
                        assert(order@[j - 1] == z);
                    } else if p == j - 1 {
                        assert(order@[j as int] == z);
                    } else {
                        assert(order@[p] == z);
                    }
                }
            }
            j = j - 1;
        }
        proof {
            if j > 0 {
                assert(order@[j - 1] < i);
                assert(before(k, order@[j - 1] as int, i as int));
            }
            assert forall|a: int, b: int| 0 <= a < b <= i implies before(
                k,
                #[trigger] order@[a] as int,
                #[trigger] order@[b] as int,
            ) by {
                if b == j && a < j {
                    if a < j - 1 {
                        assert(before(k, order@[a] as int, order@[j - 1] as int));
                    }
                }
            }
        }
        i = i + 1;
    }
    order
}

} // verus!
