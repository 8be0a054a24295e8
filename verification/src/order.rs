//! Stable ordering by a floating-point key.

use vstd::prelude::*;

use crate::float::F64;

verus! {

/// Where index `i` goes among the first `n` entries of `order`, which are in
/// ascending order of their keys: behind every entry whose key is not greater.
pub open spec fn place(keys: Seq<F64>, order: Seq<int>, i: int, n: nat) -> int
    decreases n,
{
    if n == 0 || !keys[i].lt(keys[order[n - 1]]) {
        n as int
    } else {
        place(keys, order, i, (n - 1) as nat)
    }
}

/// The first `n` indices in ascending order of their keys, equal keys in the
/// order of the indices.
pub open spec fn ordered(keys: Seq<F64>, n: nat) -> Seq<int>
    decreases n,
{
    if n == 0 {
        Seq::empty()
    } else {
        let before = ordered(keys, (n - 1) as nat);
        before.insert(place(keys, before, n - 1, before.len()), n - 1)
    }
}

/// The indices of `keys` in ascending order of the keys, equal keys in the order
/// of the indices.
pub fn stable_order(keys: &Vec<F64>) -> (r: Vec<usize>)
    ensures
        r@.len() == keys@.len(),
        r@.map_values(|i: usize| i as int) == ordered(keys@, keys@.len()),
        forall|k: int| 0 <= k < r@.len() ==> (#[trigger] r@[k]) < keys@.len(),
{
    let mut order: Vec<usize> = Vec::new();
    for i in 0..keys.len()
        invariant
            order@.len() == i,
            order@.map_values(|j: usize| j as int) == ordered(keys@, i as nat),
            forall|k: int| 0 <= k < order@.len() ==> (#[trigger] order@[k]) < keys@.len(),
    {
        let ghost before = ordered(keys@, i as nat);
        let mut at: usize = order.len();
        while at > 0 && keys[i].lt(keys[order[at - 1]])
            invariant
                i < keys@.len(),
                at <= order@.len(),
                order@.map_values(|j: usize| j as int) == before,
                forall|k: int| 0 <= k < order@.len() ==> (#[trigger] order@[k]) < keys@.len(),
                place(keys@, before, i as int, before.len()) == place(
                    keys@,
                    before,
                    i as int,
                    at as nat,
                ),
            decreases at,
        {
            proof {
                assert(before[at - 1] == order@[at - 1] as int);
            }
            at -= 1;
        }
        proof {
            if at > 0 {
                assert(before[at - 1] == order@[at - 1] as int);
            }
            assert(place(keys@, before, i as int, at as nat) == at);
        }
        let ghost old_order = order@;
        order.insert(at, i);
        proof {
            assert(order@.map_values(|j: usize| j as int) =~= before.insert(at as int, i as int));
            assert forall|k: int| 0 <= k < order@.len() implies (#[trigger] order@[k])
                < keys@.len() by {
                if k < at {
                    assert(order@[k] == old_order[k]);
                } else if k > at {
                    assert(order@[k] == old_order[k - 1]);
                }
            }
        }
    }
    order
}

/// `order` lists the indices below `n` once each, in ascending order of their
/// keys, equal keys in ascending order of the indices.
pub open spec fn is_stable_order(keys: Seq<F64>, order: Seq<int>, n: nat) -> bool {
    &&& order.len() == n
    &&& forall|k: int| 0 <= k < n ==> 0 <= #[trigger] order[k] < n
    &&& forall|j: int, k: int|
        #![trigger order[j], order[k]]
        0 <= j < k < n ==> {
            &&& order[j] != order[k]
            &&& keys[order[j]].le(keys[order[k]])
            &&& keys[order[k]].le(keys[order[j]]) ==> order[j] < order[k]
        }
}

/// Without NaN keys, the result is the stable ascending order.
pub proof fn law_order_is_stable_and_ascending(keys: Seq<F64>, n: nat)
    requires
        n <= keys.len(),
        forall|i: int| 0 <= i < keys.len() ==> !(#[trigger] keys[i]).is_nan(),
    ensures
        is_stable_order(keys, ordered(keys, n), n),
    decreases n,
{
    if n > 0 {
        let m = (n - 1) as nat;
        law_order_is_stable_and_ascending(keys, m);
        let before = ordered(keys, m);
        let at = place(keys, before, m as int, m);
        lemma_place(keys, before, m as int, m);
        let after = before.insert(at, m as int);
        assert forall|k: int| 0 <= k < n implies 0 <= #[trigger] after[k] < n by {
            if k < at {
                assert(after[k] == before[k]);
            } else if k > at {
                assert(after[k] == before[k - 1]);
            }
        }
        assert forall|j: int, k: int|
            #![trigger after[j], after[k]]
            0 <= j < k < n implies {
            &&& after[j] != after[k]
            &&& keys[after[j]].le(keys[after[k]])
            &&& keys[after[k]].le(keys[after[j]]) ==> after[j] < after[k]
        } by {
            let bj = if j < at {
                before[j]
            } else {
                before[j - 1]
            };
            let bk = if k < at {
                before[k]
            } else {
                before[k - 1]
            };
            assert(after[j] == (if j == at {
                m as int
            } else {
                bj
            }));
            assert(after[k] == (if k == at {
                m as int
            } else {
                bk
            }));
        }
    }
}

/// An order of the first `n` indices holds each of them.
pub proof fn lemma_order_is_complete(keys: Seq<F64>, n: nat, i: int)
    requires
        0 <= i < n,
    ensures
        ordered(keys, n).contains(i),
        ordered(keys, n).len() == n,
    decreases n,
{
    let before = ordered(keys, (n - 1) as nat);
    let now = ordered(keys, n);
    lemma_order_len(keys, (n - 1) as nat);
    let at = place(keys, before, n - 1, before.len());
    lemma_place_range(keys, before, n - 1, before.len());
    if i == n - 1 {
        assert(now[at] == i);
    } else {
        lemma_order_is_complete(keys, (n - 1) as nat, i);
        let k = choose|k: int| 0 <= k < before.len() && before[k] == i;
        if k < at {
            assert(now[k] == i);
        } else {
            assert(now[k + 1] == i);
        }
    }
}

/// An order has one entry per index.
pub proof fn lemma_order_len(keys: Seq<F64>, n: nat)
    ensures
        ordered(keys, n).len() == n,
    decreases n,
{
    if n > 0 {
        lemma_order_len(keys, (n - 1) as nat);
        let before = ordered(keys, (n - 1) as nat);
        lemma_place_range(keys, before, n - 1, before.len());
    }
}

/// A place lies among the entries.
pub proof fn lemma_place_range(keys: Seq<F64>, order: Seq<int>, i: int, n: nat)
    ensures
        0 <= place(keys, order, i, n) <= n,
    decreases n,
{
    if n > 0 && keys[i].lt(keys[order[n - 1]]) {
        lemma_place_range(keys, order, i, (n - 1) as nat);
    }
}

/// What a place says of the entries before and behind it.
proof fn lemma_place(keys: Seq<F64>, order: Seq<int>, i: int, n: nat)
    requires
        is_stable_order(keys, order, order.len()),
        n <= order.len(),
        order.len() <= i < keys.len(),
        forall|k: int| 0 <= k < keys.len() ==> !(#[trigger] keys[k]).is_nan(),
        forall|k: int| n <= k < order.len() ==> keys[i].lt(keys[#[trigger] order[k]]),
    ensures
        0 <= place(keys, order, i, n) <= order.len(),
        forall|k: int|
            0 <= k < place(keys, order, i, n) ==> keys[#[trigger] order[k]].le(keys[i]),
        forall|k: int|
            place(keys, order, i, n) <= k < order.len() ==> keys[i].lt(keys[#[trigger] order[k]]),
    decreases n,
{
    if n == 0 || !keys[i].lt(keys[order[n - 1]]) {
        if n > 0 {
            assert forall|k: int| 0 <= k < n implies keys[#[trigger] order[k]].le(keys[i]) by {
                let last = order[n - 1];
                assert(0 <= last < order.len());
                assert(0 <= order[k] < order.len());
                assert(!keys[last].is_nan() && !keys[order[k]].is_nan() && !keys[i].is_nan());
                if k < n - 1 {
                    assert(keys[order[k]].le(keys[last]));
                }
            }
        }
    } else {
        lemma_place(keys, order, i, (n - 1) as nat);
    }
}

} // verus!
