//! Ordering by integer keys.
use vstd::prelude::*;

verus! {

/// Whether a list names an index.
pub open spec fn names(order: Seq<usize>, v: int) -> bool {
    exists|k: int| 0 <= k < order.len() && #[trigger] order[k] == v
}

/// Whether a list names every index below `n`, and no other.
pub open spec fn covers(order: Seq<usize>, n: int) -> bool {
    &&& order.len() == n
    &&& forall|k: int| 0 <= k < order.len() ==> #[trigger] order[k] < n
    &&& forall|v: int| 0 <= v < n ==> #[trigger] names(order, v)
}

/// Whether the order puts higher keys first, and equal keys by index.
pub open spec fn ranks(keys: Seq<u32>, order: Seq<usize>) -> bool {
    forall|a: int, b: int|
        0 <= a < b < order.len() ==> {
            let x = #[trigger] order[a] as int;
            let y = #[trigger] order[b] as int;
            keys[x] > keys[y] || (keys[x] == keys[y] && x < y)
        }
}

/// Orders the indices of keys from the highest key to the lowest, equal keys
/// as they come.
pub fn rank_order(keys: &Vec<u32>) -> (order: Vec<usize>)
    ensures
        covers(order@, keys@.len() as int),
        ranks(keys@, order@),
{
    let mut order: Vec<usize> = Vec::new();
    let total: usize = keys.len();
    let mut n: usize = 0;
    while n < total
        invariant
            total == keys@.len(),
            n <= total,
            covers(order@, n as int),
            ranks(keys@, order@),
        decreases total - n,
    {
        let mut at: usize = n;
        while at > 0 && keys[order[at - 1]] < keys[n]
            invariant
                total == keys@.len(),
                n < total,
                at <= n,
                covers(order@, n as int),
                forall|k: int| at <= k < n ==> keys@[#[trigger] order@[k] as int] < keys@[n as int],
            decreases at,
        {
            at -= 1;
        }
        let ghost before = order@;
        order.insert(at, n);
        proof {
            lemma_insert(keys@, before, order@, n as int, at as int);
        }
        n += 1;
    }
    order
}

proof fn lemma_insert(
    keys: Seq<u32>,
    before: Seq<usize>,
    after: Seq<usize>,
    n: int,
    at: int,
)
    requires
        0 <= n < keys.len(),
        n <= usize::MAX,
        0 <= at <= n,
        covers(before, n),
        ranks(keys, before),
        after == before.insert(at, n as usize),
        at > 0 ==> keys[before[at - 1] as int] >= keys[n],
        forall|k: int| at <= k < n ==> keys[#[trigger] before[k] as int] < keys[n],
    ensures
        covers(after, n + 1),
        ranks(keys, after),
{
    assert forall|v: int| 0 <= v < n + 1 implies #[trigger] names(after, v) by {
        if v == n {
            assert(after[at] == v);
        } else {
            assert(names(before, v));
            let k = choose|k: int| 0 <= k < before.len() && #[trigger] before[k] == v;
            if k < at {
                assert(after[k] == v);
            } else {
                assert(after[k + 1] == v);
            }
        }
    }
    assert forall|k: int| 0 <= k < n + 1 implies #[trigger] after[k] < n + 1 by {
        if k < at {
            assert(after[k] == before[k]);
        } else if k > at {
            assert(after[k] == before[k - 1]);
        }
    }
    assert forall|a: int, b: int| 0 <= a < b < after.len() implies ({
        let x = #[trigger] after[a] as int;
        let y = #[trigger] after[b] as int;
        keys[x] > keys[y] || (keys[x] == keys[y] && x < y)
    }) by {
        if a < at && b == at {
            assert(after[a] == before[a]);
            if a < at - 1 {
                let x = before[a] as int;
                let y = before[at - 1] as int;
                assert(keys[x] >= keys[y]);
            }
        } else if a < at && b < at {
            assert(after[a] == before[a] && after[b] == before[b]);
        } else if a < at && b > at {
            assert(after[a] == before[a] && after[b] == before[b - 1]);
        } else if a == at {
            assert(after[b] == before[b - 1]);
        } else {
            assert(after[a] == before[a - 1] && after[b] == before[b - 1]);
        }
    }
}

/// Whether `i` is the first index with the highest key.
pub open spec fn is_first_max(keys: Seq<u32>, i: int) -> bool {
    &&& 0 <= i < keys.len()
    &&& forall|j: int|
        0 <= j < keys.len() ==> #[trigger] keys[j] <= keys[i] && (j < i ==> keys[j] < keys[i])
}

/// Finds the first index with the highest key.
pub fn first_max(keys: &[u32]) -> (r: usize)
    requires
        keys@.len() > 0,
    ensures
        is_first_max(keys@, r as int),
{
    let mut best: usize = 0;
    let mut i: usize = 1;
    while i < keys.len()
        invariant
            1 <= i <= keys@.len(),
            best < i,
            forall|j: int|
                0 <= j < i ==> #[trigger] keys@[j] <= keys@[best as int] && (j < best ==> keys@[j]
                    < keys@[best as int]),
        decreases keys@.len() - i,
    {
        if keys[i] > keys[best] {
            best = i;
        }
        i += 1;
    }
    best
}

} // verus!
