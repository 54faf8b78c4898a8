//! Picking one record per id, in id order.

use vstd::prelude::*;

verus! {

/// No earlier record has the same id.
pub open spec fn is_first(ids: Seq<u64>, i: int) -> bool {
    forall|j: int| 0 <= j < i ==> #[trigger] ids[j] != ids[i]
}

/// `order` lists the first record of every id, ids rising.
pub open spec fn picks_first(order: Seq<usize>, ids: Seq<u64>) -> bool {
    &&& forall|a: int| 0 <= a < order.len() ==> (#[trigger] order[a]) < ids.len() && is_first(ids, order[a] as int)
    &&& forall|a: int, b: int|
        #![trigger order[a], order[b]]
        0 <= a < b < order.len() ==> ids[order[a] as int] < ids[order[b] as int]
    &&& forall|i: int|
        0 <= i < ids.len() ==> has_pick(order, ids, #[trigger] ids[i])
}

pub open spec fn has_pick(order: Seq<usize>, ids: Seq<u64>, id: u64) -> bool {
    exists|a: int| 0 <= a < order.len() && ids[(#[trigger] order[a]) as int] == id
}

/// The first record of every id, ids rising.
pub fn first_by_id(ids: &Vec<u64>) -> (order: Vec<usize>)
    ensures
        picks_first(order@, ids@),
{
    let mut order: Vec<usize> = Vec::new();
    let mut n: usize = 0;
    while n < ids.len()
        invariant
            n <= ids@.len(),
            picks_first(order@, ids@.take(n as int)),
        decreases ids@.len() - n,
    {
        let ghost before = order@;
        let ghost seen = ids@.take(n as int);
        let id: u64 = ids[n];
        let mut at: usize = order.len();
        while at > 0 && ids[order[at - 1]] > id
            invariant
                at <= order@.len(),
                order@ == before,
                n < ids@.len(),
                id == ids@[n as int],
                picks_first(before, ids@.take(n as int)),
                forall|b: int|
                    at <= b < before.len() ==> ids@[(#[trigger] before[b]) as int] > id,
                forall|b: int| 0 <= b < before.len() ==> (#[trigger] before[b]) < n,
            decreases at,
        {
            at = at - 1;
        }
        let ghost next = ids@.take(n + 1);
        if at > 0 && ids[order[at - 1]] == id {
            proof {
                lemma_pick_known(before, ids@, n as int, at - 1);
            }
        } else {
            order.insert(at, n);
            proof {
                lemma_pick_new(before, order@, ids@, n as int, at as int);
            }
        }
        n = n + 1;
    }
    assert(ids@.take(ids@.len() as int) =~= ids@);
    order
}

proof fn lemma_pick_known(order: Seq<usize>, ids: Seq<u64>, n: int, k: int)
    requires
        0 <= n < ids.len(),
        picks_first(order, ids.take(n)),
        0 <= k < order.len(),
        ids[order[k] as int] == ids[n],
    ensures
        picks_first(order, ids.take(n + 1)),
{
    let seen = ids.take(n);
    let next = ids.take(n + 1);
    assert forall|a: int| 0 <= a < order.len() implies (#[trigger] order[a]) < next.len()
        && is_first(next, order[a] as int) by {
        assert(is_first(seen, order[a] as int));
        assert forall|j: int| 0 <= j < order[a] implies #[trigger] next[j] != next[order[a] as int] by {
            assert(seen[j] != seen[order[a] as int]);
        }
    }
    assert forall|a: int, b: int|
        #![trigger order[a], order[b]]
        0 <= a < b < order.len() implies next[order[a] as int] < next[order[b] as int] by {
        assert(seen[order[a] as int] < seen[order[b] as int]);
    }
    assert forall|i: int| 0 <= i < next.len() implies has_pick(order, next, #[trigger] next[i]) by {
        if i < n {
            assert(has_pick(order, seen, seen[i]));
            let a = choose|a: int|
                0 <= a < order.len() && seen[(#[trigger] order[a]) as int] == seen[i];
            assert(next[order[a] as int] == next[i]);
        } else {
            assert(next[order[k] as int] == next[i]);
        }
    }
}

proof fn lemma_pick_new(order: Seq<usize>, grown: Seq<usize>, ids: Seq<u64>, n: int, at: int)
    requires
        0 <= n < ids.len(),
        n <= usize::MAX,
        picks_first(order, ids.take(n)),
        0 <= at <= order.len(),
        grown == order.insert(at, n as usize),
        forall|b: int| at <= b < order.len() ==> ids[(#[trigger] order[b]) as int] > ids[n],
        at > 0 ==> ids[order[at - 1] as int] < ids[n],
    ensures
        picks_first(grown, ids.take(n + 1)),
{
    let seen = ids.take(n);
    let next = ids.take(n + 1);
    assert forall|a: int| 0 <= a < at implies ids[(#[trigger] order[a]) as int] < ids[n] by {
        if a < at - 1 {
            assert(seen[order[a] as int] < seen[order[at - 1] as int]);
        }
    }
    assert(is_first(next, n)) by {
        assert forall|j: int| 0 <= j < n implies #[trigger] next[j] != next[n] by {
            assert(has_pick(order, seen, seen[j]));
            let a = choose|a: int|
                0 <= a < order.len() && seen[(#[trigger] order[a]) as int] == seen[j];
            assert(ids[order[a] as int] != ids[n]);
        }
    }
    assert forall|a: int| 0 <= a < grown.len() implies (#[trigger] grown[a]) < next.len()
        && is_first(next, grown[a] as int) by {
        if a != at {
            let b = if a < at {
                a
            } else {
                a - 1
            };
            assert(grown[a] == order[b]);
            assert(is_first(seen, order[b] as int));
            assert forall|j: int| 0 <= j < grown[a] implies #[trigger] next[j]
                != next[grown[a] as int] by {
                assert(seen[j] != seen[order[b] as int]);
            }
        }
    }
    assert forall|a: int, b: int|
        #![trigger grown[a], grown[b]]
        0 <= a < b < grown.len() implies next[grown[a] as int] < next[grown[b] as int] by {
        let x = if a < at {
            a
        } else {
            a - 1
        };
        let y = if b < at {
            b
        } else {
            b - 1
        };
        if a != at {
            assert(grown[a] == order[x]);
        }
        if b != at {
            assert(grown[b] == order[y]);
        }
        if a != at && b != at {
            assert(seen[order[x] as int] < seen[order[y] as int]);
        }
    }
    assert forall|i: int| 0 <= i < next.len() implies has_pick(grown, next, #[trigger] next[i]) by {
        if i < n {
            assert(has_pick(order, seen, seen[i]));
            let a = choose|a: int|
                0 <= a < order.len() && seen[(#[trigger] order[a]) as int] == seen[i];
            let b = if a < at {
                a
            } else {
                a + 1
            };
            assert(grown[b] == order[a]);
            assert(next[grown[b] as int] == next[i]);
        } else {
            assert(next[grown[at] as int] == next[i]);
        }
    }
}

/// Only one order picks the first record of every id.
pub proof fn law_picks_are_unique(a: Seq<usize>, b: Seq<usize>, ids: Seq<u64>)
    requires
        picks_first(a, ids),
        picks_first(b, ids),
    ensures
        a == b,
    decreases a.len(),
{
    lemma_pick_shared(a, b, ids);
    lemma_pick_shared(b, a, ids);
    lemma_same_picks(a, b, ids);
}

proof fn lemma_pick_shared(a: Seq<usize>, b: Seq<usize>, ids: Seq<u64>)
    requires
        picks_first(a, ids),
        picks_first(b, ids),
    ensures
        forall|i: int| 0 <= i < a.len() ==> b.contains(#[trigger] a[i]),
{
    assert forall|i: int| 0 <= i < a.len() implies b.contains(#[trigger] a[i]) by {
        let x = a[i] as int;
        assert(has_pick(b, ids, ids[x]));
        let k = choose|k: int| 0 <= k < b.len() && ids[(#[trigger] b[k]) as int] == ids[x];
        let y = b[k] as int;
        assert(is_first(ids, x) && is_first(ids, y));
        if x < y {
            assert(ids[x] != ids[y]);
        } else if y < x {
            assert(ids[y] != ids[x]);
        }
        assert(b[k] == a[i]);
    }
}

proof fn lemma_same_picks(a: Seq<usize>, b: Seq<usize>, ids: Seq<u64>)
    requires
        forall|i: int, j: int|
            #![trigger a[i], a[j]]
            0 <= i < j < a.len() ==> ids[a[i] as int] < ids[a[j] as int],
        forall|i: int, j: int|
            #![trigger b[i], b[j]]
            0 <= i < j < b.len() ==> ids[b[i] as int] < ids[b[j] as int],
        forall|i: int| 0 <= i < a.len() ==> b.contains(#[trigger] a[i]),
        forall|i: int| 0 <= i < b.len() ==> a.contains(#[trigger] b[i]),
    ensures
        a == b,
    decreases a.len(),
{
    if a.len() == 0 {
        if b.len() > 0 {
            assert(a.contains(b[0]));
        }
        assert(a =~= b);
    } else {
        assert(b.contains(a[0]));
        let x = a.len() - 1;
        let y = b.len() - 1;
        let p = b.index_of(a[x]);
        assert(b[p] == a[x]);
        assert(a.contains(b[y]));
        let q = a.index_of(b[y]);
        assert(a[q] == b[y]);
        if p < y {
            assert(ids[b[p] as int] < ids[b[y] as int]);
            if q < x {
                assert(ids[a[q] as int] < ids[a[x] as int]);
            }
        }
        assert(a[x] == b[y]);
        let c = a.drop_last();
        let d = b.drop_last();
        assert forall|i: int| 0 <= i < c.len() implies d.contains(#[trigger] c[i]) by {
            assert(b.contains(a[i]));
            let k = b.index_of(a[i]);
            assert(b[k] == a[i]);
            assert(ids[a[i] as int] < ids[a[x] as int]);
            assert(k != y);
            assert(d[k] == c[i]);
        }
        assert forall|i: int| 0 <= i < d.len() implies c.contains(#[trigger] d[i]) by {
            assert(a.contains(b[i]));
            let k = a.index_of(b[i]);
            assert(a[k] == b[i]);
            assert(ids[b[i] as int] < ids[b[y] as int]);
            assert(k != x);
            assert(c[k] == d[i]);
        }
        lemma_same_picks(c, d, ids);
        assert(a =~= c.push(a[x]));
        assert(b =~= d.push(b[y]));
    }
}

} // verus!
