//! Keeping the first few of a list in order.

use vstd::prelude::*;

verus! {

/// Items with a total preorder: of any two, one goes no later than the other.
pub trait Ordered: Sized {
    spec fn le(self, other: Self) -> bool;

    proof fn le_total(a: Self, b: Self)
        ensures
            a.le(b) || b.le(a),
    ;

    proof fn le_transitive(a: Self, b: Self, c: Self)
        requires
            a.le(b),
            b.le(c),
        ensures
            a.le(c),
    ;

    fn at_most(&self, other: &Self) -> (r: bool)
        ensures
            r == self.le(*other),
    ;
}

/// `sorted` holds the items of `items` in order, `from[k]` being the position
/// that `sorted[k]` came from. Items that go equally well stay as they were.
pub open spec fn sorts<T: Ordered>(items: Seq<T>, sorted: Seq<T>, from: Seq<int>) -> bool {
    &&& sorted.len() == items.len()
    &&& from.len() == items.len()
    &&& forall|k: int| 0 <= k < from.len() ==> 0 <= #[trigger] from[k] < items.len()
    &&& forall|k: int| 0 <= k < from.len() ==> #[trigger] sorted[k] == items[from[k]]
    &&& forall|j: int, k: int|
        0 <= j < k < from.len() ==> #[trigger] from[j] != #[trigger] from[k]
    &&& forall|j: int, k: int|
        #![trigger sorted[j], sorted[k]]
        0 <= j < k < sorted.len() ==> sorted[j].le(sorted[k]) && (sorted[k].le(sorted[j])
            ==> from[j] < from[k])
}

/// `sorted` is what a stable sort of `items` gives.
pub open spec fn is_sorted_from<T: Ordered>(items: Seq<T>, sorted: Seq<T>) -> bool {
    exists|from: Seq<int>| sorts(items, sorted, from)
}

/// `from` names each of the first positions once, as many as it is long.
pub open spec fn permutes(from: Seq<int>) -> bool {
    &&& forall|k: int| 0 <= k < from.len() ==> 0 <= #[trigger] from[k] < from.len()
    &&& forall|j: int, k: int|
        0 <= j < k < from.len() ==> #[trigger] from[j] != #[trigger] from[k]
}

/// No position is left out.
pub proof fn permutation_reaches_all(from: Seq<int>, i: int)
    requires
        permutes(from),
        0 <= i < from.len(),
    ensures
        exists|k: int| 0 <= k < from.len() && #[trigger] from[k] == i,
{
    if forall|k: int| 0 <= k < from.len() ==> #[trigger] from[k] != i {
        // Distinct positions below `n`, none of them `i`: one too many.
        let n = from.len() as int;
        let reached = from.to_set();
        let room = vstd::set_lib::set_int_range(0, n).remove(i);
        vstd::set_lib::lemma_int_range(0, n);
        assert(from.no_duplicates()) by {
            assert forall|a: int, b: int| 0 <= a < from.len() && 0 <= b < from.len() && a
                != b implies from[a] != from[b] by {
                if a < b {
                } else {
                    assert(from[b] != from[a]);
                }
            }
        }
        from.unique_seq_to_set();
        assert(reached.subset_of(room));
        vstd::set_lib::lemma_len_subset(reached, room);
    }
}

/// There is only one way to put positions in order, when of any two only one
/// may go first.
pub proof fn one_order(a: Seq<int>, b: Seq<int>, first: spec_fn(int, int) -> bool)
    requires
        a.len() == b.len(),
        permutes(a),
        permutes(b),
        forall|j: int, k: int|
            0 <= j < k < a.len() ==> first(#[trigger] a[j], #[trigger] a[k]),
        forall|j: int, k: int|
            0 <= j < k < b.len() ==> first(#[trigger] b[j], #[trigger] b[k]),
        forall|x: int, y: int| #[trigger] first(x, y) ==> !first(y, x),
    ensures
        a == b,
{
    assert forall|k: int| 0 <= k < a.len() implies a[k] == b[k] by {
        lemma_same_so_far(a, b, first, k);
    }
    assert(a =~= b);
}

proof fn lemma_same_so_far(a: Seq<int>, b: Seq<int>, first: spec_fn(int, int) -> bool, k: int)
    requires
        a.len() == b.len(),
        permutes(a),
        permutes(b),
        forall|j: int, k: int|
            0 <= j < k < a.len() ==> first(#[trigger] a[j], #[trigger] a[k]),
        forall|j: int, k: int|
            0 <= j < k < b.len() ==> first(#[trigger] b[j], #[trigger] b[k]),
        forall|x: int, y: int| #[trigger] first(x, y) ==> !first(y, x),
        0 <= k < a.len(),
    ensures
        a[k] == b[k],
    decreases k,
{
    if a[k] != b[k] {
        permutation_reaches_all(b, a[k]);
        permutation_reaches_all(a, b[k]);
        let m = choose|m: int| 0 <= m < b.len() && #[trigger] b[m] == a[k];
        let n = choose|n: int| 0 <= n < a.len() && #[trigger] a[n] == b[k];
        if m < k {
            lemma_same_so_far(a, b, first, m);
            assert(a[m] != a[k]);
        }
        if n < k {
            lemma_same_so_far(a, b, first, n);
            assert(b[n] != b[k]);
        }
        assert(first(b[k], b[m]));
        assert(first(a[k], a[n]));
    }
}

/// What a stable sort gives is determined by the items.
pub proof fn stable_sort_is_unique<T: Ordered>(
    items: Seq<T>,
    a: Seq<T>,
    from_a: Seq<int>,
    b: Seq<T>,
    from_b: Seq<int>,
)
    requires
        sorts(items, a, from_a),
        sorts(items, b, from_b),
    ensures
        from_a == from_b,
        a == b,
{
    let first = |x: int, y: int|
        items[x].le(items[y]) && (items[y].le(items[x]) ==> x < y);
    lemma_sorted_first(items, a, from_a, first);
    lemma_sorted_first(items, b, from_b, first);
    one_order(from_a, from_b, first);
    assert(a =~= b) by {
        assert forall|k: int| 0 <= k < a.len() implies a[k] == b[k] by {
            assert(a[k] == items[from_a[k]] && b[k] == items[from_b[k]]);
        }
    }
}

proof fn lemma_sorted_first<T: Ordered>(
    items: Seq<T>,
    sorted: Seq<T>,
    from: Seq<int>,
    first: spec_fn(int, int) -> bool,
)
    requires
        sorts(items, sorted, from),
        forall|x: int, y: int| #[trigger]
            first(x, y) == (items[x].le(items[y]) && (items[y].le(items[x]) ==> x < y)),
    ensures
        permutes(from),
        forall|j: int, k: int|
            0 <= j < k < from.len() ==> first(#[trigger] from[j], #[trigger] from[k]),
{
    assert forall|j: int, k: int| 0 <= j < k < from.len() implies first(
        #[trigger] from[j],
        #[trigger] from[k],
    ) by {
        assert(sorted[j] == items[from[j]] && sorted[k] == items[from[k]]);
    }
}

pub open spec fn least(a: int, b: int) -> int {
    if a < b {
        a
    } else {
        b
    }
}

/// The position behind everything in `top` that goes no later than `item`.
fn slot<T: Ordered>(top: &Vec<T>, item: &T) -> (p: usize)
    requires
        forall|j: int, k: int|
            #![trigger top@[j], top@[k]]
            0 <= j < k < top@.len() ==> top@[j].le(top@[k]),
    ensures
        p <= top@.len(),
        forall|j: int| 0 <= j < p ==> (#[trigger] top@[j]).le(*item),
        forall|j: int| p <= j < top@.len() ==> !(#[trigger] top@[j]).le(*item),
{
    let mut low: usize = 0;
    let mut high: usize = top.len();
    while low < high
        invariant
            low <= high <= top@.len(),
            forall|j: int, k: int|
                #![trigger top@[j], top@[k]]
                0 <= j < k < top@.len() ==> top@[j].le(top@[k]),
            forall|j: int| 0 <= j < low ==> (#[trigger] top@[j]).le(*item),
            forall|j: int| high <= j < top@.len() ==> !(#[trigger] top@[j]).le(*item),
        decreases high - low,
    {
        let middle: usize = low + (high - low) / 2;
        if top[middle].at_most(item) {
            proof {
                assert forall|j: int| 0 <= j < middle + 1 implies (#[trigger] top@[j]).le(
                    *item,
                ) by {
                    if j < middle {
                        T::le_transitive(top@[j], top@[middle as int], *item);
                    }
                }
            }
            low = middle + 1;
        } else {
            proof {
                assert forall|j: int| middle <= j < top@.len() implies !(#[trigger] top@[j]).le(
                    *item,
                ) by {
                    if j > middle && top@[j].le(*item) {
                        T::le_transitive(top@[middle as int], top@[j], *item);
                    }
                }
            }
            high = middle;
        }
    }
    low
}

/// One more item at the end of the list goes into the sorted list at `q`.
proof fn lemma_sorts_push<T: Ordered>(
    items: Seq<T>,
    sorted: Seq<T>,
    from: Seq<int>,
    item: T,
    q: int,
)
    requires
        sorts(items, sorted, from),
        0 <= q <= sorted.len(),
        forall|j: int| 0 <= j < q ==> (#[trigger] sorted[j]).le(item),
        forall|j: int| q <= j < sorted.len() ==> !(#[trigger] sorted[j]).le(item),
    ensures
        sorts(items.push(item), sorted.insert(q, item), from.insert(q, items.len() as int)),
{
    let n = items.len() as int;
    let more = items.push(item);
    let wider = sorted.insert(q, item);
    let path = from.insert(q, n);
    assert forall|k: int| 0 <= k < path.len() implies 0 <= #[trigger] path[k] < more.len() by {
        if k < q {
            assert(path[k] == from[k]);
        } else if k > q {
            assert(path[k] == from[k - 1]);
        }
    }
    assert forall|k: int| 0 <= k < path.len() implies #[trigger] wider[k] == more[path[k]] by {
        if k < q {
            assert(path[k] == from[k] && wider[k] == sorted[k]);
        } else if k > q {
            assert(path[k] == from[k - 1] && wider[k] == sorted[k - 1]);
        }
    }
    assert forall|j: int, k: int| 0 <= j < k < path.len() implies #[trigger] path[j]
        != #[trigger] path[k] by {
        let a = if j < q { j } else { j - 1 };
        let b = if k < q { k } else { k - 1 };
        if j != q {
            assert(path[j] == from[a]);
        }
        if k != q {
            assert(path[k] == from[b]);
        }
    }
    assert forall|j: int, k: int|
        #![trigger wider[j], wider[k]]
        0 <= j < k < wider.len() implies wider[j].le(wider[k]) && (wider[k].le(wider[j])
        ==> path[j] < path[k]) by {
        let a = if j < q { j } else { j - 1 };
        let b = if k < q { k } else { k - 1 };
        if j != q {
            assert(path[j] == from[a] && wider[j] == sorted[a]);
        }
        if k != q {
            assert(path[k] == from[b] && wider[k] == sorted[b]);
        }
        if j == q {
            T::le_total(item, sorted[b]);
        }
    }
}

/// Keep the `lines` best of `ranked`, in order, and drop the rest.
pub fn take_top<T: Ordered>(ranked: Vec<T>, lines: usize) -> (top: Vec<T>)
    ensures
        top@.len() == least(lines as int, ranked@.len() as int),
        exists|sorted: Seq<T>|
            #![trigger is_sorted_from(ranked@, sorted)]
            is_sorted_from(ranked@, sorted) && top@ == sorted.take(top@.len() as int),
{
    let mut top: Vec<T> = Vec::new();
    let ghost mut sorted: Seq<T> = seq![];
    let ghost mut from: Seq<int> = seq![];
    let ghost all = ranked@;
    let ghost mut done: int = 0;
    for item in it: ranked
        invariant
            it.seq() == all,
            done == it.index(),
            sorts(all.take(done), sorted, from),
            top@.len() == least(lines as int, done),
            top@ == sorted.take(top@.len() as int),
    {
        assert(item == all[done]);
        proof {
            assert forall|j: int, k: int|
                #![trigger top@[j], top@[k]]
                0 <= j < k < top@.len() implies top@[j].le(top@[k]) by {
                assert(top@[j] == sorted[j] && top@[k] == sorted[k]);
            }
        }
        let p: usize = slot(&top, &item);
        proof {
            let q = place_of(sorted, item);
            lemma_place_of(sorted, item);
            assert(all.take(done + 1) == all.take(done).push(item));
            lemma_sorts_push(all.take(done), sorted, from, item, q);
            lemma_same_place(sorted, item, top@.len() as int, p as int);
            let wider = sorted.insert(q, item);
            if p < lines {
                if p < top@.len() {
                    assert(q == p);
                } else {
                    assert(top@.len() == done);
                }
                let longer = top@.insert(p as int, item);
                assert(longer =~= wider.take(top@.len() as int + 1));
                if longer.len() > lines {
                    assert(longer.drop_last() =~= wider.take(lines as int));
                }
            } else {
                assert(top@ =~= wider.take(top@.len() as int));
            }
            sorted = wider;
            from = from.insert(q, done);
            done = done + 1;
        }
        if p < lines {
            top.insert(p, item);
            if top.len() > lines {
                let _ = top.pop();
            }
        }
    }
    assert(all.take(done) == all);
    assert(is_sorted_from(all, sorted));
    top
}

/// How many items at the front of a sorted list go no later than `item`.
spec fn place_of<T: Ordered>(sorted: Seq<T>, item: T) -> int
    decreases sorted.len(),
{
    if sorted.len() == 0 || sorted.last().le(item) {
        sorted.len() as int
    } else {
        place_of(sorted.drop_last(), item)
    }
}

proof fn lemma_place_of<T: Ordered>(sorted: Seq<T>, item: T)
    requires
        forall|j: int, k: int|
            #![trigger sorted[j], sorted[k]]
            0 <= j < k < sorted.len() ==> sorted[j].le(sorted[k]),
    ensures
        0 <= place_of(sorted, item) <= sorted.len(),
        forall|j: int| 0 <= j < place_of(sorted, item) ==> (#[trigger] sorted[j]).le(item),
        forall|j: int| place_of(sorted, item) <= j < sorted.len() ==> !(#[trigger] sorted[j]).le(item),
    decreases sorted.len(),
{
    if sorted.len() > 0 {
        if sorted.last().le(item) {
            assert forall|j: int| 0 <= j < sorted.len() implies (#[trigger] sorted[j]).le(item) by {
                if j < sorted.len() - 1 {
                    T::le_transitive(sorted[j], sorted.last(), item);
                }
            }
        } else {
            let shorter = sorted.drop_last();
            lemma_place_of(shorter, item);
            assert forall|j: int| 0 <= j < place_of(sorted, item) implies (#[trigger] sorted[j]).le(
                item,
            ) by {
                assert(shorter[j] == sorted[j]);
            }
            assert forall|j: int| place_of(sorted, item) <= j < sorted.len() implies !(
            #[trigger] sorted[j]).le(item) by {
                if j < shorter.len() {
                    assert(shorter[j] == sorted[j]);
                }
            }
        }
    }
}

/// A place found among the first `n` of a sorted list is its place in the
/// whole list, unless it lies behind all of them.
proof fn lemma_same_place<T: Ordered>(sorted: Seq<T>, item: T, n: int, p: int)
    requires
        0 <= p <= n <= sorted.len(),
        forall|j: int, k: int|
            #![trigger sorted[j], sorted[k]]
            0 <= j < k < sorted.len() ==> sorted[j].le(sorted[k]),
        forall|j: int| 0 <= j < p ==> (#[trigger] sorted.take(n)[j]).le(item),
        forall|j: int| p <= j < n ==> !(#[trigger] sorted.take(n)[j]).le(item),
    ensures
        p < n ==> place_of(sorted, item) == p,
        p == n ==> place_of(sorted, item) >= n,
{
    lemma_place_of(sorted, item);
    let q = place_of(sorted, item);
    if q < p {
        assert(sorted.take(n)[q] == sorted[q]);
    }
    if p < n && p < q {
        assert(sorted.take(n)[p] == sorted[p]);
    }
}

} // verus!
