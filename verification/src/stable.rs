//! Stable ordering of positions by a key: sorted by the key, and positions whose
//! keys tie keep their original order, as `slice::sort_by` leaves them.
use vstd::prelude::*;

verus! {

/// A key ordered by a strict weak order.
pub trait StableSortKey: Sized {
    /// `self` sorts strictly before `other`.
    spec fn before(self, other: Self) -> bool;

    proof fn lemma_irreflexive(a: Self)
        ensures
            !a.before(a),
    ;

    proof fn lemma_transitive(a: Self, b: Self, c: Self)
        requires
            a.before(b),
            b.before(c),
        ensures
            a.before(c),
    ;

    /// If `a` sorts before `b`, any `c` sorts after `a` or before `b`.
    proof fn lemma_split(a: Self, b: Self, c: Self)
        requires
            a.before(b),
        ensures
            a.before(c) || c.before(b),
    ;

    /// Whether `self` sorts strictly before `other`.
    fn precedes(&self, other: &Self) -> (before: bool)
        ensures
            before == self.before(*other),
    ;
}

/// Neither key sorts before the other.
pub open spec fn ties<K: StableSortKey>(a: K, b: K) -> bool {
    !a.before(b) && !b.before(a)
}

/// `order` lists every position of `keys` once, sorted by key, with tied keys in
/// increasing order of position.
pub open spec fn stably_sorted<K: StableSortKey>(keys: Seq<K>, order: Seq<usize>) -> bool {
    &&& order.len() == keys.len()
    &&& order.no_duplicates()
    &&& forall|k: int| 0 <= k < order.len() ==> #[trigger] order[k] < keys.len()
    &&& forall|x: usize| #[trigger] order.contains(x) <==> (x as int) < keys.len()
    &&& forall|k: int, l: int|
        0 <= k < l < order.len() ==> !keys[#[trigger] order[l] as int].before(keys[#[trigger] order[k] as int])
    &&& forall|k: int, l: int|
        0 <= k < l < order.len() && ties(keys[#[trigger] order[k] as int], keys[#[trigger] order[l] as int])
            ==> order[k] < order[l]
}

/// The positions of `keys` in stable sorted order.
pub fn stable_sort_positions<K: StableSortKey>(keys: &[K]) -> (order: Vec<usize>)
    ensures
        stably_sorted(keys@, order@),
{
    let n = keys.len();
    let mut order: Vec<usize> = Vec::new();
    let mut i: usize = 0;
    while i < n
        invariant
            n == keys@.len(),
            i <= n,
            order@.len() == i,
            order@.no_duplicates(),
            forall|x: usize| #[trigger] order@.contains(x) <==> x < i,
            forall|k: int| 0 <= k < order@.len() ==> #[trigger] order@[k] < i,
            forall|k: int, l: int|
                0 <= k < l < order@.len() ==> !keys@[#[trigger] order@[l] as int].before(
                    keys@[#[trigger] order@[k] as int],
                ),
            forall|k: int, l: int|
                0 <= k < l < order@.len() && ties(keys@[#[trigger] order@[k] as int], keys@[#[trigger] order@[l] as int])
                    ==> order@[k] < order@[l],
        decreases n - i,
    {
        let mut p: usize = order.len();
        while p > 0 && keys[i].precedes(&keys[order[p - 1]])
            invariant
                n == keys@.len(),
                i < n,
                p <= order@.len(),
                forall|k: int| p <= k < order@.len() ==> keys@[i as int].before(keys@[#[trigger] order@[k] as int]),
                forall|k: int| 0 <= k < order@.len() ==> #[trigger] order@[k] < i,
            decreases p,
        {
            p = p - 1;
        }
        let ghost before = order@;
        proof {
            assert forall|k: int| 0 <= k < p implies !keys@[i as int].before(keys@[#[trigger] before[k] as int]) by {
                if k < p - 1 && keys@[i as int].before(keys@[before[k] as int]) {
                    K::lemma_split(keys@[i as int], keys@[before[k] as int], keys@[before[p - 1] as int]);
                }
            }
        }
        order.insert(p, i);
        proof {
            assert(order@ =~= before.insert(p as int, i));
            assert forall|k: int, l: int| 0 <= k < order@.len() && 0 <= l < order@.len() && k != l implies order@[k]
                != order@[l] by {
                if k == p {
                    assert(!before.contains(i));
                    if l < p {
                        assert(before[l] == order@[l]);
                    } else {
                        assert(before[l - 1] == order@[l]);
                    }
                } else if l == p {
                    assert(!before.contains(i));
                    if k < p {
                        assert(before[k] == order@[k]);
                    } else {
                        assert(before[k - 1] == order@[k]);
                    }
                } else {
                    let k0 = if k < p { k } else { k - 1 };
                    let l0 = if l < p { l } else { l - 1 };
                    assert(before[k0] == order@[k]);
                    assert(before[l0] == order@[l]);
                }
            }
            assert forall|k: int, l: int| 0 <= k < l < order@.len() implies !keys@[#[trigger] order@[l] as int].before(
                keys@[#[trigger] order@[k] as int],
            ) by {
                if k < p && l == p {
                    assert(order@[k] == before[k]);
                } else if k == p && l > p {
                    assert(order@[l] == before[l - 1]);
                    let a = keys@[i as int];
                    let b = keys@[before[l - 1] as int];
                    assert(a.before(b));
                    if b.before(a) {
                        K::lemma_transitive(a, b, a);
                        K::lemma_irreflexive(a);
                    }
                } else if k < p && l > p {
                    assert(before[k] == order@[k] && before[l - 1] == order@[l]);
                } else if k > p {
                    assert(before[k - 1] == order@[k] && before[l - 1] == order@[l]);
                } else {
                    assert(before[k] == order@[k] && before[l] == order@[l]);
                }
            }
            assert forall|k: int, l: int|
                0 <= k < l < order@.len() && ties(keys@[#[trigger] order@[k] as int], keys@[#[trigger] order@[l] as int])
                    implies order@[k] < order@[l] by {
                if k < p && l == p {
                    assert(order@[k] == before[k]);
                } else if k == p && l > p {
                    assert(order@[l] == before[l - 1]);
                    assert(keys@[i as int].before(keys@[before[l - 1] as int]));
                } else if k < p && l > p {
                    assert(before[k] == order@[k] && before[l - 1] == order@[l]);
                } else if k > p {
                    assert(before[k - 1] == order@[k] && before[l - 1] == order@[l]);
                } else {
                    assert(before[k] == order@[k] && before[l] == order@[l]);
                }
            }
            assert forall|x: usize| #[trigger] order@.contains(x) <==> x < i + 1 by {
                if x < i {
                    assert(before.contains(x));
                    let t = choose|t: int| 0 <= t < before.len() && before[t] == x;
                    if t < p {
                        assert(order@[t] == x);
                    } else {
                        assert(order@[t + 1] == x);
                    }
                } else if x == i {
                    assert(order@[p as int] == x);
                }
                if order@.contains(x) {
                    let t = choose|t: int| 0 <= t < order@.len() && order@[t] == x;
                    if t < p {
                        assert(before[t] == x);
                    } else if t > p {
                        assert(before[t - 1] == x);
                    }
                }
            }
        }
        i = i + 1;
    }
    order
}

/// There is one stable sorted order of a sequence of keys.
pub proof fn lemma_stable_order_unique<K: StableSortKey>(keys: Seq<K>, a: Seq<usize>, b: Seq<usize>)
    requires
        stably_sorted(keys, a),
        stably_sorted(keys, b),
    ensures
        a == b,
{
    lemma_orders_agree(keys, a, b, a.len() as int);
    assert(a =~= b);
}

proof fn lemma_orders_agree<K: StableSortKey>(keys: Seq<K>, a: Seq<usize>, b: Seq<usize>, k: int)
    requires
        stably_sorted(keys, a),
        stably_sorted(keys, b),
        0 <= k <= a.len(),
    ensures
        forall|t: int| 0 <= t < k ==> a[t] == b[t],
    decreases k,
{
    if k > 0 {
        lemma_orders_agree(keys, a, b, k - 1);
        let j = k - 1;
        let x = a[j];
        let y = b[j];
        if x != y {
            assert(b.contains(x));
            assert(a.contains(y));
            let m = choose|m: int| 0 <= m < b.len() && b[m] == x;
            let n = choose|n: int| 0 <= n < a.len() && a[n] == y;
            if m < j {
                assert(a[m] == x);
            }
            if n < j {
                assert(b[n] == y);
            }
            assert(!keys[a[n] as int].before(keys[a[j] as int]));
            assert(!keys[b[m] as int].before(keys[b[j] as int]));
            assert(ties(keys[a[j] as int], keys[a[n] as int]));
            assert(ties(keys[b[j] as int], keys[b[m] as int]));
        }
    }
}

/// Keys that are already in order keep their positions: sorting them again
/// gives back the identity order.
pub proof fn lemma_sorted_keys_keep_their_order<K: StableSortKey>(keys: Seq<K>, order: Seq<usize>)
    requires
        keys.len() <= usize::MAX,
        forall|i: int, j: int| 0 <= i < j < keys.len() ==> !(#[trigger] keys[j]).before(#[trigger] keys[i]),
        stably_sorted(keys, order),
    ensures
        forall|k: int| 0 <= k < order.len() ==> #[trigger] order[k] == k,
{
    let identity = Seq::new(keys.len(), |i: int| i as usize);
    assert forall|x: usize| #[trigger] identity.contains(x) <==> (x as int) < keys.len() by {
        if (x as int) < keys.len() {
            assert(identity[x as int] == x);
        }
    }
    assert(identity.no_duplicates());
    assert forall|k: int, l: int| 0 <= k < l < identity.len() implies !keys[#[trigger] identity[l] as int].before(
        keys[#[trigger] identity[k] as int],
    ) by {
        assert(identity[l] as int == l && identity[k] as int == k);
    }
    assert(stably_sorted(keys, identity));
    lemma_stable_order_unique(keys, order, identity);
}

} // verus!
