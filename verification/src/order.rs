use vstd::prelude::*;

verus! {

/// Integer-like keys with a total order given by their rank.
pub trait SortKey: Copy + Sized {
    /// Position of the key on the integer line.
    spec fn rank(self) -> int;

    /// Distinct keys have distinct ranks.
    proof fn lemma_rank_injective(a: Self, b: Self)
        ensures
            a.rank() == b.rank() ==> a == b,
    ;

    /// Strict comparison by rank.
    fn less_than(&self, other: &Self) -> (r: bool)
        ensures
            r == (self.rank() < other.rank()),
    ;
}

impl SortKey for u64 {
    open spec fn rank(self) -> int {
        self as int
    }

    proof fn lemma_rank_injective(a: Self, b: Self) {
    }

    fn less_than(&self, other: &Self) -> (r: bool) {
        *self < *other
    }
}

impl SortKey for usize {
    open spec fn rank(self) -> int {
        self as int
    }

    proof fn lemma_rank_injective(a: Self, b: Self) {
    }

    fn less_than(&self, other: &Self) -> (r: bool) {
        *self < *other
    }
}

impl SortKey for i128 {
    open spec fn rank(self) -> int {
        self as int
    }

    proof fn lemma_rank_injective(a: Self, b: Self) {
    }

    fn less_than(&self, other: &Self) -> (r: bool) {
        *self < *other
    }
}

/// Every element ranks strictly below the ones after it.
pub open spec fn strictly_increasing<T: SortKey>(s: Seq<T>) -> bool {
    forall|i: int, j: int| 0 <= i < j < s.len() ==> s[i].rank() < s[j].rank()
}

/// Inserts `value` into a strictly increasing vector, keeping it strictly increasing.
pub fn insert_sorted_unique<T: SortKey>(values: &mut Vec<T>, value: T)
    requires
        strictly_increasing(old(values)@),
    ensures
        strictly_increasing(final(values)@),
        final(values)@.to_set() == old(values)@.to_set().insert(value),
{
    let ghost before = values@;
    let mut position: usize = 0;
    while position < values.len() && values[position].less_than(&value)
        invariant
            position <= values.len(),
            values@ == before,
            strictly_increasing(before),
            forall|i: int| 0 <= i < position ==> before[i].rank() < value.rank(),
        decreases values.len() - position,
    {
        position = position + 1;
    }
    if position < values.len() && !value.less_than(&values[position]) {
        proof {
            T::lemma_rank_injective(before[position as int], value);
        }
        assert(before.to_set().insert(value) =~= before.to_set()) by {
            assert(before.contains(value)) by {
                assert(before[position as int] == value);
            }
        }
        return;
    }
    values.insert(position, value);
    let ghost after = values@;
    assert(after =~= before.subrange(0, position as int).push(value) + before.subrange(
        position as int,
        before.len() as int,
    ));
    assert forall|i: int, j: int| 0 <= i < j < after.len() implies after[i].rank() < after[j].rank() by {
        if j < position {
        } else if j == position {
        } else if i < position {
            assert(after[j] == before[j - 1]);
        } else if i == position {
            assert(after[j] == before[j - 1]);
            assert(before[position as int].rank() > value.rank());
            assert(before[position as int].rank() <= before[j - 1].rank());
        } else {
            assert(after[i] == before[i - 1]);
            assert(after[j] == before[j - 1]);
        }
    }
    assert(after.to_set() =~= before.to_set().insert(value)) by {
        assert forall|x: T| after.to_set().contains(x) implies before.to_set().insert(
            value,
        ).contains(x) by {
            let k = choose|k: int| 0 <= k < after.len() && after[k] == x;
            if k < position {
                assert(before[k] == x);
            } else if k > position {
                assert(before[k - 1] == x);
            }
        }
        assert forall|x: T| before.to_set().insert(value).contains(x) implies after.to_set().contains(
            x,
        ) by {
            if x == value {
                assert(after[position as int] == value);
            } else {
                let k = choose|k: int| 0 <= k < before.len() && before[k] == x;
                if k < position {
                    assert(after[k] == x);
                } else {
                    assert(after[k + 1] == x);
                }
            }
        }
    }
}

/// Sorts `values` ascending and removes duplicates.
pub fn sort_dedup<T: SortKey>(values: &mut Vec<T>)
    ensures
        strictly_increasing(final(values)@),
        final(values)@.to_set() == old(values)@.to_set(),
{
    let ghost input = values@;
    let mut sorted: Vec<T> = Vec::new();
    let mut index: usize = 0;
    while index < values.len()
        invariant
            values@ == input,
            index <= values.len(),
            strictly_increasing(sorted@),
            sorted@.to_set() == input.subrange(0, index as int).to_set(),
        decreases values.len() - index,
    {
        insert_sorted_unique(&mut sorted, values[index]);
        assert(input.subrange(0, index + 1) =~= input.subrange(0, index as int).push(
            input[index as int],
        ));
        proof {
            input.subrange(0, index as int).lemma_push_to_set_commute(input[index as int]);
        }
        index = index + 1;
    }
    assert(input.subrange(0, input.len() as int) =~= input);
    *values = sorted;
}

/// Two strictly increasing sequences with the same elements are the same sequence.
pub proof fn lemma_strictly_increasing_unique<T: SortKey>(a: Seq<T>, b: Seq<T>)
    requires
        strictly_increasing(a),
        strictly_increasing(b),
        a.to_set() == b.to_set(),
    ensures
        a == b,
    decreases a.len(),
{
    if a.len() == 0 {
        if b.len() > 0 {
            assert(b.to_set().contains(b[0]));
        }
    } else if b.len() == 0 {
        assert(a.to_set().contains(a[0]));
    } else {
        let x = a.last();
        let y = b.last();
        assert(a.to_set().contains(x));
        assert(b.to_set().contains(y));
        assert(b.contains(x));
        assert(a.contains(y));
        let kx = choose|k: int| 0 <= k < b.len() && b[k] == x;
        let ky = choose|k: int| 0 <= k < a.len() && a[k] == y;
        assert(x == y) by {
            if x.rank() < y.rank() {
                assert(a[ky].rank() <= a[a.len() - 1].rank());
            } else if y.rank() < x.rank() {
                assert(b[kx].rank() <= b[b.len() - 1].rank());
            } else {
                T::lemma_rank_injective(x, y);
            }
        }
        let a2 = a.drop_last();
        let b2 = b.drop_last();
        assert(a2.to_set() =~= b2.to_set()) by {
            assert forall|z: T| a2.to_set().contains(z) implies b2.to_set().contains(z) by {
                let k = choose|k: int| 0 <= k < a2.len() && a2[k] == z;
                assert(a[k].rank() < x.rank());
                assert(a.to_set().contains(z));
                let m = choose|m: int| 0 <= m < b.len() && b[m] == z;
                assert(m != b.len() - 1);
                assert(b2[m] == z);
            }
            assert forall|z: T| b2.to_set().contains(z) implies a2.to_set().contains(z) by {
                let k = choose|k: int| 0 <= k < b2.len() && b2[k] == z;
                assert(b[k].rank() < y.rank());
                assert(b.to_set().contains(z));
                let m = choose|m: int| 0 <= m < a.len() && a[m] == z;
                assert(m != a.len() - 1);
                assert(a2[m] == z);
            }
        }
        lemma_strictly_increasing_unique(a2, b2);
        assert(a =~= a2.push(x));
        assert(b =~= b2.push(y));
    }
}

} // verus!
