//! Lexicographic order of texts by character, the order in which `String`s compare.
use vstd::prelude::*;

verus! {

/// `a` sorts strictly before `b`.
pub open spec fn lex_lt(a: Seq<char>, b: Seq<char>) -> bool
    decreases a.len(),
{
    if a.len() == 0 {
        b.len() > 0
    } else if b.len() == 0 {
        false
    } else if a[0] != b[0] {
        a[0] < b[0]
    } else {
        lex_lt(a.drop_first(), b.drop_first())
    }
}

/// No text sorts before itself.
pub proof fn lemma_lex_irreflexive(a: Seq<char>)
    ensures
        !lex_lt(a, a),
    decreases a.len(),
{
    if a.len() > 0 {
        lemma_lex_irreflexive(a.drop_first());
    }
}

/// Two texts never sort before each other.
pub proof fn lemma_lex_asymmetric(a: Seq<char>, b: Seq<char>)
    ensures
        !(lex_lt(a, b) && lex_lt(b, a)),
    decreases a.len(),
{
    if a.len() > 0 && b.len() > 0 && a[0] == b[0] {
        lemma_lex_asymmetric(a.drop_first(), b.drop_first());
    }
}

/// The order is transitive.
pub proof fn lemma_lex_transitive(a: Seq<char>, b: Seq<char>, c: Seq<char>)
    requires
        lex_lt(a, b),
        lex_lt(b, c),
    ensures
        lex_lt(a, c),
    decreases a.len(),
{
    if a.len() > 0 && b.len() > 0 && c.len() > 0 && a[0] == b[0] && b[0] == c[0] {
        lemma_lex_transitive(a.drop_first(), b.drop_first(), c.drop_first());
    }
}

/// Any two distinct texts are ordered one way or the other.
pub proof fn lemma_lex_total(a: Seq<char>, b: Seq<char>)
    ensures
        a == b || lex_lt(a, b) || lex_lt(b, a),
    decreases a.len(),
{
    if a.len() > 0 && b.len() > 0 && a[0] == b[0] {
        lemma_lex_total(a.drop_first(), b.drop_first());
        if a.drop_first() == b.drop_first() {
            assert(a =~= seq![a[0]] + a.drop_first());
            assert(b =~= seq![b[0]] + b.drop_first());
        }
    } else if a.len() == 0 && b.len() == 0 {
        assert(a =~= b);
    }
}

proof fn lemma_lex_skip(a: Seq<char>, b: Seq<char>, i: int)
    requires
        0 <= i <= a.len(),
        i <= b.len(),
        forall|k: int| 0 <= k < i ==> a[k] == b[k],
    ensures
        lex_lt(a, b) == lex_lt(a.skip(i), b.skip(i)),
    decreases i,
{
    if i > 0 {
        lemma_lex_skip(a.drop_first(), b.drop_first(), i - 1);
        assert(a.drop_first().skip(i - 1) =~= a.skip(i));
        assert(b.drop_first().skip(i - 1) =~= b.skip(i));
    } else {
        assert(a.skip(0) =~= a);
        assert(b.skip(0) =~= b);
    }
}

/// Whether `a` sorts strictly before `b`.
pub fn str_lt(a: &str, b: &str) -> (less: bool)
    ensures
        less == lex_lt(a@, b@),
{
    let n = a.unicode_len();
    let m = b.unicode_len();
    let mut i: usize = 0;
    while i < n && i < m && a.get_char(i) == b.get_char(i)
        invariant
            n == a@.len(),
            m == b@.len(),
            i <= n,
            i <= m,
            forall|k: int| 0 <= k < i ==> a@[k] == b@[k],
        decreases n - i,
    {
        i = i + 1;
    }
    proof {
        lemma_lex_skip(a@, b@, i as int);
    }
    if i == n {
        i < m
    } else if i == m {
        false
    } else {
        a.get_char(i) < b.get_char(i)
    }
}

/// Texts strictly increasing in lexicographic order.
pub open spec fn lex_increasing(names: Seq<Seq<char>>) -> bool {
    forall|i: int, j: int| 0 <= i < j < names.len() ==> lex_lt(#[trigger] names[i], #[trigger] names[j])
}

/// The names as texts.
pub open spec fn name_views(names: Seq<String>) -> Seq<Seq<char>> {
    names.map_values(|n: String| n@)
}

/// Inserts a name into a sorted name list unless it is already there.
pub(crate) fn insert_name(names: &mut Vec<String>, name: String)
    requires
        lex_increasing(name_views(old(names)@)),
    ensures
        lex_increasing(name_views(final(names)@)),
        name_views(final(names)@).to_set() == name_views(old(names)@).to_set().insert(name@),
{
    let ghost before = name_views(names@);
    let ghost v = name@;
    let mut position: usize = 0;
    while position < names.len() && str_lt(names[position].as_str(), name.as_str())
        invariant
            position <= names.len(),
            name_views(names@) == before,
            lex_increasing(before),
            v == name@,
            forall|i: int| 0 <= i < position ==> lex_lt(#[trigger] before[i], v),
        decreases names.len() - position,
    {
        assert(before[position as int] == names@[position as int]@);
        position = position + 1;
    }
    if position < names.len() && !str_lt(name.as_str(), names[position].as_str()) {
        proof {
            lemma_lex_total(before[position as int], v);
        }
        assert(before.to_set().insert(v) =~= before.to_set()) by {
            assert(before.contains(v)) by {
                assert(before[position as int] == v);
            }
        }
        return;
    }
    let ghost old_names = names@;
    names.insert(position, name);
    let ghost after = name_views(names@);
    assert(after =~= before.subrange(0, position as int).push(v) + before.subrange(
        position as int,
        before.len() as int,
    )) by {
        assert(names@ =~= old_names.subrange(0, position as int).push(names@[position as int])
            + old_names.subrange(position as int, old_names.len() as int));
    }
    assert forall|i: int, j: int| 0 <= i < j < after.len() implies lex_lt(
        #[trigger] after[i],
        #[trigger] after[j],
    ) by {
        if j < position {
        } else if j == position {
        } else if i < position {
            assert(after[j] == before[j - 1]);
            if position < before.len() {
                lemma_lex_transitive(before[i], v, before[position as int]);
                if j - 1 > position {
                    lemma_lex_transitive(before[i], before[position as int], before[j - 1]);
                }
            }
            if i != j - 1 {
                assert(lex_lt(before[i], before[j - 1]));
            }
        } else if i == position {
            assert(after[j] == before[j - 1]);
            assert(lex_lt(v, before[position as int]));
            if j - 1 > position {
                lemma_lex_transitive(v, before[position as int], before[j - 1]);
            }
        } else {
            assert(after[i] == before[i - 1]);
            assert(after[j] == before[j - 1]);
        }
    }
    assert(after.to_set() =~= before.to_set().insert(v)) by {
        assert forall|x: Seq<char>| after.to_set().contains(x) implies before.to_set().insert(v).contains(x) by {
            let k = choose|k: int| 0 <= k < after.len() && after[k] == x;
            if k < position {
                assert(before[k] == x);
            } else if k > position {
                assert(before[k - 1] == x);
            }
        }
        assert forall|x: Seq<char>| before.to_set().insert(v).contains(x) implies after.to_set().contains(x) by {
            if x == v {
                assert(after[position as int] == v);
            } else {
                let k = choose|k: int| 0 <= k < before.len() && before[k] == x;
                if k < position {
                    assert(after[k] == x);
                } else {
                    assert(after[k + 1] == x);
                }
            }
        }
    }
}

/// Two strictly increasing lists of texts with the same texts are the same list.
pub proof fn lemma_lex_increasing_unique(a: Seq<Seq<char>>, b: Seq<Seq<char>>)
    requires
        lex_increasing(a),
        lex_increasing(b),
        a.to_set() == b.to_set(),
    ensures
        a == b,
    decreases a.len(),
{
    if a.len() == 0 {
        if b.len() > 0 {
            assert(b.to_set().contains(b[0]));
        }
    } else if b.len() == 0 {
        assert(a.to_set().contains(a[0]));
    } else {
        let x = a.last();
        let y = b.last();
        assert(a.to_set().contains(x));
        assert(b.to_set().contains(y));
        assert(b.contains(x));
        assert(a.contains(y));
        let kx = choose|k: int| 0 <= k < b.len() && b[k] == x;
        let ky = choose|k: int| 0 <= k < a.len() && a[k] == y;
        assert(x == y) by {
            lemma_lex_total(x, y);
            if lex_lt(x, y) {
                if ky < a.len() - 1 {
                    assert(lex_lt(a[ky], a[a.len() - 1]));
                    lemma_lex_asymmetric(x, y);
                } else {
                    lemma_lex_irreflexive(x);
                }
            } else if lex_lt(y, x) {
                if kx < b.len() - 1 {
                    assert(lex_lt(b[kx], b[b.len() - 1]));
                    lemma_lex_asymmetric(x, y);
                } else {
                    lemma_lex_irreflexive(y);
                }
            }
        }
        let a2 = a.drop_last();
        let b2 = b.drop_last();
        assert(a2.to_set() =~= b2.to_set()) by {
            assert forall|z: Seq<char>| a2.to_set().contains(z) implies b2.to_set().contains(z) by {
                let k = choose|k: int| 0 <= k < a2.len() && a2[k] == z;
                assert(lex_lt(a[k], a[a.len() - 1]));
                assert(a.to_set().contains(z));
                let m = choose|m: int| 0 <= m < b.len() && b[m] == z;
                if m == b.len() - 1 {
                    lemma_lex_irreflexive(z);
                }
                assert(b2[m] == z);
            }
            assert forall|z: Seq<char>| b2.to_set().contains(z) implies a2.to_set().contains(z) by {
                let k = choose|k: int| 0 <= k < b2.len() && b2[k] == z;
                assert(lex_lt(b[k], b[b.len() - 1]));
                assert(b.to_set().contains(z));
                let m = choose|m: int| 0 <= m < a.len() && a[m] == z;
                if m == a.len() - 1 {
                    lemma_lex_irreflexive(z);
                }
                assert(a2[m] == z);
            }
        }
        lemma_lex_increasing_unique(a2, b2);
        assert(a =~= a2.push(x));
        assert(b =~= b2.push(y));
    }
}

} // verus!
