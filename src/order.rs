//! The mathematical model of a sorted entry sequence: key order, sortedness,
//! the insertion point of a key, and what each mutation does to the sequence.
use core::cmp::Ordering;
use vstd::prelude::*;
use vstd::std_specs::cmp::OrdSpec;

verus! {

/// `K`'s `cmp` agrees with `cmp_spec`, and `cmp_spec` is a total order:
/// reversing the arguments reverses the outcome, and "not greater" is
/// transitive.
pub open spec fn total_order<K: Ord>() -> bool {
    &&& K::obeys_cmp_spec()
    &&& forall|a: K, b: K|
        #[trigger] a.cmp_spec(&b) == Ordering::Less <==> b.cmp_spec(&a) == Ordering::Greater
    &&& forall|a: K, b: K|
        #[trigger] a.cmp_spec(&b) == Ordering::Equal ==> b.cmp_spec(&a) == Ordering::Equal
    &&& forall|a: K, b: K, c: K|
        #![trigger a.cmp_spec(&b), b.cmp_spec(&c)]
        a.cmp_spec(&b) != Ordering::Greater && b.cmp_spec(&c) != Ordering::Greater
            ==> a.cmp_spec(&c) != Ordering::Greater
}

/// `a` orders strictly before `b`.
pub open spec fn key_lt<K: Ord>(a: K, b: K) -> bool {
    a.cmp_spec(&b) == Ordering::Less
}

/// `a` and `b` compare equal.
pub open spec fn key_eq<K: Ord>(a: K, b: K) -> bool {
    a.cmp_spec(&b) == Ordering::Equal
}

/// Keys strictly ascend along the sequence.
pub open spec fn sorted<K: Ord, V>(s: Seq<(K, V)>) -> bool {
    forall|i: int, j: int| 0 <= i < j < s.len() ==> key_lt(#[trigger] s[i].0, #[trigger] s[j].0)
}

/// The number of entries whose key is less than `k`.
pub open spec fn count_less<K: Ord, V>(s: Seq<(K, V)>, k: K) -> nat
    decreases s.len(),
{
    if s.len() == 0 {
        0
    } else {
        count_less(s.drop_last(), k) + if key_lt(s.last().0, k) {
            1nat
        } else {
            0nat
        }
    }
}

/// The entry at the insertion point of `k` compares equal to `k`; in a
/// sorted sequence this holds exactly when some entry's key does.
pub open spec fn has_key<K: Ord, V>(s: Seq<(K, V)>, k: K) -> bool {
    count_less(s, k) < s.len() && key_eq(s[count_less(s, k) as int].0, k)
}

/// What a binary search for `k` returns: the index of the equal key, or the
/// insertion point.
pub open spec fn search<K: Ord, V>(s: Seq<(K, V)>, k: K) -> Result<usize, usize> {
    if has_key(s, k) {
        Ok(count_less(s, k) as usize)
    } else {
        Err(count_less(s, k) as usize)
    }
}

/// The sequence after inserting `(k, v)`: an existing equal key keeps its
/// place and its own identity and takes `v`; otherwise the pair goes in at
/// its insertion point.
pub open spec fn inserted<K: Ord, V>(s: Seq<(K, V)>, k: K, v: V) -> Seq<(K, V)> {
    let i = count_less(s, k) as int;
    if has_key(s, k) {
        s.update(i, (s[i].0, v))
    } else {
        s.insert(i, (k, v))
    }
}

/// The sequence after removing the entry whose key equals `k`, if any.
pub open spec fn removed<K: Ord, V>(s: Seq<(K, V)>, k: K) -> Seq<(K, V)> {
    if has_key(s, k) {
        s.remove(count_less(s, k) as int)
    } else {
        s
    }
}

/// `push` appends `k`: the sequence is empty or `k` exceeds its last key.
pub open spec fn appendable<K: Ord, V>(s: Seq<(K, V)>, k: K) -> bool {
    s.len() == 0 || key_lt(s.last().0, k)
}

/// The sequence after inserting every pair of `pairs`, first to last.
pub open spec fn inserted_all<K: Ord, V>(s: Seq<(K, V)>, pairs: Seq<(K, V)>) -> Seq<(K, V)>
    decreases pairs.len(),
{
    if pairs.len() == 0 {
        s
    } else {
        inserted(inserted_all(s, pairs.drop_last()), pairs.last().0, pairs.last().1)
    }
}

/// The value stored under a key equal to `q`, if any.
pub open spec fn lookup<K: Ord, V>(s: Seq<(K, V)>, q: K) -> Option<V> {
    if has_key(s, q) {
        Some(s[count_less(s, q) as int].1)
    } else {
        None
    }
}

/// The value of the last pair whose key equals `q`, if any.
pub open spec fn last_value<K: Ord, V>(pairs: Seq<(K, V)>, q: K) -> Option<V>
    decreases pairs.len(),
{
    if pairs.len() == 0 {
        None
    } else if key_eq(pairs.last().0, q) {
        Some(pairs.last().1)
    } else {
        last_value(pairs.drop_last(), q)
    }
}

/// Strict order is transitive, also through a non-strict step.
pub proof fn lemma_lt_trans<K: Ord>(a: K, b: K, c: K)
    requires
        total_order::<K>(),
        a.cmp_spec(&b) != Ordering::Greater,
        b.cmp_spec(&c) != Ordering::Greater,
        key_lt(a, b) || key_lt(b, c),
    ensures
        key_lt(a, c),
{
    if c.cmp_spec(&a) != Ordering::Greater {
        if key_lt(a, b) {
            assert(b.cmp_spec(&a) == Ordering::Greater);
            assert(c.cmp_spec(&a) != Ordering::Greater && a.cmp_spec(&b) != Ordering::Greater);
        } else {
            assert(c.cmp_spec(&b) == Ordering::Greater);
            assert(b.cmp_spec(&c) != Ordering::Greater && c.cmp_spec(&a) != Ordering::Greater);
        }
    }
}

/// Where every key before `i` is less than `k` and none from `i` on is,
/// `count_less` is `i`.
pub proof fn lemma_count_less_split<K: Ord, V>(s: Seq<(K, V)>, k: K, i: int)
    requires
        0 <= i <= s.len(),
        forall|j: int| 0 <= j < i ==> key_lt(#[trigger] s[j].0, k),
        forall|j: int| i <= j < s.len() ==> !key_lt(#[trigger] s[j].0, k),
    ensures
        count_less(s, k) == i,
    decreases s.len(),
{
    if s.len() > 0 {
        let t = s.drop_last();
        if i == s.len() {
            assert(key_lt(s[s.len() - 1].0, k));
            lemma_count_less_split(t, k, i - 1);
        } else {
            assert(!key_lt(s[s.len() - 1].0, k));
            lemma_count_less_split(t, k, i);
        }
    }
}

/// In a sorted sequence the keys before `count_less(s, k)` are less than
/// `k` and the others are not.
pub proof fn lemma_count_less_bounds<K: Ord, V>(s: Seq<(K, V)>, k: K)
    requires
        total_order::<K>(),
        sorted(s),
    ensures
        count_less(s, k) <= s.len(),
        forall|j: int| 0 <= j < count_less(s, k) ==> key_lt(#[trigger] s[j].0, k),
        forall|j: int| count_less(s, k) <= j < s.len() ==> !key_lt(#[trigger] s[j].0, k),
    decreases s.len(),
{
    if s.len() > 0 {
        let t = s.drop_last();
        let n = s.len() - 1;
        assert forall|j: int| 0 <= j < n implies #[trigger] t[j] == s[j] by {}
        assert(sorted(t));
        lemma_count_less_bounds(t, k);
        if key_lt(s[n].0, k) {
            assert forall|j: int| 0 <= j < n implies key_lt(#[trigger] s[j].0, k) by {
                assert(key_lt(s[j].0, s[n].0));
                lemma_lt_trans(s[j].0, s[n].0, k);
            }
            if count_less(t, k) < n {
                let c = count_less(t, k) as int;
                assert(t[c] == s[c]);
            }
            assert(count_less(t, k) == n);
        } else {
            assert(count_less(s, k) == count_less(t, k));
            assert forall|j: int| count_less(s, k) <= j < s.len() implies !key_lt(
                #[trigger] s[j].0,
                k,
            ) by {
                if j < n {
                    assert(t[j] == s[j]);
                }
            }
            assert forall|j: int| 0 <= j < count_less(s, k) implies key_lt(#[trigger] s[j].0, k) by {
                assert(t[j] == s[j]);
            }
        }
    }
}

/// Keys at or after the insertion point exceed `k`, unless the key at the
/// insertion point equals `k`.
pub proof fn lemma_after_insertion_point<K: Ord, V>(s: Seq<(K, V)>, k: K, j: int)
    requires
        total_order::<K>(),
        sorted(s),
        count_less(s, k) <= j < s.len(),
        !has_key(s, k) || j > count_less(s, k),
    ensures
        key_lt(k, s[j].0),
{
    lemma_count_less_bounds(s, k);
    let i = count_less(s, k) as int;
    if j == i {
        assert(s[j].0.cmp_spec(&k) == Ordering::Greater);
    } else {
        assert(key_lt(s[i].0, s[j].0));
        assert(k.cmp_spec(&s[i].0) != Ordering::Greater);
        lemma_lt_trans(k, s[i].0, s[j].0);
    }
}

/// Replacing the value of one entry keeps the sequence sorted.
pub proof fn lemma_value_update_keeps_sorted<K: Ord, V>(s: Seq<(K, V)>, i: int, v: V)
    requires
        sorted(s),
        0 <= i < s.len(),
    ensures
        sorted(s.update(i, (s[i].0, v))),
{
    let t = s.update(i, (s[i].0, v));
    assert forall|a: int, b: int| 0 <= a < b < t.len() implies key_lt(
        #[trigger] t[a].0,
        #[trigger] t[b].0,
    ) by {
        assert(t[a].0 == s[a].0 && t[b].0 == s[b].0);
    }
}

/// An appendable pair goes in at the end: `push` and `insert` agree there.
pub proof fn lemma_push_is_insert<K: Ord, V>(s: Seq<(K, V)>, k: K, v: V)
    requires
        total_order::<K>(),
        sorted(s),
        appendable(s, k),
    ensures
        count_less(s, k) == s.len(),
        !has_key(s, k),
        inserted(s, k, v) == s.push((k, v)),
{
    if s.len() > 0 {
        let n = s.len() - 1;
        assert forall|j: int| 0 <= j < s.len() implies key_lt(#[trigger] s[j].0, k) by {
            if j < n {
                assert(key_lt(s[j].0, s[n].0));
                lemma_lt_trans(s[j].0, s[n].0, k);
            }
        }
    }
    lemma_count_less_split(s, k, s.len() as int);
    assert(s.insert(s.len() as int, (k, v)) =~= s.push((k, v)));
}

} // verus!
