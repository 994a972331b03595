//! Laws of the model that relate search, insertion, removal and pushing.
use crate::order::{
    appendable, count_less, has_key, inserted, inserted_all, key_eq, key_lt, last_value, lookup,
    lemma_after_insertion_point, lemma_count_less_bounds, lemma_push_is_insert, removed, search,
    sorted, total_order,
};
use core::cmp::Ordering;
use vstd::prelude::*;
use vstd::std_specs::cmp::OrdSpec;

verus! {

/// Search is correct on every sorted sequence: it finds `Ok(i)` exactly when
/// the key at `i` equals the probe, and otherwise `Err(i)` where every key
/// before `i` is smaller than the probe and every key from `i` on is larger.
pub proof fn search_is_correct<K: Ord, V>(s: Seq<(K, V)>, k: K)
    requires
        total_order::<K>(),
        sorted(s),
        s.len() <= usize::MAX,
    ensures
        forall|i: usize| search(s, k) == Ok::<usize, usize>(i) <==> (i < s.len() && key_eq(s[i as int].0, k)),
        search(s, k) is Err ==> ({
            let i = search(s, k)->Err_0 as int;
            &&& 0 <= i <= s.len()
            &&& forall|j: int| 0 <= j < i ==> key_lt(#[trigger] s[j].0, k)
            &&& forall|j: int| i <= j < s.len() ==> key_lt(k, #[trigger] s[j].0)
        }),
{
    lemma_count_less_bounds(s, k);
    let c = count_less(s, k) as int;
    assert forall|i: usize| search(s, k) == Ok::<usize, usize>(i) <==> (i < s.len() && key_eq(
        s[i as int].0,
        k,
    )) by {
        if i < s.len() && key_eq(s[i as int].0, k) {
            if (i as int) < c {
                assert(key_lt(s[i as int].0, k));
            } else if (i as int) > c {
                lemma_after_insertion_point(s, k, i as int);
                assert(k.cmp_spec(&s[i as int].0) == Ordering::Equal);
            }
        }
    }
    if !has_key(s, k) {
        assert forall|j: int| c <= j < s.len() implies key_lt(k, #[trigger] s[j].0) by {
            lemma_after_insertion_point(s, k, j);
        }
    }
}

/// On an empty sequence search reports insertion point 0, and removal changes
/// nothing.
pub proof fn empty_boundary<K: Ord, V>(k: K)
    ensures
        search(Seq::<(K, V)>::empty(), k) == Err::<usize, usize>(0),
        removed(Seq::<(K, V)>::empty(), k) == Seq::<(K, V)>::empty(),
{
}

/// Inserting a key twice keeps it at one position under its first identity:
/// the second insertion finds it, hands back the first value, and changes
/// only that value.
pub proof fn insert_same_key_twice<K: Ord, V>(s: Seq<(K, V)>, k: K, v1: V, v2: V)
    requires
        total_order::<K>(),
        sorted(s),
    ensures
        ({
            let s1 = inserted(s, k, v1);
            let s2 = inserted(s1, k, v2);
            let i = count_less(s1, k) as int;
            &&& has_key(s1, k)
            &&& i == count_less(s, k)
            &&& s1[i].1 == v1
            &&& s2 == s1.update(i, (s1[i].0, v2))
            &&& s2.len() == s1.len()
            &&& forall|j: int| 0 <= j < s2.len() ==> (#[trigger] s2[j]).0 == s1[j].0
        }),
{
    lemma_count_less_bounds(s, k);
    let c = count_less(s, k) as int;
    let s1 = inserted(s, k, v1);
    if has_key(s, k) {
        assert forall|j: int| 0 <= j < s1.len() implies #[trigger] s1[j].0 == s[j].0 by {}
        assert forall|j: int| 0 <= j < c implies key_lt(#[trigger] s1[j].0, k) by {}
        assert forall|j: int| c <= j < s1.len() implies !key_lt(#[trigger] s1[j].0, k) by {}
        crate::order::lemma_count_less_split(s1, k, c);
    } else {
        assert forall|j: int| 0 <= j < c implies key_lt(#[trigger] s1[j].0, k) by {
            assert(s1[j] == s[j]);
        }
        assert forall|j: int| c <= j < s1.len() implies !key_lt(#[trigger] s1[j].0, k) by {
            if j == c {
                assert(s1[j] == (k, v1));
                assert(k.cmp_spec(&k) == Ordering::Equal) by {
                    assert(k.cmp_spec(&k) == Ordering::Less <==> k.cmp_spec(&k) == Ordering::Greater);
                }
            } else {
                assert(s1[j] == s[j - 1]);
                lemma_after_insertion_point(s, k, j - 1);
                assert(s[j - 1].0.cmp_spec(&k) == Ordering::Greater);
            }
        }
        crate::order::lemma_count_less_split(s1, k, c);
        assert(k.cmp_spec(&k) == Ordering::Equal) by {
            assert(k.cmp_spec(&k) == Ordering::Less <==> k.cmp_spec(&k) == Ordering::Greater);
        }
    }
    let s2 = inserted(s1, k, v2);
    assert forall|j: int| 0 <= j < s2.len() implies (#[trigger] s2[j]).0 == s1[j].0 by {}
}

/// Pushing a pair that can be appended has the effect of inserting it; so
/// building a map by pushing each pair, and inserting it where the push is
/// refused, gives what inserting every pair in turn gives.
pub proof fn push_agrees_with_insert<K: Ord, V>(s: Seq<(K, V)>, k: K, v: V)
    requires
        total_order::<K>(),
        sorted(s),
    ensures
        appendable(s, k) ==> s.push((k, v)) == inserted(s, k, v),
{
    if appendable(s, k) {
        lemma_push_is_insert(s, k, v);
    }
}

/// Inserting a sequence of pairs, first to last, into an empty sequence
/// yields a sorted sequence.
pub proof fn inserted_all_is_sorted<K: Ord, V>(pairs: Seq<(K, V)>)
    requires
        total_order::<K>(),
    ensures
        sorted(inserted_all(Seq::<(K, V)>::empty(), pairs)),
    decreases pairs.len(),
{
    if pairs.len() > 0 {
        inserted_all_is_sorted(pairs.drop_last());
        mutations_keep_sorted(
            inserted_all(Seq::<(K, V)>::empty(), pairs.drop_last()),
            pairs.last().0,
            pairs.last().1,
        );
    }
}

/// Insertion and removal keep a sequence sorted, and so do pushing an
/// appendable pair and dropping the last entry.
pub proof fn mutations_keep_sorted<K: Ord, V>(s: Seq<(K, V)>, k: K, v: V)
    requires
        total_order::<K>(),
        sorted(s),
    ensures
        sorted(inserted(s, k, v)),
        sorted(removed(s, k)),
        appendable(s, k) ==> sorted(s.push((k, v))),
        s.len() > 0 ==> sorted(s.drop_last()),
{
    lemma_count_less_bounds(s, k);
    let c = count_less(s, k) as int;
    let t = inserted(s, k, v);
    if has_key(s, k) {
        assert forall|a: int, b: int| 0 <= a < b < t.len() implies key_lt(
            #[trigger] t[a].0,
            #[trigger] t[b].0,
        ) by {
            assert(t[a].0 == s[a].0 && t[b].0 == s[b].0);
        }
        let r = removed(s, k);
        assert forall|a: int, b: int| 0 <= a < b < r.len() implies key_lt(
            #[trigger] r[a].0,
            #[trigger] r[b].0,
        ) by {
            let a0 = if a < c { a } else { a + 1 };
            let b0 = if b < c { b } else { b + 1 };
            assert(r[a] == s[a0] && r[b] == s[b0]);
        }
    } else {
        assert forall|a: int, b: int| 0 <= a < b < t.len() implies key_lt(
            #[trigger] t[a].0,
            #[trigger] t[b].0,
        ) by {
            if a == c {
                lemma_after_insertion_point(s, k, b - 1);
            } else if b == c {
                assert(key_lt(s[a].0, k));
            } else {
                let a0 = if a < c { a } else { a - 1 };
                let b0 = if b < c { b } else { b - 1 };
                assert(t[a] == s[a0] && t[b] == s[b0]);
            }
        }
    }
    if appendable(s, k) {
        lemma_push_is_insert(s, k, v);
    }
    if s.len() > 0 {
        let d = s.drop_last();
        assert forall|a: int, b: int| 0 <= a < b < d.len() implies key_lt(
            #[trigger] d[a].0,
            #[trigger] d[b].0,
        ) by {
            assert(d[a] == s[a] && d[b] == s[b]);
        }
    }
}

/// Keys that compare equal to a common key compare equal to each other.
proof fn lemma_eq_trans<K: Ord>(a: K, b: K, c: K)
    requires
        total_order::<K>(),
        key_eq(a, b),
        key_eq(b, c),
    ensures
        key_eq(a, c),
{
    assert(a.cmp_spec(&b) != Ordering::Greater && b.cmp_spec(&c) != Ordering::Greater);
    assert(key_eq(c, b) && key_eq(b, a));
    assert(c.cmp_spec(&b) != Ordering::Greater && b.cmp_spec(&a) != Ordering::Greater);
    if key_lt(a, c) {
        assert(c.cmp_spec(&a) == Ordering::Greater);
    }
}

/// In a sorted sequence an entry whose key equals `q` is the one `lookup`
/// finds.
proof fn lemma_lookup_at<K: Ord, V>(s: Seq<(K, V)>, q: K, j: int)
    requires
        total_order::<K>(),
        sorted(s),
        0 <= j < s.len(),
        key_eq(s[j].0, q),
    ensures
        count_less(s, q) == j,
        lookup(s, q) == Some(s[j].1),
{
    lemma_count_less_bounds(s, q);
    let c = count_less(s, q) as int;
    if j < c {
        assert(key_lt(s[j].0, q));
    } else if j > c {
        lemma_after_insertion_point(s, q, j);
        assert(s[j].0.cmp_spec(&q) == Ordering::Greater);
    }
}

/// After inserting `(k, v)`, `v` stands under every key equal to `k`.
proof fn lemma_lookup_inserted_key<K: Ord, V>(s: Seq<(K, V)>, k: K, v: V, q: K)
    requires
        total_order::<K>(),
        sorted(s),
        sorted(inserted(s, k, v)),
        key_eq(k, q),
    ensures
        lookup(inserted(s, k, v), q) == Some(v),
{
    lemma_count_less_bounds(s, k);
    let c = count_less(s, k) as int;
    if has_key(s, k) {
        lemma_eq_trans(s[c].0, k, q);
    }
    lemma_lookup_at(inserted(s, k, v), q, c);
}

/// After inserting `(k, v)`, a value under a key `q` not equal to `k` is
/// still there.
proof fn lemma_lookup_other_present<K: Ord, V>(s: Seq<(K, V)>, k: K, v: V, q: K)
    requires
        total_order::<K>(),
        sorted(s),
        sorted(inserted(s, k, v)),
        !key_eq(k, q),
        has_key(s, q),
    ensures
        lookup(inserted(s, k, v), q) == lookup(s, q),
{
    lemma_count_less_bounds(s, k);
    lemma_count_less_bounds(s, q);
    let c = count_less(s, k) as int;
    let j = count_less(s, q) as int;
    let t = inserted(s, k, v);
    if has_key(s, k) {
        if j == c {
            assert(key_eq(k, s[c].0));
            lemma_eq_trans(k, s[c].0, q);
        }
        assert(t[j] == s[j]);
        lemma_lookup_at(t, q, j);
    } else {
        let j2 = if j < c { j } else { j + 1 };
        assert(t[j2] == s[j]);
        lemma_lookup_at(t, q, j2);
    }
}

/// After inserting `(k, v)`, a key `q` not equal to `k` that had no value
/// still has none.
proof fn lemma_lookup_other_absent<K: Ord, V>(s: Seq<(K, V)>, k: K, v: V, q: K)
    requires
        total_order::<K>(),
        sorted(s),
        sorted(inserted(s, k, v)),
        !key_eq(k, q),
        !has_key(s, q),
    ensures
        lookup(inserted(s, k, v), q) is None,
{
    lemma_count_less_bounds(s, k);
    let c = count_less(s, k) as int;
    let t = inserted(s, k, v);
    if has_key(t, q) {
        let j = count_less(t, q) as int;
        if has_key(s, k) {
            if j == c {
                assert(key_eq(k, s[c].0));
                lemma_eq_trans(k, s[c].0, q);
            }
            assert(t[j].0 == s[j].0);
            lemma_lookup_at(s, q, j);
        } else if j != c {
            let j0 = if j < c { j } else { j - 1 };
            assert(t[j] == s[j0]);
            lemma_lookup_at(s, q, j0);
        }
    }
}

/// Inserting `(k, v)` sets the value under `k` and leaves the value under
/// every key not equal to `k` as it was.
pub proof fn lookup_after_insert<K: Ord, V>(s: Seq<(K, V)>, k: K, v: V, q: K)
    requires
        total_order::<K>(),
        sorted(s),
    ensures
        lookup(inserted(s, k, v), q) == if key_eq(k, q) {
            Some(v)
        } else {
            lookup(s, q)
        },
{
    mutations_keep_sorted(s, k, v);
    if key_eq(k, q) {
        lemma_lookup_inserted_key(s, k, v, q);
    } else if has_key(s, q) {
        lemma_lookup_other_present(s, k, v, q);
    } else {
        lemma_lookup_other_absent(s, k, v, q);
    }
}

/// Inserting pairs in turn, whatever their order and however often a key
/// repeats, leaves under each key the value of the last pair with an equal
/// key, and no entry for a key that no pair has.
pub proof fn lookup_after_inserting_all<K: Ord, V>(pairs: Seq<(K, V)>, q: K)
    requires
        total_order::<K>(),
    ensures
        lookup(inserted_all(Seq::<(K, V)>::empty(), pairs), q) == last_value(pairs, q),
    decreases pairs.len(),
{
    if pairs.len() > 0 {
        let rest = pairs.drop_last();
        lookup_after_inserting_all(rest, q);
        inserted_all_is_sorted(rest);
        lookup_after_insert(
            inserted_all(Seq::<(K, V)>::empty(), rest),
            pairs.last().0,
            pairs.last().1,
            q,
        );
    }
}

} // verus!
