//! The map: entries in one `Vec`, kept in ascending key order.
use crate::iter::{Iter, Keys, Values};
use crate::iter_mut::ValuesMut;
use crate::order::{
    appendable, count_less, has_key, inserted, inserted_all, key_lt, lemma_after_insertion_point,
    lemma_count_less_bounds, lemma_count_less_split, lemma_lt_trans, lemma_push_is_insert,
    lemma_value_update_keeps_sorted, removed, search, sorted, total_order,
};
use core::cmp::Ordering;
use vstd::prelude::*;
use vstd::std_specs::cmp::OrdSpec;

verus! {

/// An ordered map that keeps its entries in one contiguous, sorted `Vec`.
#[derive(Clone, Debug, PartialEq, Eq, PartialOrd, Ord, Hash)]
pub struct VecBTreeMap<K, V> {
    base: Vec<(K, V)>,
}

impl<K, V> View for VecBTreeMap<K, V> {
    type V = Seq<(K, V)>;

    closed spec fn view(&self) -> Seq<(K, V)> {
        self.base@
    }
}

impl<K, V> Default for VecBTreeMap<K, V> {
    /// An empty map.
    fn default() -> (r: Self)
        ensures
            r@ == Seq::<(K, V)>::empty(),
    {
        VecBTreeMap { base: Vec::new() }
    }
}

impl<K: Ord, V> VecBTreeMap<K, V> {
    /// The map's invariant: keys strictly ascend.
    pub open spec fn wf(&self) -> bool {
        sorted(self@)
    }

    /// An empty map; it does not allocate.
    pub fn new() -> (r: Self)
        ensures
            r@ == Seq::<(K, V)>::empty(),
            r.wf(),
    {
        VecBTreeMap { base: Vec::new() }
    }

    /// An empty map with room for at least `capacity` entries.
    pub fn with_capacity(capacity: usize) -> (r: Self)
        ensures
            r@ == Seq::<(K, V)>::empty(),
            r.wf(),
    {
        VecBTreeMap { base: Vec::with_capacity(capacity) }
    }

    /// The number of entries.
    pub fn len(&self) -> (r: usize)
        ensures
            r == self@.len(),
    {
        self.base.len()
    }

    /// Whether the map holds no entry.
    pub fn is_empty(&self) -> (r: bool)
        ensures
            r == (self@.len() == 0),
    {
        self.base.len() == 0
    }

    /// The entries, in ascending key order.
    pub fn as_slice(&self) -> (r: &[(K, V)])
        ensures
            r@ == self@,
    {
        self.base.as_slice()
    }

    /// A view yielding every entry, in ascending key order.
    pub fn iter(&self) -> (r: Iter<'_, K, V>)
        ensures
            r.wf(),
            r@ == self@,
    {
        Iter::new(self.base.as_slice())
    }

    /// A view yielding every key, in ascending order.
    pub fn keys(&self) -> (r: Keys<'_, K, V>)
        ensures
            r.wf(),
            r@ == self@,
    {
        Keys::new(self.base.as_slice())
    }

    /// A view yielding every value, in ascending key order.
    pub fn values(&self) -> (r: Values<'_, K, V>)
        ensures
            r.wf(),
            r@ == self@,
    {
        Values::new(self.base.as_slice())
    }

    /// A view yielding mutable access to every value, in ascending key order;
    /// keys cannot be reached through it.
    pub fn values_mut(&mut self) -> (r: ValuesMut<'_, K, V>)
        ensures
            r@ == old(self)@,
    {
        ValuesMut::new(self.base.as_mut_slice())
    }

    /// The value of the `i`-th smallest entry.
    pub fn index(&self, i: usize) -> (r: &V)
        requires
            i < self@.len(),
        ensures
            *r == self@[i as int].1,
    {
        &self.base[i].1
    }

    /// Mutable access to the value of the `i`-th smallest entry; the key
    /// cannot be reached through it, so the map stays sorted (see
    /// `lemma_value_update_keeps_sorted`).
    pub fn index_mut(&mut self, i: usize) -> (r: &mut V)
        requires
            old(self).wf(),
            i < old(self)@.len(),
        ensures
            *r == old(self)@[i as int].1,
            final(self)@ == old(self)@.update(i as int, (old(self)@[i as int].0, *final(r))),
    {
        &mut self.base[i].1
    }

    /// Replaces the value of the `i`-th smallest entry, returning the old one.
    /// The key stays.
    pub fn replace_value(&mut self, i: usize, v: V) -> (r: V)
        requires
            old(self).wf(),
            i < old(self)@.len(),
        ensures
            final(self).wf(),
            r == old(self)@[i as int].1,
            final(self)@ == old(self)@.update(i as int, (old(self)@[i as int].0, v)),
    {
        let ghost s = self@;
        let (k, old_v) = self.base.remove(i);
        self.base.insert(i, (k, v));
        proof {
            assert(self@ =~= s.update(i as int, (s[i as int].0, v)));
            lemma_value_update_keeps_sorted(s, i as int, v);
        }
        old_v
    }

    /// Binary searches for `k`: `Ok` with the index of the entry whose key
    /// equals `k`, or `Err` with the index where `k` would be inserted, the
    /// number of keys less than `k`.
    pub fn binary_search(&self, k: &K) -> (r: Result<usize, usize>)
        requires
            total_order::<K>(),
            self.wf(),
        ensures
            r == search(self@, *k),
    {
        let ghost s = self@;
        let mut lo: usize = 0;
        let mut hi: usize = self.base.len();
        while lo < hi
            invariant
                total_order::<K>(),
                sorted(s),
                s == self.base@,
                0 <= lo <= hi <= s.len(),
                forall|j: int| 0 <= j < lo ==> key_lt(#[trigger] s[j].0, *k),
                forall|j: int| hi <= j < s.len() ==> key_lt(*k, #[trigger] s[j].0),
            decreases hi - lo,
        {
            let mid = lo + (hi - lo) / 2;
            match self.base[mid].0.cmp(k) {
                Ordering::Less => {
                    proof {
                        assert forall|j: int| 0 <= j <= mid implies key_lt(#[trigger] s[j].0, *k) by {
                            if j < mid {
                                assert(key_lt(s[j].0, s[mid as int].0));
                                lemma_lt_trans(s[j].0, s[mid as int].0, *k);
                            }
                        }
                    }
                    lo = mid + 1;
                },
                Ordering::Greater => {
                    proof {
                        assert forall|j: int| mid <= j < s.len() implies key_lt(
                            *k,
                            #[trigger] s[j].0,
                        ) by {
                            if j > mid {
                                assert(key_lt(s[mid as int].0, s[j].0));
                                lemma_lt_trans(*k, s[mid as int].0, s[j].0);
                            }
                        }
                    }
                    hi = mid;
                },
                Ordering::Equal => {
                    proof {
                        assert forall|j: int| mid <= j < s.len() implies !key_lt(
                            #[trigger] s[j].0,
                            *k,
                        ) by {
                            if j > mid {
                                assert(key_lt(s[mid as int].0, s[j].0));
                            } else if j >= hi {
                                assert(key_lt(*k, s[j].0));
                            }
                        }
                        assert forall|j: int| 0 <= j < mid implies key_lt(#[trigger] s[j].0, *k) by {
                            assert(key_lt(s[j].0, s[mid as int].0));
                            lemma_lt_trans(s[j].0, s[mid as int].0, *k);
                        }
                        lemma_count_less_split(s, *k, mid as int);
                    }
                    return Ok(mid);
                },
            }
        }
        proof {
            assert forall|j: int| lo <= j < s.len() implies !key_lt(#[trigger] s[j].0, *k) by {
                assert(key_lt(*k, s[j].0));
            }
            lemma_count_less_split(s, *k, lo as int);
            if has_key(s, *k) {
                assert(key_lt(*k, s[lo as int].0));
            }
        }
        Err(lo)
    }

    /// Appends `(k, v)` if the map is empty or `k` exceeds its last key, and
    /// returns `None`; otherwise leaves the map as it is and hands the pair
    /// back.
    pub fn push(&mut self, k: K, v: V) -> (r: Option<(K, V)>)
        requires
            total_order::<K>(),
            old(self).wf(),
        ensures
            final(self).wf(),
            appendable(old(self)@, k) ==> r is None && final(self)@ == old(self)@.push((k, v)),
            !appendable(old(self)@, k) ==> r == Some((k, v)) && final(self)@ == old(self)@,
    {
        let n = self.base.len();
        if n > 0 {
            match self.base[n - 1].0.cmp(&k) {
                Ordering::Less => {},
                _ => {
                    return Some((k, v));
                },
            }
        }
        let ghost s = self@;
        self.base.push((k, v));
        proof {
            assert forall|a: int, b: int| 0 <= a < b < self@.len() implies key_lt(
                #[trigger] self@[a].0,
                #[trigger] self@[b].0,
            ) by {
                if b == n {
                    if a < n - 1 {
                        assert(key_lt(s[a].0, s[n - 1].0));
                        lemma_lt_trans(s[a].0, s[n - 1].0, k);
                    }
                } else {
                    assert(s[a] == self@[a] && s[b] == self@[b]);
                }
            }
        }
        None
    }

    /// Inserts `(k, v)`. Where a key equal to `k` is present its value is
    /// replaced and returned, and the stored key stays; otherwise the pair is
    /// placed at its insertion point and `None` is returned.
    pub fn insert(&mut self, k: K, v: V) -> (r: Option<V>)
        requires
            total_order::<K>(),
            old(self).wf(),
        ensures
            final(self).wf(),
            final(self)@ == inserted(old(self)@, k, v),
            r == if has_key(old(self)@, k) {
                Some(old(self)@[count_less(old(self)@, k) as int].1)
            } else {
                None
            },
    {
        let ghost s = self@;
        proof {
            lemma_count_less_bounds(s, k);
            assert(self.base.len() == s.len());
        }
        match self.binary_search(&k) {
            Ok(i) => {
                proof {
                    assert(i == count_less(s, k));
                }
                Some(self.replace_value(i, v))
            },
            Err(i) => {
                self.base.insert(i, (k, v));
                proof {
                    assert(i == count_less(s, k));
                    assert(self@ =~= s.insert(i as int, (k, v)));
                    assert forall|a: int, b: int| 0 <= a < b < self@.len() implies key_lt(
                        #[trigger] self@[a].0,
                        #[trigger] self@[b].0,
                    ) by {
                        if a == i {
                            lemma_after_insertion_point(s, k, b - 1);
                        } else if b == i {
                            assert(key_lt(s[a].0, k));
                        } else {
                            let a0 = if a < i { a } else { a - 1 };
                            let b0 = if b < i { b } else { b - 1 };
                            assert(self@[a] == s[a0] && self@[b] == s[b0]);
                        }
                    }
                }
                None
            },
        }
    }

    /// Removes the entry whose key equals `k` and returns its value, or
    /// returns `None` and leaves the map as it is.
    pub fn remove(&mut self, k: &K) -> (r: Option<V>)
        requires
            total_order::<K>(),
            old(self).wf(),
        ensures
            final(self).wf(),
            final(self)@ == removed(old(self)@, *k),
            r == if has_key(old(self)@, *k) {
                Some(old(self)@[count_less(old(self)@, *k) as int].1)
            } else {
                None
            },
    {
        let ghost s = self@;
        proof {
            lemma_count_less_bounds(s, *k);
            assert(self.base.len() == s.len());
        }
        match self.binary_search(k) {
            Ok(i) => {
                let (_, v) = self.base.remove(i);
                proof {
                    assert(i == count_less(s, *k));
                    assert(self@ =~= s.remove(i as int));
                    assert forall|a: int, b: int| 0 <= a < b < self@.len() implies key_lt(
                        #[trigger] self@[a].0,
                        #[trigger] self@[b].0,
                    ) by {
                        let a0 = if a < i { a } else { a + 1 };
                        let b0 = if b < i { b } else { b + 1 };
                        assert(self@[a] == s[a0] && self@[b] == s[b0]);
                    }
                }
                Some(v)
            },
            Err(_) => None,
        }
    }

    /// Removes and returns the entry with the greatest key, or `None` when
    /// the map is empty.
    pub fn pop(&mut self) -> (r: Option<(K, V)>)
        requires
            old(self).wf(),
        ensures
            final(self).wf(),
            old(self)@.len() == 0 ==> r is None && final(self)@ == old(self)@,
            old(self)@.len() > 0 ==> r == Some(old(self)@.last()) && final(self)@
                == old(self)@.drop_last(),
    {
        let r = self.base.pop();
        proof {
            assert forall|a: int, b: int| 0 <= a < b < self@.len() implies key_lt(
                #[trigger] self@[a].0,
                #[trigger] self@[b].0,
            ) by {
                assert(self@[a] == old(self)@[a] && self@[b] == old(self)@[b]);
            }
        }
        r
    }

    /// Removes every entry; the allocation is kept.
    pub fn clear(&mut self)
        requires
            old(self).wf(),
        ensures
            final(self).wf(),
            final(self)@ == Seq::<(K, V)>::empty(),
    {
        self.base.clear();
    }

    /// Builds a map from pairs in any order, possibly with repeated keys:
    /// each pair is pushed, or inserted where it cannot be pushed, so the
    /// result is what inserting every pair in turn gives, and of pairs with
    /// equal keys the last one's value stays.
    pub fn from_entries(pairs: Vec<(K, V)>) -> (r: Self)
        requires
            total_order::<K>(),
        ensures
            r.wf(),
            r@ == inserted_all(Seq::<(K, V)>::empty(), pairs@),
    {
        let ghost all = pairs@;
        let n = pairs.len();
        let mut pairs = pairs;
        let mut rev: Vec<(K, V)> = Vec::new();
        while pairs.len() > 0
            invariant
                all.len() == n,
                rev@.len() + pairs@.len() == n,
                pairs@ == all.subrange(0, pairs@.len() as int),
                forall|i: int| 0 <= i < rev@.len() ==> #[trigger] rev@[i] == all[n - 1 - i],
            decreases pairs@.len(),
        {
            let e = pairs.pop().unwrap();
            rev.push(e);
            proof {
                assert(pairs@ =~= all.subrange(0, pairs@.len() as int));
            }
        }
        let mut m = VecBTreeMap::with_capacity(n);
        while rev.len() > 0
            invariant
                total_order::<K>(),
                all.len() == n,
                rev@.len() <= n,
                forall|i: int| 0 <= i < rev@.len() ==> #[trigger] rev@[i] == all[n - 1 - i],
                m.wf(),
                m@ == inserted_all(Seq::<(K, V)>::empty(), all.subrange(0, n - rev@.len())),
            decreases rev@.len(),
        {
            let ghost before = m@;
            let ghost done = all.subrange(0, n - rev@.len());
            let (k, v) = rev.pop().unwrap();
            proof {
                let next = all.subrange(0, n - rev@.len());
                assert(next.drop_last() =~= done);
                assert(next.last() == (k, v));
            }
            match m.push(k, v) {
                Some((k, v)) => {
                    m.insert(k, v);
                },
                None => {
                    proof {
                        lemma_push_is_insert(before, k, v);
                    }
                },
            }
        }
        proof {
            assert(all.subrange(0, n as int) =~= all);
        }
        m
    }
}

} // verus!
