//! Views yielding mutable access to each value of a map; keys are only ever
//! handed out shared.
use vstd::prelude::*;

verus! {

/// Yields `(&K, &mut V)` for each entry, in ascending key order, from either
/// end.
pub struct IterMut<'a, K, V> {
    rest: &'a mut [(K, V)],
}

impl<'a, K, V> View for IterMut<'a, K, V> {
    type V = Seq<(K, V)>;

    /// The entries not yet yielded, as they stand now.
    closed spec fn view(&self) -> Seq<(K, V)> {
        self.rest@
    }
}

impl<'a, K, V> IterMut<'a, K, V> {
    /// A view over all of `entries`.
    pub fn new(entries: &'a mut [(K, V)]) -> (r: Self)
        ensures
            r@ == old(entries)@,
    {
        IterMut { rest: entries }
    }

    /// The number of entries left.
    pub fn len(&self) -> (r: usize)
        ensures
            r == self@.len(),
    {
        self.rest.len()
    }

    /// Yields the first entry left, or `None` once none is left.
    pub fn next(&mut self) -> (r: Option<(&'a K, &'a mut V)>)
        ensures
            old(self)@.len() == 0 ==> r is None && final(self)@ == old(self)@,
            old(self)@.len() > 0 ==> r is Some && *r->Some_0.0 == old(self)@[0].0
                && *r->Some_0.1 == old(self)@[0].1 && final(self)@ == old(self)@.drop_first(),
    {
        let n = self.rest.len();
        if n == 0 {
            return None;
        }
        let mut taken: &'a mut [(K, V)] = &mut [];
        core::mem::swap(&mut self.rest, &mut taken);
        let (first, tail) = taken.split_at_mut(1);
        self.rest = tail;
        match first.first_mut() {
            Some(e) => {
                let (k, v) = e;
                Some((&*k, v))
            },
            None => None,
        }
    }

    /// Yields the last entry left, or `None` once none is left.
    pub fn next_back(&mut self) -> (r: Option<(&'a K, &'a mut V)>)
        ensures
            old(self)@.len() == 0 ==> r is None && final(self)@ == old(self)@,
            old(self)@.len() > 0 ==> r is Some && *r->Some_0.0 == old(self)@.last().0
                && *r->Some_0.1 == old(self)@.last().1 && final(self)@ == old(self)@.drop_last(),
    {
        let n = self.rest.len();
        if n == 0 {
            return None;
        }
        let mut taken: &'a mut [(K, V)] = &mut [];
        core::mem::swap(&mut self.rest, &mut taken);
        let (head, last) = taken.split_at_mut(n - 1);
        self.rest = head;
        match last.first_mut() {
            Some(e) => {
                let (k, v) = e;
                Some((&*k, v))
            },
            None => None,
        }
    }
}

/// Yields `&mut V` for each entry, in ascending key order, from either end.
pub struct ValuesMut<'a, K, V> {
    inner: IterMut<'a, K, V>,
}

impl<'a, K, V> View for ValuesMut<'a, K, V> {
    type V = Seq<(K, V)>;

    /// The entries whose values are not yet yielded, as they stand now.
    closed spec fn view(&self) -> Seq<(K, V)> {
        self.inner@
    }
}

impl<'a, K, V> ValuesMut<'a, K, V> {
    /// A view over the values of all of `entries`.
    pub fn new(entries: &'a mut [(K, V)]) -> (r: Self)
        ensures
            r@ == old(entries)@,
    {
        ValuesMut { inner: IterMut::new(entries) }
    }

    /// The number of values left.
    pub fn len(&self) -> (r: usize)
        ensures
            r == self@.len(),
    {
        self.inner.len()
    }

    /// Yields the first value left, or `None` once none is left.
    pub fn next(&mut self) -> (r: Option<&'a mut V>)
        ensures
            old(self)@.len() == 0 ==> r is None && final(self)@ == old(self)@,
            old(self)@.len() > 0 ==> r is Some && *r->Some_0 == old(self)@[0].1 && final(self)@
                == old(self)@.drop_first(),
    {
        match self.inner.next() {
            Some((_, v)) => Some(v),
            None => None,
        }
    }

    /// Yields the last value left, or `None` once none is left.
    pub fn next_back(&mut self) -> (r: Option<&'a mut V>)
        ensures
            old(self)@.len() == 0 ==> r is None && final(self)@ == old(self)@,
            old(self)@.len() > 0 ==> r is Some && *r->Some_0 == old(self)@.last().1 && final(self)@
                == old(self)@.drop_last(),
    {
        match self.inner.next_back() {
            Some((_, v)) => Some(v),
            None => None,
        }
    }
}

} // verus!
