//! Double-ended views over a map's entries, borrowed from it.
use vstd::prelude::*;

verus! {

/// Yields `(&K, &V)` for each entry, in ascending key order, from either end.
pub struct Iter<'a, K, V> {
    entries: &'a [(K, V)],
    front: usize,
    back: usize,
}

impl<'a, K, V> View for Iter<'a, K, V> {
    type V = Seq<(K, V)>;

    /// The entries not yet yielded from either end.
    closed spec fn view(&self) -> Seq<(K, V)> {
        self.entries@.subrange(self.front as int, self.back as int)
    }
}

impl<'a, K, V> Iter<'a, K, V> {
    /// The two cursors stand in order within the entries.
    pub closed spec fn wf(&self) -> bool {
        self.front <= self.back <= self.entries@.len()
    }

    /// A view over all of `entries`.
    pub fn new(entries: &'a [(K, V)]) -> (r: Self)
        ensures
            r.wf(),
            r@ == entries@,
    {
        let r = Iter { entries, front: 0, back: entries.len() };
        proof {
            assert(r@ =~= entries@);
        }
        r
    }

    /// The number of entries left.
    pub fn len(&self) -> (r: usize)
        requires
            self.wf(),
        ensures
            r == self@.len(),
    {
        self.back - self.front
    }

    /// Yields the first entry left, or `None` once none is left.
    pub fn next(&mut self) -> (r: Option<(&'a K, &'a V)>)
        requires
            old(self).wf(),
        ensures
            final(self).wf(),
            old(self)@.len() == 0 ==> r is None && final(self)@ == old(self)@,
            old(self)@.len() > 0 ==> r is Some && *r->Some_0.0 == old(self)@[0].0
                && *r->Some_0.1 == old(self)@[0].1 && final(self)@ == old(self)@.drop_first(),
    {
        if self.front == self.back {
            return None;
        }
        let e = &self.entries[self.front];
        self.front = self.front + 1;
        proof {
            assert(self@ =~= old(self)@.drop_first());
        }
        Some((&e.0, &e.1))
    }

    /// Yields the last entry left, or `None` once none is left.
    pub fn next_back(&mut self) -> (r: Option<(&'a K, &'a V)>)
        requires
            old(self).wf(),
        ensures
            final(self).wf(),
            old(self)@.len() == 0 ==> r is None && final(self)@ == old(self)@,
            old(self)@.len() > 0 ==> r is Some && *r->Some_0.0 == old(self)@.last().0
                && *r->Some_0.1 == old(self)@.last().1 && final(self)@ == old(self)@.drop_last(),
    {
        if self.front == self.back {
            return None;
        }
        self.back = self.back - 1;
        let e = &self.entries[self.back];
        proof {
            assert(self@ =~= old(self)@.drop_last());
        }
        Some((&e.0, &e.1))
    }

    /// The exact number of entries left, as lower and upper bound.
    pub fn size_hint(&self) -> (r: (usize, Option<usize>))
        requires
            self.wf(),
        ensures
            r.0 == self@.len(),
            r.1 == Some(self@.len() as usize),
    {
        let n = self.back - self.front;
        (n, Some(n))
    }

    /// The number of entries left, consuming the view.
    pub fn count(self) -> (r: usize)
        requires
            self.wf(),
        ensures
            r == self@.len(),
    {
        self.back - self.front
    }

    /// The last entry left, consuming the view.
    pub fn last(self) -> (r: Option<(&'a K, &'a V)>)
        requires
            self.wf(),
        ensures
            self@.len() == 0 ==> r is None,
            self@.len() > 0 ==> r is Some && *r->Some_0.0 == self@.last().0 && *r->Some_0.1
                == self@.last().1,
    {
        let mut it = self;
        it.next_back()
    }

    /// Skips `n` entries from the front and yields the next one; `None`, with
    /// nothing left, when fewer than `n + 1` are left.
    pub fn nth(&mut self, n: usize) -> (r: Option<(&'a K, &'a V)>)
        requires
            old(self).wf(),
        ensures
            final(self).wf(),
            n >= old(self)@.len() ==> r is None && final(self)@.len() == 0,
            n < old(self)@.len() ==> r is Some && *r->Some_0.0 == old(self)@[n as int].0
                && *r->Some_0.1 == old(self)@[n as int].1 && final(self)@ == old(self)@.subrange(
                n + 1,
                old(self)@.len() as int,
            ),
    {
        if n >= self.back - self.front {
            self.front = self.back;
            return None;
        }
        self.front = self.front + n;
        let r = self.next();
        proof {
            assert(self@ =~= old(self)@.subrange(n + 1, old(self)@.len() as int));
        }
        r
    }

    /// Skips `n` entries from the back and yields the one before them; `None`,
    /// with nothing left, when fewer than `n + 1` are left.
    pub fn nth_back(&mut self, n: usize) -> (r: Option<(&'a K, &'a V)>)
        requires
            old(self).wf(),
        ensures
            final(self).wf(),
            n >= old(self)@.len() ==> r is None && final(self)@.len() == 0,
            n < old(self)@.len() ==> r is Some && *r->Some_0.0 == old(self)@[old(self)@.len() - 1
                - n].0 && *r->Some_0.1 == old(self)@[old(self)@.len() - 1 - n].1 && final(self)@
                == old(self)@.subrange(0, old(self)@.len() - 1 - n),
    {
        if n >= self.back - self.front {
            self.back = self.front;
            return None;
        }
        self.back = self.back - n;
        let r = self.next_back();
        proof {
            assert(self@ =~= old(self)@.subrange(0, old(self)@.len() - 1 - n));
        }
        r
    }
}

/// Yields `&K` for each entry, in ascending order, from either end.
pub struct Keys<'a, K, V> {
    inner: Iter<'a, K, V>,
}

impl<'a, K, V> View for Keys<'a, K, V> {
    type V = Seq<(K, V)>;

    /// The entries whose keys are not yet yielded.
    closed spec fn view(&self) -> Seq<(K, V)> {
        self.inner@
    }
}

impl<'a, K, V> Keys<'a, K, V> {
    /// The underlying view is well formed.
    pub closed spec fn wf(&self) -> bool {
        self.inner.wf()
    }

    /// A view over the keys of all of `entries`.
    pub fn new(entries: &'a [(K, V)]) -> (r: Self)
        ensures
            r.wf(),
            r@ == entries@,
    {
        Keys { inner: Iter::new(entries) }
    }

    /// The number of keys left.
    pub fn len(&self) -> (r: usize)
        requires
            self.wf(),
        ensures
            r == self@.len(),
    {
        self.inner.len()
    }

    /// Yields the first key left, or `None` once none is left.
    pub fn next(&mut self) -> (r: Option<&'a K>)
        requires
            old(self).wf(),
        ensures
            final(self).wf(),
            old(self)@.len() == 0 ==> r is None && final(self)@ == old(self)@,
            old(self)@.len() > 0 ==> r is Some && *r->Some_0 == old(self)@[0].0 && final(self)@
                == old(self)@.drop_first(),
    {
        match self.inner.next() {
            Some((k, _)) => Some(k),
            None => None,
        }
    }

    /// Yields the last key left, or `None` once none is left.
    pub fn next_back(&mut self) -> (r: Option<&'a K>)
        requires
            old(self).wf(),
        ensures
            final(self).wf(),
            old(self)@.len() == 0 ==> r is None && final(self)@ == old(self)@,
            old(self)@.len() > 0 ==> r is Some && *r->Some_0 == old(self)@.last().0 && final(self)@
                == old(self)@.drop_last(),
    {
        match self.inner.next_back() {
            Some((k, _)) => Some(k),
            None => None,
        }
    }

    /// The number of keys left, consuming the view.
    pub fn count(self) -> (r: usize)
        requires
            self.wf(),
        ensures
            r == self@.len(),
    {
        self.inner.count()
    }

    /// The last key left, consuming the view.
    pub fn last(self) -> (r: Option<&'a K>)
        requires
            self.wf(),
        ensures
            self@.len() == 0 ==> r is None,
            self@.len() > 0 ==> r is Some && *r->Some_0 == self@.last().0,
    {
        match self.inner.last() {
            Some(e) => Some(e.0),
            None => None,
        }
    }

    /// Skips `n` keys from the front and yields the next one; `None`, with
    /// nothing left, when fewer than `n + 1` are left.
    pub fn nth(&mut self, n: usize) -> (r: Option<&'a K>)
        requires
            old(self).wf(),
        ensures
            final(self).wf(),
            n >= old(self)@.len() ==> r is None && final(self)@.len() == 0,
            n < old(self)@.len() ==> r is Some && *r->Some_0 == old(self)@[n as int].0
                && final(self)@ == old(self)@.subrange(n + 1, old(self)@.len() as int),
    {
        match self.inner.nth(n) {
            Some(e) => Some(e.0),
            None => None,
        }
    }

    /// Skips `n` keys from the back and yields the one before them; `None`,
    /// with nothing left, when fewer than `n + 1` are left.
    pub fn nth_back(&mut self, n: usize) -> (r: Option<&'a K>)
        requires
            old(self).wf(),
        ensures
            final(self).wf(),
            n >= old(self)@.len() ==> r is None && final(self)@.len() == 0,
            n < old(self)@.len() ==> r is Some && *r->Some_0 == old(self)@[old(self)@.len() - 1
                - n].0 && final(self)@ == old(self)@.subrange(0, old(self)@.len() - 1 - n),
    {
        match self.inner.nth_back(n) {
            Some(e) => Some(e.0),
            None => None,
        }
    }
}

/// Yields `&V` for each entry, in ascending key order, from either end.
pub struct Values<'a, K, V> {
    inner: Iter<'a, K, V>,
}

impl<'a, K, V> View for Values<'a, K, V> {
    type V = Seq<(K, V)>;

    /// The entries whose values are not yet yielded.
    closed spec fn view(&self) -> Seq<(K, V)> {
        self.inner@
    }
}

impl<'a, K, V> Values<'a, K, V> {
    /// The underlying view is well formed.
    pub closed spec fn wf(&self) -> bool {
        self.inner.wf()
    }

    /// A view over the values of all of `entries`.
    pub fn new(entries: &'a [(K, V)]) -> (r: Self)
        ensures
            r.wf(),
            r@ == entries@,
    {
        Values { inner: Iter::new(entries) }
    }

    /// The number of values left.
    pub fn len(&self) -> (r: usize)
        requires
            self.wf(),
        ensures
            r == self@.len(),
    {
        self.inner.len()
    }

    /// Yields the first value left, or `None` once none is left.
    pub fn next(&mut self) -> (r: Option<&'a V>)
        requires
            old(self).wf(),
        ensures
            final(self).wf(),
            old(self)@.len() == 0 ==> r is None && final(self)@ == old(self)@,
            old(self)@.len() > 0 ==> r is Some && *r->Some_0 == old(self)@[0].1 && final(self)@
                == old(self)@.drop_first(),
    {
        match self.inner.next() {
            Some((_, v)) => Some(v),
            None => None,
        }
    }

    /// Yields the last value left, or `None` once none is left.
    pub fn next_back(&mut self) -> (r: Option<&'a V>)
        requires
            old(self).wf(),
        ensures
            final(self).wf(),
            old(self)@.len() == 0 ==> r is None && final(self)@ == old(self)@,
            old(self)@.len() > 0 ==> r is Some && *r->Some_0 == old(self)@.last().1 && final(self)@
                == old(self)@.drop_last(),
    {
        match self.inner.next_back() {
            Some((_, v)) => Some(v),
            None => None,
        }
    }

    /// The number of values left, consuming the view.
    pub fn count(self) -> (r: usize)
        requires
            self.wf(),
        ensures
            r == self@.len(),
    {
        self.inner.count()
    }

    /// The last value left, consuming the view.
    pub fn last(self) -> (r: Option<&'a V>)
        requires
            self.wf(),
        ensures
            self@.len() == 0 ==> r is None,
            self@.len() > 0 ==> r is Some && *r->Some_0 == self@.last().1,
    {
        match self.inner.last() {
            Some(e) => Some(e.1),
            None => None,
        }
    }

    /// Skips `n` values from the front and yields the next one; `None`, with
    /// nothing left, when fewer than `n + 1` are left.
    pub fn nth(&mut self, n: usize) -> (r: Option<&'a V>)
        requires
            old(self).wf(),
        ensures
            final(self).wf(),
            n >= old(self)@.len() ==> r is None && final(self)@.len() == 0,
            n < old(self)@.len() ==> r is Some && *r->Some_0 == old(self)@[n as int].1
                && final(self)@ == old(self)@.subrange(n + 1, old(self)@.len() as int),
    {
        match self.inner.nth(n) {
            Some(e) => Some(e.1),
            None => None,
        }
    }

    /// Skips `n` values from the back and yields the one before them; `None`,
    /// with nothing left, when fewer than `n + 1` are left.
    pub fn nth_back(&mut self, n: usize) -> (r: Option<&'a V>)
        requires
            old(self).wf(),
        ensures
            final(self).wf(),
            n >= old(self)@.len() ==> r is None && final(self)@.len() == 0,
            n < old(self)@.len() ==> r is Some && *r->Some_0 == old(self)@[old(self)@.len() - 1
                - n].1 && final(self)@ == old(self)@.subrange(0, old(self)@.len() - 1 - n),
    {
        match self.inner.nth_back(n) {
            Some(e) => Some(e.1),
            None => None,
        }
    }
}

} // verus!
