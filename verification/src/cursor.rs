//! The public cursors handed out by both faces of the trie.
//!
//! Each cursor's model is the sequence of items it has still to yield; `next`
//! yields the first of them and drops it from the model.

use vstd::prelude::*;
use crate::iter::{RangeIter, RevRangeIter, RevValueIter, ValueIter};
use crate::node::{derefs, entry_views};
use crate::order::Component;

verus! {

/// Iterator over references to every value in a trie, in key order.
pub struct Values<'a, C, V> {
    inner: ValueIter<'a, C, V>,
}

impl<'a, C, V> View for Values<'a, C, V> {
    type V = Seq<V>;

    closed spec fn view(&self) -> Seq<V> {
        self.inner@
    }
}

impl<'a, C, V> Values<'a, C, V> {
    /// Wraps an internal cursor.
    pub(crate) fn new(inner: ValueIter<'a, C, V>) -> (r: Self)
        ensures
            r@ == inner@,
    {
        Values { inner }
    }

    /// Yields the next value.
    pub fn next(&mut self) -> (r: Option<&'a V>)
        ensures
            r is None <==> old(self)@.len() == 0,
            r is None ==> final(self)@ == old(self)@,
            r matches Some(v) ==> *v == old(self)@[0] && final(self)@ == old(self)@.drop_first(),
    {
        self.inner.next()
    }
}

/// Iterator over references to the values of the strict descendants of a key, in
/// key order.
pub struct Descendants<'a, C, V> {
    inner: ValueIter<'a, C, V>,
}

impl<'a, C, V> View for Descendants<'a, C, V> {
    type V = Seq<V>;

    closed spec fn view(&self) -> Seq<V> {
        self.inner@
    }
}

impl<'a, C, V> Descendants<'a, C, V> {
    /// Wraps an internal cursor.
    pub(crate) fn new(inner: ValueIter<'a, C, V>) -> (r: Self)
        ensures
            r@ == inner@,
    {
        Descendants { inner }
    }

    /// Yields the next value.
    pub fn next(&mut self) -> (r: Option<&'a V>)
        ensures
            r is None <==> old(self)@.len() == 0,
            r is None ==> final(self)@ == old(self)@,
            r matches Some(v) ==> *v == old(self)@[0] && final(self)@ == old(self)@.drop_first(),
    {
        self.inner.next()
    }
}

/// Iterator over references to every value in a trie, in reverse key order.
pub struct RevValues<'a, C, V> {
    inner: RevValueIter<'a, C, V>,
}

impl<'a, C, V> View for RevValues<'a, C, V> {
    type V = Seq<V>;

    closed spec fn view(&self) -> Seq<V> {
        self.inner@
    }
}

impl<'a, C, V> RevValues<'a, C, V> {
    /// Wraps an internal cursor.
    pub(crate) fn new(inner: RevValueIter<'a, C, V>) -> (r: Self)
        ensures
            r@ == inner@,
    {
        RevValues { inner }
    }

    /// Yields the next value.
    pub fn next(&mut self) -> (r: Option<&'a V>)
        ensures
            r is None <==> old(self)@.len() == 0,
            r is None ==> final(self)@ == old(self)@,
            r matches Some(v) ==> *v == old(self)@[0] && final(self)@ == old(self)@.drop_first(),
    {
        self.inner.next()
    }
}

/// Iterator over references to the values of the strict descendants of a key, in
/// reverse key order.
pub struct RevDescendants<'a, C, V> {
    inner: RevValueIter<'a, C, V>,
}

impl<'a, C, V> View for RevDescendants<'a, C, V> {
    type V = Seq<V>;

    closed spec fn view(&self) -> Seq<V> {
        self.inner@
    }
}

impl<'a, C, V> RevDescendants<'a, C, V> {
    /// Wraps an internal cursor.
    pub(crate) fn new(inner: RevValueIter<'a, C, V>) -> (r: Self)
        ensures
            r@ == inner@,
    {
        RevDescendants { inner }
    }

    /// Yields the next value.
    pub fn next(&mut self) -> (r: Option<&'a V>)
        ensures
            r is None <==> old(self)@.len() == 0,
            r is None ==> final(self)@ == old(self)@,
            r matches Some(v) ==> *v == old(self)@[0] && final(self)@ == old(self)@.drop_first(),
    {
        self.inner.next()
    }
}

/// Iterator over references to the values of a key's ancestors (inclusive),
/// shortest key first.
pub struct Ancestors<'a, V> {
    values: Vec<&'a V>,
    pos: usize,
}

impl<'a, V> View for Ancestors<'a, V> {
    type V = Seq<V>;

    closed spec fn view(&self) -> Seq<V> {
        derefs(self.values@).skip(self.pos as int)
    }
}

impl<'a, V> Ancestors<'a, V> {
    /// The invariant: the position lies within the collected values.
    pub closed spec fn wf(&self) -> bool {
        self.pos <= self.values@.len()
    }

    /// An iterator over the given values, in order.
    pub fn new(values: Vec<&'a V>) -> (r: Self)
        ensures
            r.wf(),
            r@ == derefs(values@),
    {
        let r = Ancestors { values, pos: 0 };
        assert(r@ =~= derefs(r.values@));
        r
    }

    /// Yields the next value.
    pub fn next(&mut self) -> (r: Option<&'a V>)
        requires
            old(self).wf(),
        ensures
            final(self).wf(),
            r is None <==> old(self)@.len() == 0,
            r is None ==> final(self)@ == old(self)@,
            r matches Some(v) ==> *v == old(self)@[0] && final(self)@ == old(self)@.drop_first(),
    {
        if self.pos < self.values.len() {
            let v = self.values[self.pos];
            self.pos = self.pos + 1;
            assert(self@ =~= old(self)@.drop_first());
            Some(v)
        } else {
            None
        }
    }
}

/// Iterator over `(key, value)` entries within a range, in ascending key order;
/// each key is rebuilt as a `Vec` of its components.
pub struct Range<'a, C, V> {
    inner: RangeIter<'a, C, V>,
}

impl<'a, C: Component, V> View for Range<'a, C, V> {
    type V = Seq<(Seq<C>, V)>;

    closed spec fn view(&self) -> Seq<(Seq<C>, V)> {
        self.inner@
    }
}

impl<'a, C: Component, V> Range<'a, C, V> {
    /// Wraps an internal cursor.
    pub(crate) fn new(inner: RangeIter<'a, C, V>) -> (r: Self)
        ensures
            r@ == inner@,
            r.wf() == inner.wf(),
    {
        Range { inner }
    }

    /// The invariant: the pending entries are in ascending key order.
    pub closed spec fn wf(&self) -> bool {
        self.inner.wf()
    }

    /// Yields the next entry.
    pub fn next(&mut self) -> (r: Option<(Vec<C>, &'a V)>)
        requires
            old(self).wf(),
        ensures
            final(self).wf(),
            r is None <==> old(self)@.len() == 0,
            r is None ==> final(self)@ == old(self)@,
            r matches Some(e) ==> (e.0@, *e.1) == old(self)@[0] && final(self)@ == old(self)@.drop_first(),
    {
        self.inner.next()
    }
}

/// Iterator over `(key, value)` entries within a range, in descending key order;
/// each key is rebuilt as a `Vec` of its components.
pub struct RevRange<'a, C, V> {
    inner: RevRangeIter<'a, C, V>,
}

impl<'a, C: Component, V> View for RevRange<'a, C, V> {
    type V = Seq<(Seq<C>, V)>;

    closed spec fn view(&self) -> Seq<(Seq<C>, V)> {
        self.inner@
    }
}

impl<'a, C: Component, V> RevRange<'a, C, V> {
    /// Wraps an internal cursor.
    pub(crate) fn new(inner: RevRangeIter<'a, C, V>) -> (r: Self)
        ensures
            r@ == inner@,
            r.wf() == inner.wf(),
    {
        RevRange { inner }
    }

    /// The invariant: the pending entries are in descending key order.
    pub closed spec fn wf(&self) -> bool {
        self.inner.wf()
    }

    /// Yields the next entry.
    pub fn next(&mut self) -> (r: Option<(Vec<C>, &'a V)>)
        requires
            old(self).wf(),
        ensures
            final(self).wf(),
            r is None <==> old(self)@.len() == 0,
            r is None ==> final(self)@ == old(self)@,
            r matches Some(e) ==> (e.0@, *e.1) == old(self)@[0] && final(self)@ == old(self)@.drop_first(),
    {
        self.inner.next()
    }
}

/// Iterator over the stored keys along the path to a key (its prefixes, inclusive),
/// with their values; shortest first, or longest first when reversed.
pub struct Path<'a, C, V> {
    stack: Vec<(Vec<C>, &'a V)>,
}

impl<'a, C, V> View for Path<'a, C, V> {
    type V = Seq<(Seq<C>, V)>;

    /// The pending entries: the stack read from its top down.
    closed spec fn view(&self) -> Seq<(Seq<C>, V)> {
        entry_views(self.stack@).reverse()
    }
}

impl<'a, C, V> Path<'a, C, V> {
    /// An iterator over the given entries in their order (`reversed`: backwards).
    pub fn new(entries: Vec<(Vec<C>, &'a V)>, reversed: bool) -> (r: Self)
        ensures
            !reversed ==> r@ == entry_views(entries@),
            reversed ==> r@ == entry_views(entries@).reverse(),
    {
        if reversed {
            return Path { stack: entries };
        }
        let ghost all = entries@;
        let mut rest = entries;
        let mut stack: Vec<(Vec<C>, &'a V)> = Vec::with_capacity(rest.len());
        assert(entry_views(rest@) + entry_views(stack@).reverse() =~= entry_views(all));
        while rest.len() > 0
            invariant
                all == entries@,
                entry_views(rest@) + entry_views(stack@).reverse() == entry_views(all),
            decreases rest@.len(),
        {
            let ghost before = rest@;
            let e = rest.pop().unwrap();
            let ghost prev = stack@;
            let ghost x = (e.0@, *e.1);
            stack.push(e);
            proof {
                assert(rest@ == before.drop_last());
                assert(entry_views(stack@) =~= entry_views(prev).push(x));
                assert(entry_views(stack@).reverse() =~= seq![x] + entry_views(prev).reverse());
                assert(entry_views(before) =~= entry_views(rest@).push(x));
                assert(entry_views(rest@) + entry_views(stack@).reverse() =~= entry_views(all));
            }
        }
        assert(entry_views(stack@).reverse() =~= entry_views(all));
        Path { stack }
    }

    /// Yields the next entry.
    pub fn next(&mut self) -> (r: Option<(Vec<C>, &'a V)>)
        ensures
            r is None <==> old(self)@.len() == 0,
            r is None ==> final(self)@ == old(self)@,
            r matches Some(e) ==> (e.0@, *e.1) == old(self)@[0] && final(self)@ == old(self)@.drop_first(),
    {
        let ghost before = self.stack@;
        match self.stack.pop() {
            None => {
                assert(self@ =~= Seq::<(Seq<C>, V)>::empty());
                None
            },
            Some(e) => {
                proof {
                    let x = (e.0@, *e.1);
                    assert(self.stack@ == before.drop_last());
                    assert(entry_views(before) =~= entry_views(self.stack@).push(x));
                    assert(entry_views(before).reverse() =~= seq![x] + entry_views(self.stack@).reverse());
                }
                Some(e)
            },
        }
    }
}

impl<'a, C, V> Values<'a, C, V> {
    /// Yields every remaining value, in order, leaving the cursor exhausted: the
    /// values are exactly the cursor's pending sequence, and every later `next`
    /// returns `None`.
    pub fn collect_remaining(&mut self) -> (r: Vec<&'a V>)
        ensures
            derefs(r@) == old(self)@,
            final(self)@.len() == 0,
    {
        let ghost all = self@;
        let mut out: Vec<&'a V> = Vec::new();
        loop
            invariant
                derefs(out@) + self@ == all,
            ensures
                derefs(out@) == all,
                self@.len() == 0,
            decreases self@.len(),
        {
            let ghost before = self@;
            match self.next() {
                Some(v) => {
                    out.push(v);
                    proof {
                        assert(before =~= seq![*v] + self@);
                        assert(derefs(out@) + self@ =~= all);
                    }
                },
                None => {
                    assert(derefs(out@) =~= all);
                    break;
                },
            }
        }
        out
    }
}

impl<'a, C, V> Descendants<'a, C, V> {
    /// Yields every remaining value, in order, leaving the cursor exhausted: the
    /// values are exactly the cursor's pending sequence, and every later `next`
    /// returns `None`.
    pub fn collect_remaining(&mut self) -> (r: Vec<&'a V>)
        ensures
            derefs(r@) == old(self)@,
            final(self)@.len() == 0,
    {
        let ghost all = self@;
        let mut out: Vec<&'a V> = Vec::new();
        loop
            invariant
                derefs(out@) + self@ == all,
            ensures
                derefs(out@) == all,
                self@.len() == 0,
            decreases self@.len(),
        {
            let ghost before = self@;
            match self.next() {
                Some(v) => {
                    out.push(v);
                    proof {
                        assert(before =~= seq![*v] + self@);
                        assert(derefs(out@) + self@ =~= all);
                    }
                },
                None => {
                    assert(derefs(out@) =~= all);
                    break;
                },
            }
        }
        out
    }
}

impl<'a, C, V> RevValues<'a, C, V> {
    /// Yields every remaining value, in order, leaving the cursor exhausted: the
    /// values are exactly the cursor's pending sequence, and every later `next`
    /// returns `None`.
    pub fn collect_remaining(&mut self) -> (r: Vec<&'a V>)
        ensures
            derefs(r@) == old(self)@,
            final(self)@.len() == 0,
    {
        let ghost all = self@;
        let mut out: Vec<&'a V> = Vec::new();
        loop
            invariant
                derefs(out@) + self@ == all,
            ensures
                derefs(out@) == all,
                self@.len() == 0,
            decreases self@.len(),
        {
            let ghost before = self@;
            match self.next() {
                Some(v) => {
                    out.push(v);
                    proof {
                        assert(before =~= seq![*v] + self@);
                        assert(derefs(out@) + self@ =~= all);
                    }
                },
                None => {
                    assert(derefs(out@) =~= all);
                    break;
                },
            }
        }
        out
    }
}

impl<'a, C, V> RevDescendants<'a, C, V> {
    /// Yields every remaining value, in order, leaving the cursor exhausted: the
    /// values are exactly the cursor's pending sequence, and every later `next`
    /// returns `None`.
    pub fn collect_remaining(&mut self) -> (r: Vec<&'a V>)
        ensures
            derefs(r@) == old(self)@,
            final(self)@.len() == 0,
    {
        let ghost all = self@;
        let mut out: Vec<&'a V> = Vec::new();
        loop
            invariant
                derefs(out@) + self@ == all,
            ensures
                derefs(out@) == all,
                self@.len() == 0,
            decreases self@.len(),
        {
            let ghost before = self@;
            match self.next() {
                Some(v) => {
                    out.push(v);
                    proof {
                        assert(before =~= seq![*v] + self@);
                        assert(derefs(out@) + self@ =~= all);
                    }
                },
                None => {
                    assert(derefs(out@) =~= all);
                    break;
                },
            }
        }
        out
    }
}

impl<'a, V> Ancestors<'a, V> {
    /// Yields every remaining value, in order, leaving the cursor exhausted: the
    /// values are exactly the cursor's pending sequence, and every later `next`
    /// returns `None`.
    pub fn collect_remaining(&mut self) -> (r: Vec<&'a V>)
        requires
            old(self).wf(),
        ensures
            final(self).wf(),
            derefs(r@) == old(self)@,
            final(self)@.len() == 0,
    {
        let ghost all = self@;
        let mut out: Vec<&'a V> = Vec::new();
        loop
            invariant
                self.wf(),
                derefs(out@) + self@ == all,
            ensures
                derefs(out@) == all,
                self@.len() == 0,
                self.wf(),
            decreases self@.len(),
        {
            let ghost before = self@;
            match self.next() {
                Some(v) => {
                    out.push(v);
                    proof {
                        assert(before =~= seq![*v] + self@);
                        assert(derefs(out@) + self@ =~= all);
                    }
                },
                None => {
                    assert(derefs(out@) =~= all);
                    break;
                },
            }
        }
        out
    }
}

impl<'a, C: Component, V> Range<'a, C, V> {
    /// Yields every remaining entry, in order, leaving the cursor exhausted: the
    /// entries are exactly the cursor's pending sequence, and every later `next`
    /// returns `None`.
    pub fn collect_remaining(&mut self) -> (r: Vec<(Vec<C>, &'a V)>)
        requires
            old(self).wf(),
        ensures
            final(self).wf(),
            entry_views(r@) == old(self)@,
            final(self)@.len() == 0,
    {
        let ghost all = self@;
        let mut out: Vec<(Vec<C>, &'a V)> = Vec::new();
        loop
            invariant
                self.wf(),
                entry_views(out@) + self@ == all,
            ensures
                entry_views(out@) == all,
                self@.len() == 0,
                self.wf(),
            decreases self@.len(),
        {
            let ghost before = self@;
            match self.next() {
                Some(e) => {
                    let ghost x = (e.0@, *e.1);
                    out.push(e);
                    proof {
                        assert(before =~= seq![x] + self@);
                        assert(entry_views(out@) + self@ =~= all);
                    }
                },
                None => {
                    assert(entry_views(out@) =~= all);
                    break;
                },
            }
        }
        out
    }
}

impl<'a, C: Component, V> RevRange<'a, C, V> {
    /// Yields every remaining entry, in order, leaving the cursor exhausted: the
    /// entries are exactly the cursor's pending sequence, and every later `next`
    /// returns `None`.
    pub fn collect_remaining(&mut self) -> (r: Vec<(Vec<C>, &'a V)>)
        requires
            old(self).wf(),
        ensures
            final(self).wf(),
            entry_views(r@) == old(self)@,
            final(self)@.len() == 0,
    {
        let ghost all = self@;
        let mut out: Vec<(Vec<C>, &'a V)> = Vec::new();
        loop
            invariant
                self.wf(),
                entry_views(out@) + self@ == all,
            ensures
                entry_views(out@) == all,
                self@.len() == 0,
                self.wf(),
            decreases self@.len(),
        {
            let ghost before = self@;
            match self.next() {
                Some(e) => {
                    let ghost x = (e.0@, *e.1);
                    out.push(e);
                    proof {
                        assert(before =~= seq![x] + self@);
                        assert(entry_views(out@) + self@ =~= all);
                    }
                },
                None => {
                    assert(entry_views(out@) =~= all);
                    break;
                },
            }
        }
        out
    }
}

impl<'a, C, V> Path<'a, C, V> {
    /// Yields every remaining entry, in order, leaving the cursor exhausted: the
    /// entries are exactly the cursor's pending sequence, and every later `next`
    /// returns `None`.
    pub fn collect_remaining(&mut self) -> (r: Vec<(Vec<C>, &'a V)>)
        ensures
            entry_views(r@) == old(self)@,
            final(self)@.len() == 0,
    {
        let ghost all = self@;
        let mut out: Vec<(Vec<C>, &'a V)> = Vec::new();
        loop
            invariant
                entry_views(out@) + self@ == all,
            ensures
                entry_views(out@) == all,
                self@.len() == 0,
            decreases self@.len(),
        {
            let ghost before = self@;
            match self.next() {
                Some(e) => {
                    let ghost x = (e.0@, *e.1);
                    out.push(e);
                    proof {
                        assert(before =~= seq![x] + self@);
                        assert(entry_views(out@) + self@ =~= all);
                    }
                },
                None => {
                    assert(entry_views(out@) =~= all);
                    break;
                },
            }
        }
        out
    }
}

} // verus!
