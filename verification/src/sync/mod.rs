//! The thread-safe, immutable radix face.
//!
//! [`Radix`] is an immutable, persistent trie: a value is a cheap, shareable
//! snapshot that is `Send + Sync` exactly when both `C` and `V` are. Every
//! mutation goes through a [`Txn`]: open one with [`txn`](Radix::txn), edit the
//! owned working copy freely, then [`commit`](Txn::commit) it into the next
//! immutable tree. The tree a transaction was opened from never changes.
//!
//! For a single-threaded trie that never shares a snapshot across threads, the
//! [`crate::unsync`] face does the same without the transaction.

use std::sync::Arc;
use vstd::prelude::*;
use crate::cursor::{Ancestors, Descendants, Range, RevDescendants, RevValues, Values};
use crate::iter::{Bound, in_range};
use crate::key::{RadixKey, key_bound, key_components, materialize_bound};
use crate::node::{
    Node, deref_opt, keep_not_below, keep_outside, last_value, longest_prefix_value, prefix_entries, prefix_of, sorted,
    stored_prefix, values_of,
};
use crate::order::Component;
use crate::root::{Root, first_components, key_set};
use crate::seek::under;

pub mod concurrent;
pub mod watch;

pub use watch::{Changed, Watch};

verus! {

/// A generic, persistent (copy-on-write) immutable radix trie, shareable across
/// threads.
///
/// Keys decompose into components of type `C` via [`RadixKey`]; values are of
/// type `V`. The model is a finite map from component sequences to values
/// (`self@`), listed in ascending key order by [`entries`](Radix::entries). A
/// [`clone`](Radix::clone) is O(1) and shares all structure with its source; a
/// committed edit copies only the path from the root to the touched node.
pub struct Radix<C, V> {
    inner: Root<C, V>,
}

impl<C: Component, V> View for Radix<C, V> {
    type V = Map<Seq<C>, V>;

    closed spec fn view(&self) -> Map<Seq<C>, V> {
        self.inner.view()
    }
}

/// The map that a sequence of insertions, applied in order to an empty trie,
/// produces.
pub open spec fn inserted<C, V>(pairs: Seq<(Vec<C>, V)>) -> Map<Seq<C>, V>
    decreases pairs.len(),
{
    if pairs.len() == 0 {
        Map::empty()
    } else {
        inserted(pairs.drop_last()).insert(pairs.last().0@, pairs.last().1)
    }
}

/// A map built by `n` insertions holds at most `n` keys.
pub proof fn lemma_inserted_len<C, V>(pairs: Seq<(Vec<C>, V)>)
    ensures
        inserted(pairs).dom().finite(),
        inserted(pairs).len() <= pairs.len(),
    decreases pairs.len(),
{
    if pairs.len() > 0 {
        lemma_inserted_len(pairs.drop_last());
    }
}

impl<C: Component, V> Radix<C, V> {
    /// The trie's structural invariant; every constructor establishes it.
    pub closed spec fn wf(&self) -> bool {
        self.inner.wf()
    }

    /// The stored entries in ascending key order.
    pub closed spec fn entries(&self) -> Seq<(Seq<C>, V)> {
        self.inner.entries()
    }

    /// The model is a finite map whose pairs are listed, in strictly ascending key
    /// order, by `entries`.
    pub proof fn lemma_model(&self)
        requires
            self.wf(),
        ensures
            self@.dom().finite(),
            self@.len() == self.entries().len(),
            sorted(self.entries()),
            forall|k: Seq<C>, v: V|
                self@.contains_key(k) && self@[k] == v <==> #[trigger] self.entries().contains((k, v)),
    {
        self.inner.lemma_view();
        crate::root::lemma_entries_sorted(&self.inner);
    }

    /// Creates an empty trie.
    pub fn new() -> (r: Self)
        ensures
            r.wf(),
            r@ == Map::<Seq<C>, V>::empty(),
    {
        Radix { inner: Root::new() }
    }

    /// Returns the number of values stored in the trie.
    pub fn len(&self) -> (r: usize)
        requires
            self.wf(),
        ensures
            r == self@.len(),
    {
        proof {
            self.inner.lemma_view();
        }
        self.inner.len
    }

    /// Returns `true` if the trie holds no values.
    pub fn is_empty(&self) -> (r: bool)
        requires
            self.wf(),
        ensures
            r == (self@.len() == 0),
    {
        proof {
            self.inner.lemma_view();
        }
        self.inner.len == 0
    }

    /// Opens a transaction: an owned working copy of this tree, made in O(1) by
    /// sharing all structure. Nothing the transaction does affects this tree.
    pub fn txn(&self) -> (r: Txn<C, V>)
        requires
            self.wf(),
        ensures
            r.wf(),
            r@ == self@,
            r.entries() == self.entries(),
    {
        Txn { working: self.inner.snapshot() }
    }

    /// Builds a tree from `(key, value)` pairs by inserting them in order through
    /// one transaction; a later pair for the same key replaces an earlier one.
    pub fn from_pairs(pairs: Vec<(Vec<C>, V)>) -> (r: Self)
        where V: Clone
        requires
            pairs@.len() < usize::MAX,
        ensures
            r.wf(),
            r@ == inserted(pairs@),
    {
        let ghost all = pairs@;
        let n = pairs.len();
        // Reverse the pairs by popping them onto a stack, so that popping the stack
        // hands them out in the order they were given.
        let mut rest = pairs;
        let mut stack: Vec<(Vec<C>, V)> = Vec::new();
        while rest.len() > 0
            invariant
                n == all.len(),
                rest@ == all.take(n - stack@.len()),
                stack@.len() <= n,
                forall|j: int| 0 <= j < stack@.len() ==> stack@[j] == all[n - 1 - j],
            decreases rest@.len(),
        {
            let p = rest.pop().unwrap();
            stack.push(p);
            assert(rest@ =~= all.take(n - stack@.len()));
        }
        let mut t = Radix::new().txn();
        let mut i: usize = 0;
        assert(t@ =~= inserted(all.take(0)));
        while i < n
            invariant
                n == all.len(),
                n < usize::MAX,
                i <= n,
                t.wf(),
                t@ == inserted(all.take(i as int)),
                stack@.len() == n - i,
                forall|j: int| 0 <= j < stack@.len() ==> stack@[j] == all[n - 1 - j],
            decreases n - i,
        {
            proof {
                lemma_inserted_len(all.take(i as int));
            }
            let (k, v) = stack.pop().unwrap();
            t.insert(k.as_slice(), v);
            proof {
                assert(all.take(i + 1).drop_last() =~= all.take(i as int));
                assert(all.take(i + 1).last() == all[i as int]);
            }
            i = i + 1;
        }
        assert(all.take(n as int) =~= all);
        t.commit()
    }

    /// Returns a reference to the value stored at exactly `key`, if any.
    pub fn get<K: RadixKey<Owned = C> + ?Sized>(&self, key: &K) -> (r: Option<&V>)
        requires
            self.wf(),
        ensures
            deref_opt(r) == self@.get(key.key_view()),
    {
        let k = key_components(key);
        self.inner.get(k.as_slice())
    }

    /// Returns `true` if a value is stored at exactly `key`.
    pub fn contains<K: RadixKey<Owned = C> + ?Sized>(&self, key: &K) -> (r: bool)
        requires
            self.wf(),
        ensures
            r == self@.contains_key(key.key_view()),
    {
        self.get(key).is_some()
    }

    /// Returns the value of the longest stored key that is a prefix of `key`,
    /// inclusive of an exact match (longest-prefix match).
    pub fn get_ancestor<K: RadixKey<Owned = C> + ?Sized>(&self, key: &K) -> (r: Option<&V>)
        requires
            self.wf(),
        ensures
            deref_opt(r) == last_value(prefix_entries(self@, key.key_view(), key.key_view().len() + 1)),
            longest_prefix_value(self@, key.key_view(), (key.key_view().len() + 1) as nat, deref_opt(r)),
    {
        let k = key_components(key);
        self.inner.ancestor(k.as_slice(), true)
    }

    /// Returns the value of the longest stored key that is a strict prefix of `key`.
    pub fn strict_ancestor<K: RadixKey<Owned = C> + ?Sized>(&self, key: &K) -> (r: Option<&V>)
        requires
            self.wf(),
        ensures
            deref_opt(r) == last_value(prefix_entries(self@, key.key_view(), key.key_view().len())),
            longest_prefix_value(self@, key.key_view(), key.key_view().len(), deref_opt(r)),
    {
        let k = key_components(key);
        self.inner.ancestor(k.as_slice(), false)
    }

    /// Returns `true` if some stored key is a prefix of `key` (inclusive).
    pub fn has_ancestor<K: RadixKey<Owned = C> + ?Sized>(&self, key: &K) -> (r: bool)
        requires
            self.wf(),
        ensures
            r == (prefix_entries(self@, key.key_view(), key.key_view().len() + 1).len() > 0),
            r == exists|p: Seq<C>| #[trigger] stored_prefix(self@, key.key_view(), p),
    {
        self.get_ancestor(key).is_some()
    }

    /// Iterates references to every value, in key order.
    pub fn values(&self) -> (r: Values<'_, C, V>)
        requires
            self.wf(),
        ensures
            r@ == values_of(self.entries()),
    {
        Values::new(self.inner.values())
    }

    /// Iterates references to the values of every stored key that is a prefix of
    /// `key`, inclusive of an exact match, shortest first.
    pub fn ancestors<K: RadixKey<Owned = C> + ?Sized>(&self, key: &K) -> (r: Ancestors<'_, V>)
        requires
            self.wf(),
        ensures
            r.wf(),
            r@ == values_of(prefix_entries(self@, key.key_view(), key.key_view().len() + 1)),
            r@ == values_of(self.entries().filter(prefix_of::<C, V>(key.key_view()))),
    {
        let k = key_components(key);
        Ancestors::new(self.inner.ancestors(k.as_slice()))
    }

    /// Iterates references to the values of every strict descendant of `key` (the
    /// stored keys that strictly extend it), in key order.
    pub fn descendants<K: RadixKey<Owned = C> + ?Sized>(&self, key: &K) -> (r: Descendants<'_, C, V>)
        requires
            self.wf(),
        ensures
            r@ == values_of(self.entries().filter(under::<C, V>(key.key_view(), false))),
    {
        let k = key_components(key);
        Descendants::new(self.inner.descendants(k.as_slice()))
    }

    /// Returns the smallest key and its value, or `None` when empty.
    pub fn minimum(&self) -> (r: Option<(Vec<C>, &V)>)
        requires
            self.wf(),
        ensures
            r is None <==> self@.len() == 0,
            r matches Some(e) ==> (e.0@, *e.1) == self.entries()[0],
    {
        proof {
            self.lemma_model();
        }
        self.inner.minimum()
    }

    /// Returns the largest key and its value, or `None` when empty.
    pub fn maximum(&self) -> (r: Option<(Vec<C>, &V)>)
        requires
            self.wf(),
        ensures
            r is None <==> self@.len() == 0,
            r matches Some(e) ==> (e.0@, *e.1) == self.entries().last(),
    {
        proof {
            self.lemma_model();
        }
        self.inner.maximum()
    }

    /// Iterates references to every value, in reverse key order.
    pub fn values_rev(&self) -> (r: RevValues<'_, C, V>)
        requires
            self.wf(),
        ensures
            r@ == values_of(self.entries()).reverse(),
    {
        RevValues::new(self.inner.values_rev())
    }

    /// Iterates references to the values of every strict descendant of `key`, in
    /// reverse key order.
    pub fn descendants_rev<K: RadixKey<Owned = C> + ?Sized>(&self, key: &K) -> (r: RevDescendants<'_, C, V>)
        requires
            self.wf(),
        ensures
            r@ == values_of(self.entries().filter(under::<C, V>(key.key_view(), false))).reverse(),
    {
        let k = key_components(key);
        RevDescendants::new(self.inner.descendants_rev(k.as_slice()))
    }

    /// Iterates `(key, value)` for every entry whose key lies between the two ends
    /// of `range`, in ascending key order. Every combination of included, excluded
    /// and unbounded ends is honoured.
    pub fn range<K: RadixKey<Owned = C> + ?Sized>(&self, range: (Bound<&K>, Bound<&K>)) -> (r: Range<'_, C, V>)
        requires
            self.wf(),
        ensures
            r.wf(),
            r@ == self.entries().filter(in_range::<C, V>(key_bound(range.0), key_bound(range.1))),
    {
        let lower = materialize_bound(range.0);
        let upper = materialize_bound(range.1);
        Range::new(self.inner.range(lower, upper))
    }

    /// A forward cursor at the first entry whose key is at least `key`, then
    /// ascending: the same as a range from `key` (included) on.
    pub fn seek_lower_bound<K: RadixKey<Owned = C> + ?Sized>(&self, key: &K) -> (r: Range<'_, C, V>)
        requires
            self.wf(),
        ensures
            r.wf(),
            r@ == self.entries().filter(in_range::<C, V>(Bound::Included(key.key_view()), Bound::Unbounded)),
    {
        let lower = key.components();
        Range::new(self.inner.range(Bound::Included(lower), Bound::Unbounded))
    }

    /// Counts the stored values by walking the whole trie.
    pub fn count_values(&self) -> (r: usize)
        requires
            self.wf(),
        ensures
            r == self@.len(),
    {
        proof {
            self.inner.lemma_view();
        }
        self.inner.count_values()
    }

    /// Whether the trie is in canonical, path-compressed form; always so.
    pub fn is_canonical(&self) -> (r: bool)
        requires
            self.wf(),
        ensures
            r,
    {
        self.inner.is_canonical()
    }

    /// The child node behind the root edge whose label starts with `first`, if any.
    pub closed spec fn root_edge(&self, first: C) -> Option<Arc<Node<C, V>>> {
        self.inner.edge_child_of(first)
    }

    /// The subtree behind the root edge whose label starts with `first`, shared
    /// with every snapshot that holds it.
    pub fn edge_child(&self, first: &C) -> (r: Option<Arc<Node<C, V>>>)
        requires
            self.wf(),
        ensures
            r is Some == first_components(self@).contains(*first),
            r == self.root_edge(*first),
    {
        self.inner.edge_child(first)
    }
}

impl<C: Component, V> Default for Radix<C, V> {
    /// An empty trie.
    fn default() -> (r: Self)
        ensures
            r.wf(),
            r@ == Map::<Seq<C>, V>::empty(),
    {
        Radix::new()
    }
}

impl<C: Component, V> Clone for Radix<C, V> {
    /// An O(1) snapshot that shares all structure with `self`.
    fn clone(&self) -> (r: Self)
        ensures
            self.wf() ==> r.wf() && r@ == self@ && r.entries() == self.entries(),
    {
        Radix { inner: self.inner.snapshot() }
    }
}

/// An owned, mutable working copy of a [`Radix`].
///
/// A transaction holds an O(1) structure-sharing copy of the tree it was opened
/// from. Its `&mut self` methods edit the working copy in place (copying on
/// write), so reads see the transaction's own writes; [`commit`](Txn::commit)
/// turns it into the next immutable tree. The tree it was opened from is never
/// affected, and dropping a transaction discards its edits.
pub struct Txn<C, V> {
    working: Root<C, V>,
}

impl<C: Component, V> View for Txn<C, V> {
    type V = Map<Seq<C>, V>;

    closed spec fn view(&self) -> Map<Seq<C>, V> {
        self.working.view()
    }
}

impl<C: Component, V> Txn<C, V> {
    /// The working copy's structural invariant.
    pub closed spec fn wf(&self) -> bool {
        self.working.wf()
    }

    /// The working copy's entries in ascending key order.
    pub closed spec fn entries(&self) -> Seq<(Seq<C>, V)> {
        self.working.entries()
    }

    /// The working copy is a finite map whose pairs are listed, in strictly
    /// ascending key order, by `entries`.
    pub proof fn lemma_model(&self)
        requires
            self.wf(),
        ensures
            self@.dom().finite(),
            self@.len() == self.entries().len(),
            sorted(self.entries()),
            forall|k: Seq<C>, v: V|
                self@.contains_key(k) && self@[k] == v <==> #[trigger] self.entries().contains((k, v)),
    {
        self.working.lemma_view();
        crate::root::lemma_entries_sorted(&self.working);
    }

    /// Returns the number of values in the working copy.
    pub fn len(&self) -> (r: usize)
        requires
            self.wf(),
        ensures
            r == self@.len(),
    {
        proof {
            self.working.lemma_view();
        }
        self.working.len
    }

    /// Returns `true` if the working copy holds no values.
    pub fn is_empty(&self) -> (r: bool)
        requires
            self.wf(),
        ensures
            r == (self@.len() == 0),
    {
        proof {
            self.working.lemma_view();
        }
        self.working.len == 0
    }

    /// Removes every value from the working copy.
    pub fn clear(&mut self)
        ensures
            final(self).wf(),
            final(self)@ == Map::<Seq<C>, V>::empty(),
    {
        self.working.clear();
    }

    /// Consumes the transaction and returns the next immutable tree, holding
    /// exactly the working copy.
    pub fn commit(self) -> (r: Radix<C, V>)
        ensures
            self.wf() ==> r.wf(),
            r@ == self@,
            r.entries() == self.entries(),
    {
        Radix { inner: self.working }
    }

    /// Returns a reference to the value stored at exactly `key`, if any.
    pub fn get<K: RadixKey<Owned = C> + ?Sized>(&self, key: &K) -> (r: Option<&V>)
        requires
            self.wf(),
        ensures
            deref_opt(r) == self@.get(key.key_view()),
    {
        let k = key_components(key);
        self.working.get(k.as_slice())
    }

    /// Returns `true` if a value is stored at exactly `key`.
    pub fn contains<K: RadixKey<Owned = C> + ?Sized>(&self, key: &K) -> (r: bool)
        requires
            self.wf(),
        ensures
            r == self@.contains_key(key.key_view()),
    {
        self.get(key).is_some()
    }

    /// Returns the value of the longest stored key that is a prefix of `key`,
    /// inclusive of an exact match (longest-prefix match).
    pub fn get_ancestor<K: RadixKey<Owned = C> + ?Sized>(&self, key: &K) -> (r: Option<&V>)
        requires
            self.wf(),
        ensures
            deref_opt(r) == last_value(prefix_entries(self@, key.key_view(), key.key_view().len() + 1)),
            longest_prefix_value(self@, key.key_view(), (key.key_view().len() + 1) as nat, deref_opt(r)),
    {
        let k = key_components(key);
        self.working.ancestor(k.as_slice(), true)
    }

    /// Returns the value of the longest stored key that is a strict prefix of `key`.
    pub fn strict_ancestor<K: RadixKey<Owned = C> + ?Sized>(&self, key: &K) -> (r: Option<&V>)
        requires
            self.wf(),
        ensures
            deref_opt(r) == last_value(prefix_entries(self@, key.key_view(), key.key_view().len())),
            longest_prefix_value(self@, key.key_view(), key.key_view().len(), deref_opt(r)),
    {
        let k = key_components(key);
        self.working.ancestor(k.as_slice(), false)
    }

    /// Returns `true` if some stored key is a prefix of `key` (inclusive).
    pub fn has_ancestor<K: RadixKey<Owned = C> + ?Sized>(&self, key: &K) -> (r: bool)
        requires
            self.wf(),
        ensures
            r == (prefix_entries(self@, key.key_view(), key.key_view().len() + 1).len() > 0),
            r == exists|p: Seq<C>| #[trigger] stored_prefix(self@, key.key_view(), p),
    {
        self.get_ancestor(key).is_some()
    }

    /// Iterates references to every value, in key order.
    pub fn values(&self) -> (r: Values<'_, C, V>)
        requires
            self.wf(),
        ensures
            r@ == values_of(self.entries()),
    {
        Values::new(self.working.values())
    }

    /// Iterates references to the values of every stored key that is a prefix of
    /// `key`, inclusive of an exact match, shortest first.
    pub fn ancestors<K: RadixKey<Owned = C> + ?Sized>(&self, key: &K) -> (r: Ancestors<'_, V>)
        requires
            self.wf(),
        ensures
            r.wf(),
            r@ == values_of(prefix_entries(self@, key.key_view(), key.key_view().len() + 1)),
            r@ == values_of(self.entries().filter(prefix_of::<C, V>(key.key_view()))),
    {
        let k = key_components(key);
        Ancestors::new(self.working.ancestors(k.as_slice()))
    }

    /// Iterates references to the values of every strict descendant of `key` (the
    /// stored keys that strictly extend it), in key order.
    pub fn descendants<K: RadixKey<Owned = C> + ?Sized>(&self, key: &K) -> (r: Descendants<'_, C, V>)
        requires
            self.wf(),
        ensures
            r@ == values_of(self.entries().filter(under::<C, V>(key.key_view(), false))),
    {
        let k = key_components(key);
        Descendants::new(self.working.descendants(k.as_slice()))
    }

    /// Inserts `value` at `key`, returning the previous value if the key was set.
    /// When that previous value is still shared with a snapshot, a clone of it is
    /// returned.
    pub fn insert<K: RadixKey<Owned = C> + ?Sized>(&mut self, key: &K, value: V) -> (r: Option<V>)
        where V: Clone
        requires
            old(self).wf(),
            old(self)@.len() < usize::MAX,
        ensures
            final(self).wf(),
            final(self)@ == old(self)@.insert(key.key_view(), value),
            match r {
                Some(v) => old(self)@.contains_key(key.key_view()) && cloned(old(self)@[key.key_view()], v),
                None => !old(self)@.contains_key(key.key_view()),
            },
    {
        proof {
            self.working.lemma_view();
        }
        let k = key_components(key);
        self.working.insert(k.as_slice(), value)
    }

    /// Removes and returns the value at exactly `key`, if any. When that value is
    /// still shared with a snapshot, a clone of it is returned.
    pub fn remove<K: RadixKey<Owned = C> + ?Sized>(&mut self, key: &K) -> (r: Option<V>)
        where V: Clone
        requires
            old(self).wf(),
        ensures
            final(self).wf(),
            final(self)@ == old(self)@.remove(key.key_view()),
            match r {
                Some(v) => old(self)@.contains_key(key.key_view()) && cloned(old(self)@[key.key_view()], v),
                None => !old(self)@.contains_key(key.key_view()),
            },
    {
        let k = key_components(key);
        self.working.remove(k.as_slice())
    }

    /// Removes every strict descendant of `key` (the value at `key`, if any, is
    /// kept) and returns how many values were removed. Clones no value.
    pub fn remove_descendants<K: RadixKey<Owned = C> + ?Sized>(&mut self, key: &K) -> (r: usize)
        requires
            old(self).wf(),
        ensures
            final(self).wf(),
            final(self)@ == old(self)@.remove_keys(key_set(key.key_view(), false)),
            final(self).entries() == old(self).entries().filter(keep_not_below(key.key_view())),
            r == old(self).entries().filter(under::<C, V>(key.key_view(), false)).len(),
            r == old(self)@.len() - final(self)@.len(),
    {
        let k = key_components(key);
        self.working.remove_descendants(k.as_slice())
    }

    /// Removes every strict descendant of `key` (the value at `key`, if any, is
    /// kept) and returns their values in ascending key order, cloned out before
    /// anything is unlinked.
    pub fn drain_descendants<K: RadixKey<Owned = C> + ?Sized>(&mut self, key: &K) -> (r: Vec<V>)
        where V: Clone
        requires
            old(self).wf(),
        ensures
            final(self).wf(),
            final(self)@ == old(self)@.remove_keys(key_set(key.key_view(), false)),
            final(self).entries() == old(self).entries().filter(keep_not_below(key.key_view())),
            r@.len() == old(self).entries().filter(under::<C, V>(key.key_view(), false)).len(),
            r@.len() == old(self)@.len() - final(self)@.len(),
            forall|i: int| 0 <= i < r@.len() ==> cloned(
                #[trigger] values_of(old(self).entries().filter(under::<C, V>(key.key_view(), false)))[i],
                r@[i],
            ),
    {
        let k = key_components(key);
        self.working.drain_descendants(k.as_slice())
    }

    /// Removes the value at `key` and every strict descendant (every value, for
    /// the empty key) and returns how many values were removed. Clones no value.
    pub fn delete_prefix<K: RadixKey<Owned = C> + ?Sized>(&mut self, key: &K) -> (r: usize)
        requires
            old(self).wf(),
        ensures
            final(self).wf(),
            final(self)@ == old(self)@.remove_keys(key_set(key.key_view(), true)),
            final(self).entries() == old(self).entries().filter(keep_outside(key.key_view())),
            r == old(self).entries().filter(under::<C, V>(key.key_view(), true)).len(),
            r == old(self)@.len() - final(self)@.len(),
    {
        let k = key_components(key);
        self.working.delete_prefix(k.as_slice())
    }

    /// Removes the value at `key` and every strict descendant (every value, for
    /// the empty key) and returns their values in ascending key order, the value at
    /// `key` first, cloned out before anything is unlinked.
    pub fn drain_prefix<K: RadixKey<Owned = C> + ?Sized>(&mut self, key: &K) -> (r: Vec<V>)
        where V: Clone
        requires
            old(self).wf(),
        ensures
            final(self).wf(),
            final(self)@ == old(self)@.remove_keys(key_set(key.key_view(), true)),
            final(self).entries() == old(self).entries().filter(keep_outside(key.key_view())),
            r@.len() == old(self).entries().filter(under::<C, V>(key.key_view(), true)).len(),
            r@.len() == old(self)@.len() - final(self)@.len(),
            forall|i: int| 0 <= i < r@.len() ==> cloned(
                #[trigger] values_of(old(self).entries().filter(under::<C, V>(key.key_view(), true)))[i],
                r@[i],
            ),
    {
        let k = key_components(key);
        self.working.drain_prefix(k.as_slice())
    }

    /// Counts the stored values by walking the whole trie.
    pub fn count_values(&self) -> (r: usize)
        requires
            self.wf(),
        ensures
            r == self@.len(),
    {
        proof {
            self.working.lemma_view();
        }
        self.working.count_values()
    }

    /// Whether the trie is in canonical, path-compressed form; always so.
    pub fn is_canonical(&self) -> (r: bool)
        requires
            self.wf(),
        ensures
            r,
    {
        self.working.is_canonical()
    }
}

} // verus!
