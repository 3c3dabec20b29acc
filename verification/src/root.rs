//! The trie state shared by both public faces: an optional root node and the
//! number of stored values.

use std::sync::Arc;
use vstd::prelude::*;
use crate::order::Component;
use crate::node::{
    Node, arc_opt, pointee, arc_unwrap_or_clone, deref_opt, entries, entry_views, keys_of, last_value,
    lemma_lookup_entries, lemma_map_len, lookup, node_map, prefix_entries, removed, shift, sorted, updated,
    values_of, derefs, wf, below, lemma_entries_model, lemma_longest_prefix, lemma_prefix_entries_filter,
    longest_prefix_value, prefix_of,
};
use crate::iter::{
    Bound, RangeFrame, RangeIter, RevRangeIter, RevValueIter, ValueIter, at_least, at_most, forest_frames,
    forest_frames_rev, forest_stack, frames_entries, in_range, lemma_filter_filter, lemma_filter_reverse,
    lemma_single_stack, lemma_sorted_filter, lemma_sorted_reverse, lemma_subtree_frames, lower_test,
    rev_frames_entries, seed_lower, seed_upper, upper_test, bound_view,
};
use crate::seek::{forest_values, under};

verus! {

/// A persistent trie: `root` is `None` for the empty trie, and `len` counts the
/// stored values.
pub struct Root<C, V> {
    pub root: Option<Arc<Node<C, V>>>,
    pub len: usize,
}

impl<C: Component, V> Root<C, V> {
    /// The value stored under `k`.
    pub open spec fn lookup(&self, k: Seq<C>) -> Option<V> {
        match self.root {
            Some(n) => lookup(*n, k),
            None => None,
        }
    }

    /// The stored key/value map.
    pub open spec fn view(&self) -> Map<Seq<C>, V> {
        Map::new(|k: Seq<C>| self.lookup(k) is Some, |k: Seq<C>| self.lookup(k)->0)
    }

    /// The stored entries in ascending key order.
    pub open spec fn entries(&self) -> Seq<(Seq<C>, V)> {
        match self.root {
            Some(n) => entries(*n),
            None => Seq::empty(),
        }
    }

    /// The structural invariant: a well-formed root and an accurate count.
    pub open spec fn wf(&self) -> bool {
        &&& (self.root matches Some(n) ==> wf(*n, true))
        &&& self.len == self.entries().len()
    }

    /// Facts tying the map to the entries: finite, one key per entry, and the
    /// entries are exactly the map's pairs.
    pub proof fn lemma_view(&self)
        requires
            self.wf(),
        ensures
            self.view().dom().finite(),
            self.view().dom().len() == self.len,
            self.view().dom() == keys_of(self.entries()).to_set(),
            forall|k: Seq<C>, v: V|
                self.view().contains_key(k) && self.view()[k] == v <==> #[trigger] self.entries().contains((k, v)),
    {
        match self.root {
            Some(n) => {
                lemma_map_len(pointee(&n), true);
                assert(self.view() == node_map(*n));
                assert forall|k: Seq<C>, v: V|
                    self.view().contains_key(k) && self.view()[k] == v <==> #[trigger] self.entries().contains((k, v)) by {
                    lemma_lookup_entries(pointee(&n), true, k, v);
                }
            },
            None => {
                assert(self.view() =~= Map::<Seq<C>, V>::empty());
                assert(keys_of(self.entries()).to_set() =~= Set::<Seq<C>>::empty());
            },
        }
    }

    /// An empty trie.
    pub fn new() -> (r: Self)
        ensures
            r.wf(),
            r.view() == Map::<Seq<C>, V>::empty(),
            r.entries() == Seq::<(Seq<C>, V)>::empty(),
    {
        let r = Root { root: None, len: 0 };
        assert(r.view() =~= Map::<Seq<C>, V>::empty());
        r
    }

    /// The value stored under exactly `key`.
    pub fn get(&self, key: &[C]) -> (r: Option<&V>)
        requires
            self.wf(),
        ensures
            deref_opt(r) == self.lookup(key@),
    {
        match &self.root {
            Some(n) => n.get(key),
            None => None,
        }
    }

    /// Stores `value` under `key`, returning the value stored there before (or a
    /// clone of it, when that value is still shared with another version).
    pub fn insert(&mut self, key: &[C], value: V) -> (r: Option<V>)
        where V: Clone
        requires
            old(self).wf(),
            old(self).len < usize::MAX,
        ensures
            final(self).wf(),
            final(self).view() == old(self).view().insert(key@, value),
            match r {
                Some(v) => old(self).view().contains_key(key@) && cloned(old(self).view()[key@], v),
                None => !old(self).view().contains_key(key@),
            },
    {
        proof {
            self.lemma_view();
        }
        let ghost old_view = self.view();
        let node = match self.root.take() {
            Some(n) => n,
            None => {
                let n = Node { value: None, children: Vec::new() };
                assert(wf(n, true));
                assert(entries(n) =~= Seq::<(Seq<C>, V)>::empty());
                assert forall|k: Seq<C>| lookup(n, k) is None by {
                    crate::node::lemma_empty_node(n, k);
                }
                Arc::new(n)
            },
        };
        let ghost old_node = pointee(&node);
        assert(key@.skip(0) =~= key@);
        let (new_root, old) = Node::insert(node, key, 0, value, Ghost(true));
        self.root = Some(new_root);
        proof {
            assert(self.view() =~= old_view.insert(key@, value)) by {
                assert forall|k: Seq<C>| #[trigger] self.lookup(k) == updated(old_node, key@, value, k) by {
                }
            }
            lemma_map_len(old_node, true);
            lemma_map_len(pointee(&self.root->0), true);
            assert(node_map(old_node) == old_view);
            assert(node_map(*self.root->0) == self.view());
        }
        match old {
            Some(a) => {
                proof {
                    assert(old_view.insert(key@, value).dom() =~= old_view.dom());
                }
                Some(arc_unwrap_or_clone(a))
            },
            None => {
                self.len = self.len + 1;
                None
            },
        }
    }
}


impl<C: Component, V> Root<C, V> {
    /// Removes the value stored under exactly `key`. An absent key leaves the trie
    /// untouched (no node is copied).
    pub fn remove(&mut self, key: &[C]) -> (r: Option<V>)
        where V: Clone
        requires
            old(self).wf(),
        ensures
            final(self).wf(),
            final(self).view() == old(self).view().remove(key@),
            match r {
                Some(v) => old(self).view().contains_key(key@) && cloned(old(self).view()[key@], v),
                None => !old(self).view().contains_key(key@) && *final(self) == *old(self),
            },
    {
        proof {
            self.lemma_view();
        }
        let ghost old_view = self.view();
        if self.root.is_none() {
            assert(old_view.remove(key@) =~= old_view);
            return None;
        }
        let node = self.root.take().unwrap();
        let ghost old_node = pointee(&node);
        let (new_root, removed_value) = Node::remove(node, key);
        self.root = Some(new_root);
        let v = match removed_value {
            None => {
                proof {
                    assert(old_view.remove(key@) =~= old_view);
                }
                return None;
            },
            Some(v) => v,
        };
        proof {
            assert(self.view() =~= old_view.remove(key@)) by {
                assert forall|k: Seq<C>| #[trigger] self.lookup(k) == removed(old_node, key@, k) by {
                }
            }
            lemma_map_len(old_node, true);
            lemma_map_len(pointee(&self.root->0), true);
            assert(node_map(old_node) == old_view);
            assert(node_map(pointee(&self.root->0)) == self.view());
            assert(old_view.dom().contains(key@));
        }
        self.len = self.len - 1;
        Some(arc_unwrap_or_clone(v))
    }

    /// An O(1) copy sharing the whole structure with `self`.
    pub fn snapshot(&self) -> (r: Self)
        ensures
            r == *self,
    {
        let root = match &self.root {
            Some(a) => Some(a.clone()),
            None => None,
        };
        Root { root, len: self.len }
    }

    /// Removes every value.
    pub fn clear(&mut self)
        ensures
            final(self).wf(),
            final(self).view() == Map::<Seq<C>, V>::empty(),
            final(self).entries() == Seq::<(Seq<C>, V)>::empty(),
    {
        self.root = None;
        self.len = 0;
        assert(self.view() =~= Map::<Seq<C>, V>::empty());
    }
}

/// Prepending the empty key changes nothing.
pub proof fn lemma_shift_empty<C, V>(s: Seq<(Seq<C>, V)>)
    ensures
        shift(Seq::<C>::empty(), s) == s,
{
    assert forall|m: int| 0 <= m < s.len() implies Seq::<C>::empty() + s[m].0 =~= s[m].0 by {
    }
    assert(shift(Seq::<C>::empty(), s) =~= s);
}

/// Filtering with a test that passes everything changes nothing.
pub proof fn lemma_filter_true<A>(s: Seq<A>, f: spec_fn(A) -> bool)
    requires
        forall|x: A| #[trigger] f(x),
    ensures
        s.filter(f) == s,
{
    crate::node::lemma_filter_all(s, f);
}

impl<C: Component, V> Root<C, V> {
    /// Iterates the values in ascending key order.
    pub fn values<'a>(&'a self) -> (r: ValueIter<'a, C, V>)
        requires
            self.wf(),
        ensures
            r@ == values_of(self.entries()),
    {
        match &self.root {
            Some(n) => {
                let mut stack: Vec<&'a Node<C, V>> = Vec::new();
                stack.push(&**n);
                proof {
                    lemma_single_stack(stack@);
                }
                ValueIter::from_stack(stack)
            },
            None => {
                assert(values_of(Seq::<(Seq<C>, V)>::empty()) =~= Seq::<V>::empty());
                ValueIter::empty()
            },
        }
    }

    /// Iterates the values in descending key order.
    pub fn values_rev<'a>(&'a self) -> (r: RevValueIter<'a, C, V>)
        requires
            self.wf(),
        ensures
            r@ == values_of(self.entries()).reverse(),
    {
        let mut nodes: Vec<&'a Node<C, V>> = Vec::new();
        match &self.root {
            Some(n) => {
                nodes.push(&**n);
                proof {
                    lemma_single_stack(nodes@);
                }
            },
            None => {
                assert(values_of(Seq::<(Seq<C>, V)>::empty()) =~= Seq::<V>::empty());
                assert(forest_values(nodes@) =~= Seq::<V>::empty());
            },
        }
        proof {
            lemma_subtree_frames(nodes@);
        }
        RevValueIter::from_nodes(nodes)
    }

    /// Iterates, in ascending key order, the values stored strictly under `key`.
    pub fn descendants<'a>(&'a self, key: &[C]) -> (r: ValueIter<'a, C, V>)
        requires
            self.wf(),
        ensures
            r@ == values_of(self.entries().filter(under::<C, V>(key@, false))),
    {
        match &self.root {
            Some(n) => ValueIter::from_stack(forest_stack(n.descendant_roots(key).0)),
            None => {
                assert(Seq::<(Seq<C>, V)>::empty().filter(under::<C, V>(key@, false)) =~= Seq::<(Seq<C>, V)>::empty()) by {
                    reveal(Seq::filter);
                }
                assert(values_of(Seq::<(Seq<C>, V)>::empty()) =~= Seq::<V>::empty());
                ValueIter::empty()
            },
        }
    }

    /// Iterates, in descending key order, the values stored strictly under `key`.
    pub fn descendants_rev<'a>(&'a self, key: &[C]) -> (r: RevValueIter<'a, C, V>)
        requires
            self.wf(),
        ensures
            r@ == values_of(self.entries().filter(under::<C, V>(key@, false))).reverse(),
    {
        let nodes = match &self.root {
            Some(n) => n.descendant_roots(key).0,
            None => {
                assert(Seq::<(Seq<C>, V)>::empty().filter(under::<C, V>(key@, false)) =~= Seq::<(Seq<C>, V)>::empty()) by {
                    reveal(Seq::filter);
                }
                assert(values_of(Seq::<(Seq<C>, V)>::empty()) =~= Seq::<V>::empty());
                let v: Vec<&'a Node<C, V>> = Vec::new();
                assert(forest_values(v@) =~= Seq::<V>::empty());
                v
            },
        };
        proof {
            lemma_subtree_frames(nodes@);
        }
        RevValueIter::from_nodes(nodes)
    }

    /// Iterates, in ascending key order, the values stored at or under `key`.
    pub fn descendants_inclusive<'a>(&'a self, key: &[C]) -> (r: ValueIter<'a, C, V>)
        requires
            self.wf(),
        ensures
            r@ == values_of(self.entries().filter(under::<C, V>(key@, true))),
    {
        let ghost empty = Seq::<(Seq<C>, V)>::empty();
        proof {
            assert(empty.filter(under::<C, V>(key@, true)) =~= empty) by {
                reveal(Seq::filter);
            }
            assert(values_of(empty) =~= Seq::<V>::empty());
        }
        match &self.root {
            Some(n) => match n.prefix_node(key) {
                Some(p) => {
                    let mut stack: Vec<&'a Node<C, V>> = Vec::new();
                    stack.push(p);
                    proof {
                        lemma_single_stack(stack@);
                    }
                    ValueIter::from_stack(stack)
                },
                None => ValueIter::empty(),
            },
            None => ValueIter::empty(),
        }
    }

    /// Iterates, in ascending key order, the entries whose key lies between `lower`
    /// and `upper`, rebuilding each key.
    #[verifier::rlimit(40)]
    #[verifier::spinoff_prover]
    pub fn range<'a>(&'a self, lower: Bound<Vec<C>>, upper: Bound<Vec<C>>) -> (r: RangeIter<'a, C, V>)
        requires
            self.wf(),
        ensures
            r.wf(),
            r@ == self.entries().filter(in_range::<C, V>(bound_view(lower), bound_view(upper))),
    {
        let mut stack: Vec<RangeFrame<'a, C, V>> = Vec::new();
        assert(frames_entries(stack@) =~= Seq::<(Seq<C>, V)>::empty());
        let ghost lf = lower_test::<C, V>(bound_view(lower));
        proof {
            lemma_entries_sorted(self);
            lemma_filter_filter(self.entries(), lf, upper_test::<C, V>(bound_view(upper)), in_range::<C, V>(bound_view(lower), bound_view(upper)));
            lemma_sorted_filter(self.entries(), lf);
        }
        match &self.root {
            Some(n) => {
                proof {
                    lemma_shift_empty(entries(pointee(n)));
                }
                match &lower {
                    Bound::Unbounded => {
                        stack.push(RangeFrame::Subtree { node: &**n, key: Vec::new() });
                        proof {
                            lemma_filter_true(entries(pointee(n)), lf);
                            assert(stack@.drop_last() =~= Seq::<RangeFrame<C, V>>::empty());
                            assert(frames_entries(stack@.drop_last()) =~= Seq::<(Seq<C>, V)>::empty());
                        }
                    },
                    Bound::Included(lb) => {
                        let k: Vec<C> = Vec::new();
                        assert(k@ =~= lb@.take(0));
                        seed_lower(&mut stack, &**n, k, lb.as_slice(), true, Ghost(true));
                        proof {
                            assert(at_least::<C, V>(lb@, true) =~= lf);
                        }
                    },
                    Bound::Excluded(lb) => {
                        let k: Vec<C> = Vec::new();
                        assert(k@ =~= lb@.take(0));
                        seed_lower(&mut stack, &**n, k, lb.as_slice(), false, Ghost(true));
                        proof {
                            assert(at_least::<C, V>(lb@, false) =~= lf);
                        }
                    },
                }
                proof {
                    assert(frames_entries(stack@) =~= self.entries().filter(lf));
                }
            },
            None => {
                assert(frames_entries(stack@) =~= self.entries().filter(lf)) by {
                    reveal(Seq::filter);
                }
            },
        }
        RangeIter::from_frames(stack, upper)
    }

    /// Iterates, in descending key order, the entries whose key lies between `lower`
    /// and `upper`, rebuilding each key.
    #[verifier::rlimit(40)]
    #[verifier::spinoff_prover]
    pub fn rev_range<'a>(&'a self, lower: Bound<Vec<C>>, upper: Bound<Vec<C>>) -> (r: RevRangeIter<'a, C, V>)
        requires
            self.wf(),
        ensures
            r.wf(),
            r@ == self.entries().filter(in_range::<C, V>(bound_view(lower), bound_view(upper))).reverse(),
    {
        let mut stack: Vec<RangeFrame<'a, C, V>> = Vec::new();
        assert(rev_frames_entries(stack@) =~= Seq::<(Seq<C>, V)>::empty());
        let ghost uf = upper_test::<C, V>(bound_view(upper));
        let ghost lf = lower_test::<C, V>(bound_view(lower));
        proof {
            lemma_entries_sorted(self);
            lemma_sorted_filter(self.entries(), uf);
            lemma_sorted_reverse(self.entries().filter(uf));
            lemma_filter_reverse(self.entries().filter(uf), lf);
            lemma_filter_filter(self.entries(), uf, lf, in_range::<C, V>(bound_view(lower), bound_view(upper)));
        }
        match &self.root {
            Some(n) => {
                proof {
                    lemma_shift_empty(entries(pointee(n)));
                }
                match &upper {
                    Bound::Unbounded => {
                        stack.push(RangeFrame::Subtree { node: &**n, key: Vec::new() });
                        proof {
                            lemma_filter_true(entries(pointee(n)), uf);
                            assert(stack@.drop_last() =~= Seq::<RangeFrame<C, V>>::empty());
                            assert(rev_frames_entries(stack@.drop_last()) =~= Seq::<(Seq<C>, V)>::empty());
                        }
                    },
                    Bound::Included(ub) => {
                        let k: Vec<C> = Vec::new();
                        assert(k@ =~= ub@.take(0));
                        seed_upper(&mut stack, &**n, k, ub.as_slice(), true, Ghost(true));
                        proof {
                            assert(at_most::<C, V>(ub@, true) =~= uf);
                        }
                    },
                    Bound::Excluded(ub) => {
                        let k: Vec<C> = Vec::new();
                        assert(k@ =~= ub@.take(0));
                        seed_upper(&mut stack, &**n, k, ub.as_slice(), false, Ghost(true));
                        proof {
                            assert(at_most::<C, V>(ub@, false) =~= uf);
                        }
                    },
                }
                proof {
                    assert(rev_frames_entries(stack@) =~= self.entries().filter(uf).reverse());
                }
            },
            None => {
                assert(rev_frames_entries(stack@) =~= self.entries().filter(uf).reverse()) by {
                    reveal(Seq::filter);
                }
            },
        }
        RevRangeIter::from_frames(stack, lower)
    }
}

impl<C: Component, V> Root<C, V> {
    /// Iterates, in ascending key order, the entries stored under `key` (at or
    /// under it when `inclusive`), rebuilding each key.
    pub fn prefix_entries<'a>(&'a self, key: &[C], inclusive: bool) -> (r: RangeIter<'a, C, V>)
        requires
            self.wf(),
        ensures
            r.wf(),
            r@ == self.entries().filter(under::<C, V>(key@, inclusive)),
    {
        let ghost f = under::<C, V>(key@, inclusive);
        proof {
            lemma_entries_sorted(self);
            lemma_sorted_filter(self.entries(), f);
            lemma_filter_true(self.entries().filter(f), upper_test::<C, V>(Bound::Unbounded));
            assert(Seq::<(Seq<C>, V)>::empty().filter(f) =~= Seq::<(Seq<C>, V)>::empty()) by {
                reveal(Seq::filter);
            }
        }
        let seeds = match &self.root {
            Some(n) => n.prefix_seed(key, inclusive),
            None => {
                let v: Vec<(&'a Node<C, V>, Vec<C>)> = Vec::new();
                assert(crate::seek::roots_entries(v@) =~= Seq::<(Seq<C>, V)>::empty());
                v
            },
        };
        RangeIter::from_frames(forest_frames(seeds), Bound::Unbounded)
    }

    /// Iterates, in descending key order, the entries stored under `key` (at or
    /// under it when `inclusive`), rebuilding each key.
    pub fn prefix_entries_rev<'a>(&'a self, key: &[C], inclusive: bool) -> (r: RevRangeIter<'a, C, V>)
        requires
            self.wf(),
        ensures
            r.wf(),
            r@ == self.entries().filter(under::<C, V>(key@, inclusive)).reverse(),
    {
        let ghost f = under::<C, V>(key@, inclusive);
        proof {
            lemma_entries_sorted(self);
            lemma_sorted_filter(self.entries(), f);
            lemma_sorted_reverse(self.entries().filter(f));
            lemma_filter_true(self.entries().filter(f).reverse(), lower_test::<C, V>(Bound::Unbounded));
            assert(Seq::<(Seq<C>, V)>::empty().filter(f) =~= Seq::<(Seq<C>, V)>::empty()) by {
                reveal(Seq::filter);
            }
        }
        let seeds = match &self.root {
            Some(n) => n.prefix_seed(key, inclusive),
            None => {
                let v: Vec<(&'a Node<C, V>, Vec<C>)> = Vec::new();
                assert(crate::seek::roots_entries(v@) =~= Seq::<(Seq<C>, V)>::empty());
                v
            },
        };
        RevRangeIter::from_frames(forest_frames_rev(seeds), Bound::Unbounded)
    }

    /// The entry with the smallest key.
    pub fn minimum<'a>(&'a self) -> (r: Option<(Vec<C>, &'a V)>)
        requires
            self.wf(),
        ensures
            r is None <==> self.entries().len() == 0,
            r matches Some(e) ==> (e.0@, *e.1) == self.entries()[0],
    {
        match &self.root {
            Some(n) => n.minimum(),
            None => None,
        }
    }

    /// The entry with the largest key.
    pub fn maximum<'a>(&'a self) -> (r: Option<(Vec<C>, &'a V)>)
        requires
            self.wf(),
        ensures
            r is None <==> self.entries().len() == 0,
            r matches Some(e) ==> (e.0@, *e.1) == self.entries().last(),
    {
        match &self.root {
            Some(n) => n.maximum(),
            None => None,
        }
    }

    /// The stored prefixes of `k`, shortest first, are the entries whose key is a
    /// prefix of `k`, in ascending order.
    pub proof fn lemma_prefixes(&self, k: Seq<C>)
        requires
            self.wf(),
        ensures
            prefix_entries(self.view(), k, (k.len() + 1) as nat) == self.entries().filter(prefix_of::<C, V>(k)),
    {
        match self.root {
            Some(n) => {
                assert(self.view() == node_map(pointee(&n)));
                lemma_entries_model(pointee(&n), true);
                lemma_prefix_entries_filter(self.view(), self.entries(), k);
            },
            None => {
                assert(self.view() =~= Map::<Seq<C>, V>::empty());
                crate::node::lemma_prefix_entries_skip(self.view(), k, 0, (k.len() + 1) as nat);
                assert(Seq::<(Seq<C>, V)>::empty().filter(prefix_of::<C, V>(k)) =~= Seq::<(Seq<C>, V)>::empty()) by {
                    reveal(Seq::filter);
                }
            },
        }
    }

    /// The value of the longest stored key that is a prefix of `key` (a proper
    /// prefix unless `inclusive`).
    pub fn ancestor<'a>(&'a self, key: &[C], inclusive: bool) -> (r: Option<&'a V>)
        requires
            self.wf(),
        ensures
            deref_opt(r) == last_value(
                prefix_entries(self.view(), key@, (if inclusive { key@.len() + 1 } else { key@.len() + 0 }) as nat),
            ),
            longest_prefix_value(
                self.view(),
                key@,
                (if inclusive { key@.len() + 1 } else { key@.len() + 0 }) as nat,
                deref_opt(r),
            ),
    {
        proof {
            lemma_longest_prefix(self.view(), key@, (if inclusive { key@.len() + 1 } else { key@.len() + 0 }) as nat);
        }
        match &self.root {
            Some(n) => {
                assert(self.view() == node_map(**n));
                n.ancestor(key, inclusive)
            },
            None => {
                let ghost stop: nat = (if inclusive { key@.len() + 1 } else { key@.len() + 0 }) as nat;
                proof {
                    assert(self.view() =~= Map::<Seq<C>, V>::empty());
                    crate::node::lemma_prefix_entries_skip(self.view(), key@, 0, stop);
                }
                None
            },
        }
    }

    /// The values of the stored keys that are prefixes of `key` (inclusive),
    /// shortest first.
    pub fn ancestors<'a>(&'a self, key: &[C]) -> (r: Vec<&'a V>)
        requires
            self.wf(),
        ensures
            derefs(r@) == values_of(prefix_entries(self.view(), key@, (key@.len() + 1) as nat)),
            derefs(r@) == values_of(self.entries().filter(prefix_of::<C, V>(key@))),
    {
        proof {
            self.lemma_prefixes(key@);
        }
        match &self.root {
            Some(n) => {
                assert(self.view() == node_map(**n));
                n.ancestors(key)
            },
            None => {
                proof {
                    assert(self.view() =~= Map::<Seq<C>, V>::empty());
                    crate::node::lemma_prefix_entries_skip(self.view(), key@, 0, (key@.len() + 1) as nat);
                    assert(values_of(Seq::<(Seq<C>, V)>::empty()) =~= Seq::<V>::empty());
                }
                let v: Vec<&'a V> = Vec::new();
                assert(derefs(v@) =~= Seq::<V>::empty());
                v
            },
        }
    }

    /// The stored keys that are prefixes of `key` (inclusive), shortest first, with
    /// their values.
    pub fn ancestor_entries<'a>(&'a self, key: &[C]) -> (r: Vec<(Vec<C>, &'a V)>)
        requires
            self.wf(),
        ensures
            entry_views(r@) == prefix_entries(self.view(), key@, (key@.len() + 1) as nat),
            entry_views(r@) == self.entries().filter(prefix_of::<C, V>(key@)),
    {
        proof {
            self.lemma_prefixes(key@);
        }
        match &self.root {
            Some(n) => {
                assert(self.view() == node_map(**n));
                n.ancestor_entries(key)
            },
            None => {
                proof {
                    assert(self.view() =~= Map::<Seq<C>, V>::empty());
                    crate::node::lemma_prefix_entries_skip(self.view(), key@, 0, (key@.len() + 1) as nat);
                }
                let v: Vec<(Vec<C>, &'a V)> = Vec::new();
                assert(entry_views(v@) =~= Seq::<(Seq<C>, V)>::empty());
                v
            },
        }
    }
}

/// The keys under `r`: those starting with it (`inclusive`) or strictly extending it.
pub open spec fn key_set<C>(r: Seq<C>, inclusive: bool) -> Set<Seq<C>> {
    Set::new(|k: Seq<C>| if inclusive {
        r.is_prefix_of(k)
    } else {
        below(r, k)
    })
}

/// The entries kept by a test and those kept by its negation make up the whole.
pub proof fn lemma_filter_split_len<A>(s: Seq<A>, f: spec_fn(A) -> bool, g: spec_fn(A) -> bool)
    requires
        forall|x: A| #[trigger] g(x) == !f(x),
    ensures
        s.filter(f).len() + s.filter(g).len() == s.len(),
    decreases s.len(),
{
    reveal(Seq::filter);
    if s.len() > 0 {
        lemma_filter_split_len(s.drop_last(), f, g);
    }
}

/// When a trie's entries are another's filtered by a test on keys, its map is the
/// other's without the keys the test rejects.
pub proof fn lemma_view_filter<C: Component, V>(
    a: Root<C, V>,
    b: Root<C, V>,
    f: spec_fn((Seq<C>, V)) -> bool,
    gone: Set<Seq<C>>,
)
    requires
        a.wf(),
        b.wf(),
        b.entries() == a.entries().filter(f),
        forall|e: (Seq<C>, V)| #[trigger] f(e) == !gone.contains(e.0),
    ensures
        b.view() == a.view().remove_keys(gone),
{
    a.lemma_view();
    b.lemma_view();
    broadcast use Seq::lemma_filter_contains_rev;
    assert forall|k: Seq<C>| #[trigger] b.view().contains_key(k) == a.view().remove_keys(gone).contains_key(k)
        && (b.view().contains_key(k) ==> b.view()[k] == a.view()[k]) by {
        if b.view().contains_key(k) {
            let v = b.view()[k];
            assert(b.entries().contains((k, v)));
            assert(a.entries().contains((k, v)));
            assert(f((k, v)));
        }
        if a.view().contains_key(k) && !gone.contains(k) {
            let v = a.view()[k];
            assert(a.entries().contains((k, v)));
            let i = choose|i: int| 0 <= i < a.entries().len() && a.entries()[i] == (k, v);
            a.entries().lemma_filter_contains(f, i);
            assert(b.entries().contains((k, v)));
        }
    }
    assert(b.view() =~= a.view().remove_keys(gone));
}

/// A filtered trie has as many fewer values as the test rejected entries.
pub proof fn lemma_removed_len<C: Component, V>(
    a: Root<C, V>,
    b: Root<C, V>,
    f: spec_fn((Seq<C>, V)) -> bool,
    g: spec_fn((Seq<C>, V)) -> bool,
)
    requires
        a.wf(),
        b.wf(),
        b.entries() == a.entries().filter(f),
        forall|e: (Seq<C>, V)| #[trigger] g(e) == !f(e),
    ensures
        b.view().len() == a.view().len() - a.entries().filter(g).len(),
{
    a.lemma_view();
    b.lemma_view();
    lemma_filter_split_len(a.entries(), f, g);
}

/// The entries kept outside of `r` are those the test under `r` rejects.
pub proof fn lemma_outside_under<C, V>(r: Seq<C>)
    ensures
        forall|e: (Seq<C>, V)| #[trigger] crate::node::keep_not_below::<C, V>(r)(e) == !under::<C, V>(r, false)(e),
        forall|e: (Seq<C>, V)| #[trigger] crate::node::keep_outside::<C, V>(r)(e) == !under::<C, V>(r, true)(e),
        forall|e: (Seq<C>, V)| #[trigger] crate::node::keep_not_below::<C, V>(r)(e) == !key_set(r, false).contains(e.0),
        forall|e: (Seq<C>, V)| #[trigger] crate::node::keep_outside::<C, V>(r)(e) == !key_set(r, true).contains(e.0),
{
}

impl<C: Component, V> Root<C, V> {
    /// Removes every value stored strictly under `key`, keeping the one at `key`;
    /// returns how many were removed. When there is none, nothing is copied.
    #[verifier::rlimit(40)]
    #[verifier::spinoff_prover]
    pub fn remove_descendants(&mut self, key: &[C]) -> (r: usize)
        requires
            old(self).wf(),
        ensures
            final(self).wf(),
            final(self).entries() == old(self).entries().filter(crate::node::keep_not_below(key@)),
            final(self).view() == old(self).view().remove_keys(key_set(key@, false)),
            r == old(self).entries().filter(under::<C, V>(key@, false)).len(),
            r == old(self).view().len() - final(self).view().len(),
            r == 0 ==> *final(self) == *old(self),
    {
        let ghost pre = *self;
        let ghost f = crate::node::keep_not_below::<C, V>(key@);
        let ghost g = under::<C, V>(key@, false);
        proof {
            lemma_outside_under::<C, V>(key@);
            lemma_filter_split_len(self.entries(), g, f);
        }
        let mut it = self.descendants(key);
        if it.next().is_none() {
            proof {
                assert(self.entries().filter(g).len() == 0);
                assert forall|m: int| 0 <= m < self.entries().len() implies f(#[trigger] self.entries()[m]) by {
                    if !f(self.entries()[m]) {
                        self.entries().lemma_filter_contains(g, m);
                    }
                }
                crate::node::lemma_filter_all(self.entries(), f);
                assert(self.view().remove_keys(key_set(key@, false)) =~= self.view()) by {
                    self.lemma_view();
                    assert forall|k: Seq<C>| #[trigger] self.view().contains_key(k) implies !key_set(key@, false).contains(k) by {
                        let v = self.view()[k];
                        assert(self.entries().contains((k, v)));
                        let i = choose|i: int| 0 <= i < self.entries().len() && self.entries()[i] == (k, v);
                        assert(f(self.entries()[i]));
                    }
                }
            }
            return 0;
        }
        let node = self.root.take().unwrap();
        assert(key@.skip(0) =~= key@);
        let (new_root, removed) = Node::unlink_descendants(node, key, 0, Ghost(true));
        self.root = Some(new_root);
        self.len = self.len - removed;
        proof {
            lemma_view_filter(pre, *self, f, key_set(key@, false));
            lemma_removed_len(pre, *self, f, g);
        }
        removed
    }

    /// Removes every value stored at or under `key` (every value, for the empty
    /// key); returns how many were removed. When there is none, nothing is copied.
    #[verifier::rlimit(40)]
    #[verifier::spinoff_prover]
    pub fn delete_prefix(&mut self, key: &[C]) -> (r: usize)
        requires
            old(self).wf(),
        ensures
            final(self).wf(),
            final(self).entries() == old(self).entries().filter(crate::node::keep_outside(key@)),
            final(self).view() == old(self).view().remove_keys(key_set(key@, true)),
            r == old(self).entries().filter(under::<C, V>(key@, true)).len(),
            r == old(self).view().len() - final(self).view().len(),
            r == 0 && key@.len() > 0 ==> *final(self) == *old(self),
    {
        let ghost pre = *self;
        let ghost f = crate::node::keep_outside::<C, V>(key@);
        let ghost g = under::<C, V>(key@, true);
        proof {
            lemma_outside_under::<C, V>(key@);
            lemma_filter_split_len(self.entries(), g, f);
        }
        if key.len() == 0 {
            let removed = self.len;
            self.root = None;
            self.len = 0;
            proof {
                assert forall|m: int| 0 <= m < pre.entries().len() implies !f(#[trigger] pre.entries()[m]) by {
                    assert(key@.is_prefix_of(pre.entries()[m].0));
                }
                crate::node::lemma_filter_none(pre.entries(), f);
                assert(self.entries() =~= Seq::<(Seq<C>, V)>::empty());
                lemma_view_filter(pre, *self, f, key_set(key@, true));
                lemma_removed_len(pre, *self, f, g);
            }
            return removed;
        }
        let absent = self.get(key).is_none();
        let mut nothing = false;
        if absent {
            let mut it = self.descendants(key);
            nothing = it.next().is_none();
        }
        proof {
            let strict = self.entries().filter(under::<C, V>(key@, false));
            self.lemma_view();
            if !absent {
                let v = self.view()[key@];
                assert(self.entries().contains((key@, v)));
                let i = choose|i: int| 0 <= i < self.entries().len() && self.entries()[i] == (key@, v);
                assert(g(self.entries()[i]));
                self.entries().lemma_filter_contains(g, i);
            } else if !nothing {
                assert(strict.len() > 0);
                let e = strict[0];
                self.entries().lemma_filter_pred(under::<C, V>(key@, false), 0);
                assert(strict.contains(e));
                self.entries().lemma_filter_contains_rev(under::<C, V>(key@, false), e);
                let i = choose|i: int| 0 <= i < self.entries().len() && self.entries()[i] == e;
                assert(g(self.entries()[i]));
                self.entries().lemma_filter_contains(g, i);
            }
        }
        if nothing {
            proof {
                self.lemma_view();
                assert(self.entries().filter(under::<C, V>(key@, false)).len() == 0);
                assert forall|m: int| 0 <= m < self.entries().len() implies f(#[trigger] self.entries()[m]) by {
                    let e = self.entries()[m];
                    if !f(e) {
                        if e.0 == key@ {
                            assert(self.entries().contains((key@, e.1)));
                            assert(self.view().contains_key(key@));
                        } else {
                            assert(below(key@, e.0)) by {
                                assert(key@.is_prefix_of(e.0));
                                if e.0.len() == key@.len() {
                                    assert(e.0 =~= key@);
                                }
                            }
                            self.entries().lemma_filter_contains(under::<C, V>(key@, false), m);
                        }
                    }
                }
                crate::node::lemma_filter_all(self.entries(), f);
                lemma_view_filter(pre, *self, f, key_set(key@, true));
            }
            return 0;
        }
        let node = self.root.take().unwrap();
        assert(key@.skip(0) =~= key@);
        let (new_root, removed) = Node::unlink_prefix(node, key, 0, Ghost(true));
        self.root = Some(new_root);
        self.len = self.len - removed;
        proof {
            lemma_view_filter(pre, *self, f, key_set(key@, true));
            lemma_removed_len(pre, *self, f, g);
        }
        removed
    }

    /// Removes every value stored strictly under `key`, keeping the one at `key`,
    /// and returns clones of them in ascending key order. The values are cloned out
    /// before anything is unlinked; when there is none, nothing is copied.
    pub fn drain_descendants(&mut self, key: &[C]) -> (r: Vec<V>)
        where V: Clone
        requires
            old(self).wf(),
        ensures
            final(self).wf(),
            final(self).entries() == old(self).entries().filter(crate::node::keep_not_below(key@)),
            final(self).view() == old(self).view().remove_keys(key_set(key@, false)),
            r@.len() == old(self).entries().filter(under::<C, V>(key@, false)).len(),
            r@.len() == old(self).view().len() - final(self).view().len(),
            forall|i: int| 0 <= i < r@.len() ==> cloned(
                #[trigger] values_of(old(self).entries().filter(under::<C, V>(key@, false)))[i],
                r@[i],
            ),
            r@.len() == 0 ==> *final(self) == *old(self),
    {
        let ghost vals = values_of(self.entries().filter(under::<C, V>(key@, false)));
        let mut out: Vec<V> = Vec::new();
        let mut it = self.descendants(key);
        loop
            invariant
                it@ == vals.skip(out@.len() as int),
                out@.len() <= vals.len(),
                forall|i: int| 0 <= i < out@.len() ==> cloned(#[trigger] vals[i], out@[i]),
            ensures
                out@.len() == vals.len(),
                forall|i: int| 0 <= i < out@.len() ==> cloned(#[trigger] vals[i], out@[i]),
            decreases it@.len(),
        {
            let ghost before = it@;
            match it.next() {
                None => {
                    assert(out@.len() == vals.len());
                    break;
                },
                Some(v) => {
                    assert(before[0] == vals[out@.len() as int]);
                    out.push(v.clone());
                    assert(it@ =~= vals.skip(out@.len() as int));
                },
            }
        }
        if out.len() == 0 {
            let removed = self.remove_descendants(key);
            assert(removed == 0);
            return out;
        }
        self.remove_descendants(key);
        out
    }

    /// Removes every value stored at or under `key` (every value, for the empty key)
    /// and returns clones of them in ascending key order, the value at `key` first.
    /// The values are cloned out before anything is unlinked; when there is none,
    /// nothing is copied.
    pub fn drain_prefix(&mut self, key: &[C]) -> (r: Vec<V>)
        where V: Clone
        requires
            old(self).wf(),
        ensures
            final(self).wf(),
            final(self).entries() == old(self).entries().filter(crate::node::keep_outside(key@)),
            final(self).view() == old(self).view().remove_keys(key_set(key@, true)),
            r@.len() == old(self).entries().filter(under::<C, V>(key@, true)).len(),
            r@.len() == old(self).view().len() - final(self).view().len(),
            forall|i: int| 0 <= i < r@.len() ==> cloned(
                #[trigger] values_of(old(self).entries().filter(under::<C, V>(key@, true)))[i],
                r@[i],
            ),
            r@.len() == 0 && key@.len() > 0 ==> *final(self) == *old(self),
    {
        let ghost vals = values_of(self.entries().filter(under::<C, V>(key@, true)));
        let mut out: Vec<V> = Vec::new();
        let mut it = self.descendants_inclusive(key);
        loop
            invariant
                it@ == vals.skip(out@.len() as int),
                out@.len() <= vals.len(),
                forall|i: int| 0 <= i < out@.len() ==> cloned(#[trigger] vals[i], out@[i]),
            ensures
                out@.len() == vals.len(),
                forall|i: int| 0 <= i < out@.len() ==> cloned(#[trigger] vals[i], out@[i]),
            decreases it@.len(),
        {
            let ghost before = it@;
            match it.next() {
                None => {
                    assert(out@.len() == vals.len());
                    break;
                },
                Some(v) => {
                    assert(before[0] == vals[out@.len() as int]);
                    out.push(v.clone());
                    assert(it@ =~= vals.skip(out@.len() as int));
                },
            }
        }
        if out.len() == 0 {
            self.delete_prefix(key);
            return out;
        }
        self.delete_prefix(key);
        out
    }
}

impl<C: Component, V> Root<C, V> {
    /// Counts the stored values by walking the whole trie.
    pub fn count_values(&self) -> (r: usize)
        requires
            self.wf(),
        ensures
            r == self.entries().len(),
    {
        match &self.root {
            Some(n) => n.count(),
            None => 0,
        }
    }

    /// The number of edges leaving the root.
    pub fn root_child_count(&self) -> (r: usize)
        ensures
            r == match self.root {
                Some(n) => n.children@.len(),
                None => 0,
            },
    {
        match &self.root {
            Some(n) => n.children.len(),
            None => 0,
        }
    }

    /// Whether the root node holds a value (the value stored under the empty key).
    pub fn root_has_value(&self) -> (r: bool)
        ensures
            r == (self.root matches Some(n) && n.value is Some),
    {
        match &self.root {
            Some(n) => n.value.is_some(),
            None => false,
        }
    }

    /// Whether the trie is in canonical, path-compressed form.
    pub fn is_canonical(&self) -> (r: bool)
        ensures
            r == (self.root matches Some(n) ==> crate::node::canonical(*n, true)),
            self.wf() ==> r,
    {
        proof {
            if self.wf() && self.root is Some {
                crate::node::lemma_wf_canonical(pointee(&self.root->0), true);
            }
        }
        match &self.root {
            Some(n) => n.is_canonical(true),
            None => true,
        }
    }
}

/// The first components of the non-empty keys of a map.
pub open spec fn first_components<C, V>(m: Map<Seq<C>, V>) -> Set<C> {
    Set::new(|c: C| exists|k: Seq<C>| #[trigger] m.contains_key(k) && k.len() > 0 && k[0] == c)
}

/// The root has one edge per distinct first component of the stored keys.
pub proof fn lemma_root_children<C: Component, V>(r: &Root<C, V>)
    requires
        r.wf(),
    ensures
        (match r.root {
            Some(n) => n.children@.len(),
            None => 0,
        }) == first_components(r.view()).len(),
{
    r.lemma_view();
    match r.root {
        None => {
            assert(first_components(r.view()) =~= Set::<C>::empty());
            assert(Set::<C>::empty().len() == 0);
        },
        Some(a) => {
            let n = pointee(&a);
            let es = n.children@;
            let firsts = Seq::new(es.len(), |i: int| crate::node::first(es[i]));
            C::lemma_strict_total_order();
            assert(firsts.no_duplicates()) by {
                assert forall|i: int, j: int| 0 <= i < firsts.len() && 0 <= j < firsts.len() && i != j implies firsts[i]
                    != firsts[j] by {
                    if i < j {
                        crate::order::lemma_comp_asym(crate::node::first(es[i]), crate::node::first(es[j]));
                    } else {
                        crate::order::lemma_comp_asym(crate::node::first(es[j]), crate::node::first(es[i]));
                    }
                }
            }
            let own = crate::node::own_entries(n);
            assert forall|c: C| firsts.to_set().contains(c) == #[trigger] first_components(r.view()).contains(c) by {
                if firsts.to_set().contains(c) {
                    let i = choose|i: int| 0 <= i < firsts.len() && firsts[i] == c;
                    assert(wf(*es[i].child, false));
                    crate::seek::lemma_wf_nonempty(crate::node::target(es[i]));
                    let ce = entries(crate::node::target(es[i]));
                    crate::node::lemma_edges_entries_has(es, i, 0);
                    let x = (es[i].label@ + ce[0].0, ce[0].1);
                    let m = choose|m: int| 0 <= m < crate::node::edges_entries(es).len() && crate::node::edges_entries(es)[m] == x;
                    assert(entries(n)[own.len() + m] == x);
                    assert(r.entries().contains(x));
                    assert(r.view().contains_key(x.0));
                    assert(x.0[0] == c);
                }
                if first_components(r.view()).contains(c) {
                    let k = choose|k: Seq<C>| #[trigger] r.view().contains_key(k) && k.len() > 0 && k[0] == c;
                    let v = r.view()[k];
                    assert(r.entries().contains((k, v)));
                    let m = choose|m: int| 0 <= m < entries(n).len() && entries(n)[m] == (k, v);
                    assert(m >= own.len());
                    assert(entries(n)[m] == crate::node::edges_entries(es)[m - own.len()]);
                    let w = crate::node::lemma_edges_entries_from(es, m - own.len());
                    assert(es[w.0].label@.len() > 0);
                    assert(k[0] == crate::node::first(es[w.0]));
                    assert(firsts[w.0] == c);
                }
            }
            assert(firsts.to_set() =~= first_components(r.view()));
            firsts.unique_seq_to_set();
        },
    }
}

/// A component starts a stored key exactly when the root has an edge for it.
pub proof fn lemma_edge_first<C: Component, V>(r: &Root<C, V>, c: C)
    requires
        r.wf(),
    ensures
        first_components(r.view()).contains(c) == (r.root matches Some(n) && crate::node::edge_for(
            n.children@,
            c,
        ) >= 0),
{
    lemma_root_children(r);
    r.lemma_view();
    match r.root {
        None => {
            assert(first_components(r.view()) =~= Set::<C>::empty());
        },
        Some(a) => {
            let n = pointee(&a);
            let es = n.children@;
            crate::node::lemma_edge_for(es, c);
            let i = crate::node::edge_for(es, c);
            let own = crate::node::own_entries(n);
            if i >= 0 {
                assert(wf(*es[i].child, false));
                crate::seek::lemma_wf_nonempty(crate::node::target(es[i]));
                let ce = entries(crate::node::target(es[i]));
                crate::node::lemma_edges_entries_has(es, i, 0);
                let x = (es[i].label@ + ce[0].0, ce[0].1);
                let m = choose|m: int| 0 <= m < crate::node::edges_entries(es).len() && crate::node::edges_entries(es)[m] == x;
                assert(entries(n)[own.len() + m] == x);
                assert(r.entries().contains(x));
                assert(r.view().contains_key(x.0));
                assert(x.0[0] == c);
            }
            if first_components(r.view()).contains(c) {
                let k = choose|k: Seq<C>| #[trigger] r.view().contains_key(k) && k.len() > 0 && k[0] == c;
                let v = r.view()[k];
                assert(r.entries().contains((k, v)));
                let m = choose|m: int| 0 <= m < entries(n).len() && entries(n)[m] == (k, v);
                assert(m >= own.len());
                assert(entries(n)[m] == crate::node::edges_entries(es)[m - own.len()]);
                let w = crate::node::lemma_edges_entries_from(es, m - own.len());
                assert(es[w.0].label@.len() > 0);
                assert(k[0] == crate::node::first(es[w.0]));
            }
        },
    }
}

impl<C: Component, V> Root<C, V> {
    /// The child behind the root edge whose label starts with `first`, if any.
    pub open spec fn edge_child_of(&self, first: C) -> Option<Arc<Node<C, V>>> {
        match self.root {
            Some(n) => match crate::node::edge_opt(n.children@, first) {
                Some(e) => Some(e.child),
                None => None,
            },
            None => None,
        }
    }

    /// The subtree behind the root edge whose label starts with `first`, shared.
    pub fn edge_child(&self, first: &C) -> (r: Option<Arc<Node<C, V>>>)
        requires
            self.wf(),
        ensures
            r is Some == first_components(self.view()).contains(*first),
            r == self.edge_child_of(*first),
    {
        proof {
            lemma_edge_first(self, *first);
        }
        match &self.root {
            Some(n) => match n.child_index(first) {
                Ok(i) => {
                    proof {
                        crate::node::lemma_edge_opt_is(n.children@, *first, i as int);
                    }
                    Some(n.children[i].child.clone())
                },
                Err(_) => None,
            },
            None => None,
        }
    }
}

/// The root holds a value exactly when one is stored under the empty key.
pub proof fn lemma_root_value<C: Component, V>(r: &Root<C, V>)
    ensures
        r.view().contains_key(Seq::<C>::empty()) == (r.root matches Some(n) && n.value is Some),
{
}

/// The entries of a well-formed trie are in strictly ascending key order.
pub proof fn lemma_entries_sorted<C: Component, V>(r: &Root<C, V>)
    requires
        r.wf(),
    ensures
        sorted(r.entries()),
{
    match r.root {
        Some(n) => crate::node::lemma_entries_sorted(pointee(&n), true),
        None => {},
    }
}

} // verus!
