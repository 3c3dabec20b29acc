//! The persistent node graph and its mathematical model.
//!
//! A node holds an optional value and its outgoing edges; each edge carries a
//! non-empty, path-compressed label and a shared pointer to its child. A node's
//! model is the sequence of its entries, in key order: its own value under the
//! empty key, then every child's entries with the edge label in front.

use std::sync::Arc;
use vstd::prelude::*;
use crate::order::{
    Component, Order, key_le, key_lt, lemma_comp_asym, lemma_key_lt_asym, lemma_key_lt_first,
    lemma_key_lt_irreflexive, lemma_key_lt_prefix, lemma_key_lt_proper_prefix, lemma_key_lt_total,
    lemma_key_lt_transitive,
};

verus! {

/// An edge from a node to a child, labelled with the components it consumes.
pub struct Edge<C, V> {
    pub label: Arc<Vec<C>>,
    pub child: Arc<Node<C, V>>,
}

/// A trie node: an optional value and the edges to its children, kept sorted by
/// the first component of their labels.
pub struct Node<C, V> {
    pub value: Option<Arc<V>>,
    pub children: Vec<Edge<C, V>>,
}

/// Two nodes hold the same value and the same edges.
pub open spec fn same_node<C, V>(a: Node<C, V>, b: Node<C, V>) -> bool {
    a.value == b.value && a.children@ == b.children@
}

/// Prepends `p` to every key of `s`.
pub open spec fn shift<C, V>(p: Seq<C>, s: Seq<(Seq<C>, V)>) -> Seq<(Seq<C>, V)> {
    s.map_values(|e: (Seq<C>, V)| (p + e.0, e.1))
}

/// The entry stored at the node itself, if any.
pub open spec fn own_entries<C, V>(n: Node<C, V>) -> Seq<(Seq<C>, V)> {
    match n.value {
        Some(v) => seq![(Seq::<C>::empty(), *v)],
        None => Seq::empty(),
    }
}

/// All entries below `n`, in key order.
pub open spec fn entries<C, V>(n: Node<C, V>) -> Seq<(Seq<C>, V)>
    decreases n,
{
    own_entries(n) + edges_entries(n.children@)
}

/// The entries reached through a list of edges, each prefixed by its label.
pub open spec fn edges_entries<C, V>(es: Seq<Edge<C, V>>) -> Seq<(Seq<C>, V)>
    decreases es,
{
    if es.len() == 0 {
        Seq::empty()
    } else {
        edges_entries(es.drop_last()) + shift(es.last().label@, entries(target(es.last())))
    }
}

/// The value behind a shared pointer.
pub open spec fn pointee<T>(a: &Arc<T>) -> T {
    **a
}

/// The node an edge leads to.
pub open spec fn target<C, V>(e: Edge<C, V>) -> Node<C, V> {
    *e.child
}

/// The first component of an edge's label.
pub open spec fn first<C, V>(e: Edge<C, V>) -> C {
    e.label@[0]
}

/// Edge labels are non-empty and edges are strictly sorted by first component.
pub open spec fn edges_ordered<C: Component, V>(es: Seq<Edge<C, V>>) -> bool {
    &&& forall|i: int| 0 <= i < es.len() ==> (#[trigger] es[i]).label@.len() > 0
    &&& forall|i: int, j: int|
        0 <= i < j < es.len() ==> (#[trigger] first(es[i])).comp_lt(#[trigger] first(es[j]))
}

/// Well-formedness of the subtree at `n`: ordered, non-empty edges everywhere, and
/// path compression below the root (a non-root node holds a value or branches).
pub open spec fn wf<C: Component, V>(n: Node<C, V>, root: bool) -> bool
    decreases n,
{
    &&& edges_ordered(n.children@)
    &&& (!root ==> (n.value is Some || n.children@.len() >= 2))
    &&& forall|i: int| 0 <= i < n.children@.len() ==> wf(*(#[trigger] n.children@[i]).child, false)
}

/// The keys of a sequence of entries are strictly increasing.
pub open spec fn sorted<C: Component, V>(s: Seq<(Seq<C>, V)>) -> bool {
    forall|i: int, j: int| 0 <= i < j < s.len() ==> key_lt(#[trigger] s[i].0, #[trigger] s[j].0)
}

/// Every key of `s` is non-empty and starts with a component below `b`.
pub open spec fn keys_below<C: Component, V>(s: Seq<(Seq<C>, V)>, b: C) -> bool {
    forall|i: int| 0 <= i < s.len() ==> (#[trigger] s[i]).0.len() > 0 && s[i].0[0].comp_lt(b)
}

/// Every key of `s` is non-empty and starts with `c`.
pub open spec fn keys_start<C, V>(s: Seq<(Seq<C>, V)>, c: C) -> bool {
    forall|i: int| 0 <= i < s.len() ==> (#[trigger] s[i]).0.len() > 0 && s[i].0[0] == c
}

pub proof fn lemma_shift_sorted<C: Component, V>(p: Seq<C>, s: Seq<(Seq<C>, V)>)
    requires
        sorted(s),
    ensures
        sorted(shift(p, s)),
{
    assert forall|i: int, j: int| 0 <= i < j < shift(p, s).len() implies key_lt(
        #[trigger] shift(p, s)[i].0,
        #[trigger] shift(p, s)[j].0,
    ) by {
        lemma_key_lt_prefix(p, s[i].0, s[j].0);
    }
}

pub proof fn lemma_shift_start<C: Component, V>(p: Seq<C>, s: Seq<(Seq<C>, V)>)
    requires
        p.len() > 0,
    ensures
        keys_start(shift(p, s), p[0]),
{
}

/// Concatenating two sorted runs whose keys are ordered across yields a sorted run.
pub proof fn lemma_sorted_concat<C: Component, V>(a: Seq<(Seq<C>, V)>, b: Seq<(Seq<C>, V)>)
    requires
        sorted(a),
        sorted(b),
        forall|i: int, j: int| 0 <= i < a.len() && 0 <= j < b.len() ==> key_lt(#[trigger] a[i].0, #[trigger] b[j].0),
    ensures
        sorted(a + b),
{
    assert forall|i: int, j: int| 0 <= i < j < (a + b).len() implies key_lt(
        #[trigger] (a + b)[i].0,
        #[trigger] (a + b)[j].0,
    ) by {
        if j < a.len() {
        } else if i >= a.len() {
            assert((a + b)[i] == b[i - a.len()]);
            assert((a + b)[j] == b[j - a.len()]);
        } else {
            assert((a + b)[j] == b[j - a.len()]);
        }
    }
}

/// The entries behind ordered edges are sorted and start below any bound that
/// exceeds every edge's first component.
pub proof fn lemma_edges_entries_sorted<C: Component, V>(es: Seq<Edge<C, V>>)
    requires
        edges_ordered(es),
        forall|i: int| 0 <= i < es.len() ==> wf(*(#[trigger] es[i]).child, false),
    ensures
        sorted(edges_entries(es)),
        forall|b: C|
            (forall|i: int| 0 <= i < es.len() ==> (#[trigger] first(es[i])).comp_lt(b)) ==> keys_below(
                edges_entries(es),
                b,
            ),
    decreases es,
{
    if es.len() > 0 {
        let init = es.drop_last();
        let e = es.last();
        assert(forall|i: int| 0 <= i < init.len() ==> init[i] == es[i]);
        lemma_edges_entries_sorted(init);
        lemma_entries_sorted(target(e), false);
        lemma_shift_sorted(e.label@, entries(target(e)));
        lemma_shift_start(e.label@, entries(target(e)));
        let a = edges_entries(init);
        let b = shift(e.label@, entries(target(e)));
        assert(forall|i: int| 0 <= i < init.len() ==> (#[trigger] first(init[i])).comp_lt(first(e))) by {
            assert forall|i: int| 0 <= i < init.len() implies (#[trigger] first(init[i])).comp_lt(first(e)) by {
                assert(first(es[i]).comp_lt(first(es[es.len() - 1])));
            }
        }
        assert(keys_below(a, first(e)));
        assert forall|i: int, j: int| 0 <= i < a.len() && 0 <= j < b.len() implies key_lt(
            #[trigger] a[i].0,
            #[trigger] b[j].0,
        ) by {
            lemma_comp_asym(a[i].0[0], first(e));
            lemma_key_lt_first(a[i].0, b[j].0);
        }
        lemma_sorted_concat(a, b);
        assert forall|bd: C|
            (forall|i: int| 0 <= i < es.len() ==> (#[trigger] first(es[i])).comp_lt(bd)) implies keys_below(
            edges_entries(es),
            bd,
        ) by {
            assert(forall|i: int| 0 <= i < init.len() ==> (#[trigger] first(init[i])).comp_lt(bd)) by {
                assert forall|i: int| 0 <= i < init.len() implies (#[trigger] first(init[i])).comp_lt(bd) by {
                    assert(first(es[i]).comp_lt(bd));
                }
            }
            assert(first(es[es.len() - 1]).comp_lt(bd));
            assert(keys_below(a, bd));
            let all = a + b;
            assert forall|i: int| 0 <= i < all.len() implies (#[trigger] all[i]).0.len() > 0 && all[i].0[0].comp_lt(bd) by {
                if i >= a.len() {
                    assert(all[i] == b[i - a.len()]);
                }
            }
        }
    }
}

/// The entries of a well-formed subtree are sorted by key.
pub proof fn lemma_entries_sorted<C: Component, V>(n: Node<C, V>, root: bool)
    requires
        wf(n, root),
    ensures
        sorted(entries(n)),
    decreases n,
{
    let es = n.children@;
    assert(forall|i: int| 0 <= i < es.len() ==> wf(*(#[trigger] es[i]).child, false));
    lemma_edges_entries_sorted(es);
    let a = own_entries(n);
    let b = edges_entries(es);
    lemma_edges_entries_nonempty_keys(es);
    assert forall|i: int, j: int| 0 <= i < a.len() && 0 <= j < b.len() implies key_lt(
        #[trigger] a[i].0,
        #[trigger] b[j].0,
    ) by {
    }
    lemma_sorted_concat(a, b);
}

/// Keys reached through an edge are never empty.
pub proof fn lemma_edges_entries_nonempty_keys<C: Component, V>(es: Seq<Edge<C, V>>)
    requires
        edges_ordered(es),
    ensures
        forall|i: int| 0 <= i < edges_entries(es).len() ==> (#[trigger] edges_entries(es)[i]).0.len() > 0,
    decreases es,
{
    if es.len() > 0 {
        let init = es.drop_last();
        assert(forall|i: int| 0 <= i < init.len() ==> init[i] == es[i]);
        lemma_edges_entries_nonempty_keys(init);
        let a = edges_entries(init);
        let b = shift(es.last().label@, entries(target(es.last())));
        assert forall|i: int| 0 <= i < (a + b).len() implies (#[trigger] (a + b)[i]).0.len() > 0 by {
            if i >= a.len() {
                assert((a + b)[i] == b[i - a.len()]);
            }
        }
    }
}


/// The index of the edge whose label starts with `c`, or `-1` when there is none.
pub open spec fn edge_for<C, V>(es: Seq<Edge<C, V>>, c: C) -> int
    decreases es.len(),
{
    if es.len() == 0 {
        -1
    } else if es.last().label@.len() > 0 && first(es.last()) == c {
        es.len() - 1
    } else {
        edge_for(es.drop_last(), c)
    }
}

/// The value stored under exactly `k` below `n`, found by walking edge labels.
pub open spec fn lookup<C, V>(n: Node<C, V>, k: Seq<C>) -> Option<V>
    decreases k.len(),
{
    if k.len() == 0 {
        match n.value {
            Some(v) => Some(*v),
            None => None,
        }
    } else {
        let i = edge_for(n.children@, k[0]);
        if i < 0 || i >= n.children@.len() {
            None
        } else {
            let e = n.children@[i];
            let l = e.label@;
            if 0 < l.len() && l.is_prefix_of(k) {
                lookup(target(e), k.skip(l.len() as int))
            } else {
                None
            }
        }
    }
}

/// The value behind an optional reference.
pub open spec fn deref_opt<V>(r: Option<&V>) -> Option<V> {
    match r {
        Some(v) => Some(*v),
        None => None,
    }
}

/// The map a subtree stores.
pub open spec fn node_map<C, V>(n: Node<C, V>) -> Map<Seq<C>, V> {
    Map::new(|k: Seq<C>| lookup(n, k) is Some, |k: Seq<C>| lookup(n, k)->0)
}

pub proof fn lemma_edge_for<C: Component, V>(es: Seq<Edge<C, V>>, c: C)
    ensures
        -1 <= edge_for(es, c) < es.len(),
        edge_for(es, c) >= 0 ==> es[edge_for(es, c)].label@.len() > 0 && first(es[edge_for(es, c)]) == c,
        edge_for(es, c) < 0 ==> forall|j: int| 0 <= j < es.len() && (#[trigger] es[j]).label@.len() > 0 ==> first(es[j]) != c,
    decreases es.len(),
{
    if es.len() > 0 {
        let init = es.drop_last();
        lemma_edge_for(init, c);
        assert(forall|j: int| 0 <= j < init.len() ==> init[j] == es[j]);
    }
}

/// In ordered edges, the edge whose label starts with `c` is the one `edge_for` finds.
pub proof fn lemma_edge_for_unique<C: Component, V>(es: Seq<Edge<C, V>>, c: C, j: int)
    requires
        edges_ordered(es),
        0 <= j < es.len(),
        first(es[j]) == c,
    ensures
        edge_for(es, c) == j,
{
    lemma_edge_for(es, c);
    let i = edge_for(es, c);
    C::lemma_strict_total_order();
    if i != j {
        assert(es[j].label@.len() > 0);
        if i < j {
            assert(first(es[i]).comp_lt(first(es[j])));
        } else {
            assert(first(es[j]).comp_lt(first(es[i])));
        }
    }
}

/// An entry reached through one of the edges is among the edges' entries.
pub proof fn lemma_edges_entries_has<C: Component, V>(es: Seq<Edge<C, V>>, i: int, j: int)
    requires
        0 <= i < es.len(),
        0 <= j < entries(target(es[i])).len(),
    ensures
        edges_entries(es).contains(
            (es[i].label@ + entries(target(es[i]))[j].0, entries(target(es[i]))[j].1),
        ),
    decreases es.len(),
{
    let init = es.drop_last();
    let a = edges_entries(init);
    let b = shift(es.last().label@, entries(target(es.last())));
    let x = (es[i].label@ + entries(target(es[i]))[j].0, entries(target(es[i]))[j].1);
    if i == es.len() - 1 {
        assert((a + b)[a.len() + j] == x);
    } else {
        assert(init[i] == es[i]);
        lemma_edges_entries_has(init, i, j);
        let k = choose|k: int| 0 <= k < a.len() && a[k] == x;
        assert((a + b)[k] == x);
    }
}

/// Every entry behind the edges comes from one edge's subtree.
pub proof fn lemma_edges_entries_from<C: Component, V>(es: Seq<Edge<C, V>>, m: int) -> (r: (int, int))
    requires
        0 <= m < edges_entries(es).len(),
    ensures
        0 <= r.0 < es.len(),
        0 <= r.1 < entries(target(es[r.0])).len(),
        edges_entries(es)[m] == (es[r.0].label@ + entries(target(es[r.0]))[r.1].0, entries(
            target(es[r.0]),
        )[r.1].1),
    decreases es.len(),
{
    let init = es.drop_last();
    let a = edges_entries(init);
    let b = shift(es.last().label@, entries(target(es.last())));
    if m < a.len() {
        assert((a + b)[m] == a[m]);
        let r = lemma_edges_entries_from(init, m);
        assert(init[r.0] == es[r.0]);
        r
    } else {
        assert((a + b)[m] == b[m - a.len()]);
        (es.len() - 1, m - a.len())
    }
}

/// The walk and the ordered listing agree: `k` maps to `v` exactly when `(k, v)`
/// is an entry.
pub proof fn lemma_lookup_entries<C: Component, V>(n: Node<C, V>, root: bool, k: Seq<C>, v: V)
    requires
        wf(n, root),
    ensures
        lookup(n, k) == Some(v) <==> entries(n).contains((k, v)),
    decreases k.len(),
{
    let es = n.children@;
    let own = own_entries(n);
    let rest = edges_entries(es);
    lemma_edges_entries_nonempty_keys(es);
    assert(entries(n) == own + rest);
    if k.len() == 0 {
        if entries(n).contains((k, v)) {
            let m = choose|m: int| 0 <= m < entries(n).len() && entries(n)[m] == (k, v);
            if m >= own.len() {
                assert(entries(n)[m] == rest[m - own.len()]);
            }
        }
        if lookup(n, k) == Some(v) {
            assert(k =~= Seq::<C>::empty());
            assert(entries(n)[0] == (k, v));
        }
    } else {
        lemma_edge_for(es, k[0]);
        let i = edge_for(es, k[0]);
        if entries(n).contains((k, v)) {
            let m = choose|m: int| 0 <= m < entries(n).len() && entries(n)[m] == (k, v);
            assert(m >= own.len());
            assert(entries(n)[m] == rest[m - own.len()]);
            let r = lemma_edges_entries_from(es, m - own.len());
            let e = es[r.0];
            let ce = entries(target(e));
            let k2 = ce[r.1].0;
            assert(k == e.label@ + k2);
            assert(e.label@.len() > 0);
            assert(k[0] == first(e));
            lemma_edge_for_unique(es, k[0], r.0);
            assert(e.label@.is_prefix_of(k));
            assert(k.skip(e.label@.len() as int) =~= k2);
            assert(ce.contains((k2, v))) by {
                assert(ce[r.1] == (k2, v));
            }
            lemma_lookup_entries(target(e), false, k2, v);
        }
        if lookup(n, k) == Some(v) {
            assert(0 <= i < es.len());
            let e = es[i];
            let k2 = k.skip(e.label@.len() as int);
            lemma_lookup_entries(target(e), false, k2, v);
            let ce = entries(target(e));
            let j = choose|j: int| 0 <= j < ce.len() && ce[j] == (k2, v);
            lemma_edges_entries_has(es, i, j);
            assert(e.label@ + k2 =~= k);
            let m = choose|m: int| 0 <= m < rest.len() && rest[m] == (k, v);
            assert(entries(n)[own.len() + m] == (k, v));
        }
    }
}


/// The number of leading components of `label` that equal the components of
/// `key` from position `pos` on.
pub fn match_prefix<C: Component>(label: &Vec<C>, key: &[C], pos: usize) -> (shared: usize)
    requires
        pos <= key@.len(),
    ensures
        shared <= label@.len(),
        pos + shared <= key@.len(),
        forall|t: int| 0 <= t < shared ==> label@[t] == key@[pos + t],
        shared < label@.len() && pos + shared < key@.len() ==> label@[shared as int] != key@[pos + shared],
{
    let mut shared: usize = 0;
    while shared < label.len() && shared < key.len() - pos
        invariant
            shared <= label@.len(),
            pos + shared <= key@.len(),
            forall|t: int| 0 <= t < shared ==> label@[t] == key@[pos + t],
        decreases label@.len() - shared,
    {
        match label[shared].compare(&key[pos + shared]) {
            Order::Equal => {
                shared = shared + 1;
            },
            _ => {
                return shared;
            },
        }
    }
    shared
}

impl<C: Component, V> Node<C, V> {
    /// Binary-searches the edges for the one whose label starts with `c`: `Ok(i)`
    /// indexes it, `Err(i)` is where such an edge would be inserted.
    pub fn child_index(&self, c: &C) -> (r: Result<usize, usize>)
        requires
            edges_ordered(self.children@),
        ensures
            match r {
                Ok(i) => i < self.children@.len() && first(self.children@[i as int]) == *c
                    && edge_for(self.children@, *c) == i,
                Err(i) => i <= self.children@.len() && edge_for(self.children@, *c) == -1
                    && (forall|j: int| 0 <= j < i ==> (#[trigger] first(self.children@[j])).comp_lt(*c))
                    && (forall|j: int| i <= j < self.children@.len() ==> c.comp_lt(#[trigger] first(self.children@[j]))),
            },
    {
        let ghost es = self.children@;
        let mut lo: usize = 0;
        let mut hi: usize = self.children.len();
        proof {
            C::lemma_strict_total_order();
        }
        while lo < hi
            invariant
                es == self.children@,
                edges_ordered(es),
                lo <= hi <= es.len(),
                forall|j: int| 0 <= j < lo ==> (#[trigger] first(es[j])).comp_lt(*c),
                forall|j: int| hi <= j < es.len() ==> c.comp_lt(#[trigger] first(es[j])),
            decreases hi - lo,
        {
            let mid = lo + (hi - lo) / 2;
            let f = &self.children[mid].label[0];
            match f.compare(c) {
                Order::Less => {
                    proof {
                        C::lemma_strict_total_order();
                        assert forall|j: int| 0 <= j < mid + 1 implies (#[trigger] first(es[j])).comp_lt(*c) by {
                            if j < mid {
                                assert(first(es[j]).comp_lt(first(es[mid as int])));
                            }
                        }
                    }
                    lo = mid + 1;
                },
                Order::Equal => {
                    proof {
                        lemma_edge_for_unique(es, *c, mid as int);
                    }
                    return Ok(mid);
                },
                Order::Greater => {
                    proof {
                        C::lemma_strict_total_order();
                        assert forall|j: int| mid <= j < es.len() implies c.comp_lt(#[trigger] first(es[j])) by {
                            if j > mid {
                                assert(first(es[mid as int]).comp_lt(first(es[j])));
                            }
                        }
                    }
                    hi = mid;
                },
            }
        }
        proof {
            lemma_edge_for(es, *c);
            let i = edge_for(es, *c);
            if i >= 0 {
                if i < lo {
                    assert(first(es[i]).comp_lt(*c));
                } else {
                    assert(c.comp_lt(first(es[i])));
                }
            }
        }
        Err(lo)
    }

    /// The value stored under exactly `key` below this node.
    pub fn get(&self, key: &[C]) -> (r: Option<&V>)
        requires
            wf(*self, true),
        ensures
            deref_opt(r) == lookup(*self, key@),
    {
        let mut node = self;
        let mut pos: usize = 0;
        assert(key@.skip(0) =~= key@);
        loop
            invariant
                wf(*node, true),
                pos <= key@.len(),
                lookup(*self, key@) == lookup(*node, key@.skip(pos as int)),
            decreases key@.len() - pos,
        {
            let ghost rest = key@.skip(pos as int);
            if pos == key.len() {
                assert(rest.len() == 0);
                return match &node.value {
                    Some(v) => Some(&**v),
                    None => None,
                };
            }
            match node.child_index(&key[pos]) {
                Err(_) => {
                    return None;
                },
                Ok(i) => {
                    let edge = &node.children[i];
                    let shared = match_prefix(&edge.label, key, pos);
                    if shared < edge.label.len() {
                        proof {
                            assert(!edge.label@.is_prefix_of(rest));
                        }
                        return None;
                    }
                    proof {
                        assert(edge.label@.is_prefix_of(rest));
                        assert(rest.skip(edge.label@.len() as int) =~= key@.skip(pos + shared));
                        assert(wf(target(node.children@[i as int]), false));
                    }
                    pos = pos + shared;
                    node = &*edge.child;
                },
            }
        }
    }
}


/// `Arc::unwrap_or_clone`: the pointee itself when this is the only reference to
/// it, and a clone of it otherwise. Which of the two happens depends on the other
/// handles alive at the time; `cloned` covers both (it counts a value as a clone of
/// itself), and nothing more is claimed.
#[verifier::external_body]
pub fn arc_unwrap_or_clone<T: Clone>(a: Arc<T>) -> (r: T)
    ensures
        cloned(*a, r),
{
    Arc::unwrap_or_clone(a)
}

/// `Arc::try_unwrap`: the pointee, moved out, when this is the only strong
/// reference to it, and otherwise the same `Arc` handed back. Which of the two
/// happens depends on the other handles alive at the time, so only what holds of
/// each outcome is claimed.
#[verifier::external_body]
pub fn arc_try_unwrap<T>(a: Arc<T>) -> (r: Result<T, Arc<T>>)
    ensures
        match r {
            Ok(t) => t == *a,
            Err(b) => b == a,
        },
{
    Arc::try_unwrap(a)
}

/// The components of a label, moved out of their `Arc` when it is not shared and
/// copied otherwise.
pub fn take_label<C: Component>(label: Arc<Vec<C>>) -> (r: Vec<C>)
    ensures
        r@ == label@,
{
    match arc_try_unwrap(label) {
        Ok(v) => v,
        Err(shared) => copy_label(shared.as_slice()),
    }
}

/// Returns an exact copy of a label.
pub fn copy_label<C: Component>(label: &[C]) -> (r: Vec<C>)
    ensures
        r@ == label@,
{
    let mut r: Vec<C> = Vec::with_capacity(label.len());
    let mut i: usize = 0;
    while i < label.len()
        invariant
            i <= label@.len(),
            r@ == label@.take(i as int),
        decreases label@.len() - i,
    {
        r.push(label[i].duplicate());
        i = i + 1;
        assert(r@ =~= label@.take(i as int));
    }
    assert(label@.take(label@.len() as int) =~= label@);
    r
}

impl<C: Component, V> Clone for Node<C, V> {
    /// A shallow copy: labels, children and the value are shared through their
    /// pointers.
    fn clone(&self) -> (r: Self)
        ensures
            same_node(r, *self),
    {
        let value = match &self.value {
            Some(a) => Some(a.clone()),
            None => None,
        };
        let mut children: Vec<Edge<C, V>> = Vec::with_capacity(self.children.len());
        let mut i: usize = 0;
        while i < self.children.len()
            invariant
                i <= self.children@.len(),
                children@ == self.children@.take(i as int),
            decreases self.children@.len() - i,
        {
            let e = &self.children[i];
            children.push(Edge { label: e.label.clone(), child: e.child.clone() });
            i = i + 1;
            assert(children@ =~= self.children@.take(i as int));
        }
        assert(self.children@.take(self.children@.len() as int) =~= self.children@);
        Node { value, children }
    }
}



/// The edge whose label starts with `c`, if any.
pub open spec fn edge_opt<C, V>(es: Seq<Edge<C, V>>, c: C) -> Option<Edge<C, V>> {
    let i = edge_for(es, c);
    if 0 <= i < es.len() {
        Some(es[i])
    } else {
        None
    }
}

/// Looking up `k` through the edge `e` (if any).
pub open spec fn lookup_via<C, V>(e: Option<Edge<C, V>>, k: Seq<C>) -> Option<V> {
    match e {
        None => None,
        Some(e) => if 0 < e.label@.len() && e.label@.is_prefix_of(k) {
            lookup(target(e), k.skip(e.label@.len() as int))
        } else {
            None
        },
    }
}

/// The value of `old` with `rest` mapped to `v`.
pub open spec fn updated<C, V>(old: Node<C, V>, rest: Seq<C>, v: V, k: Seq<C>) -> Option<V> {
    if k == rest {
        Some(v)
    } else {
        lookup(old, k)
    }
}

/// The value behind an optional shared pointer.
pub open spec fn arc_opt<V>(a: Option<Arc<V>>) -> Option<V> {
    match a {
        Some(v) => Some(*v),
        None => None,
    }
}

pub proof fn lemma_lookup_step<C, V>(n: Node<C, V>, k: Seq<C>)
    requires
        k.len() > 0,
    ensures
        lookup(n, k) == lookup_via(edge_opt(n.children@, k[0]), k),
{
}

pub proof fn lemma_edge_opt_is<C: Component, V>(es: Seq<Edge<C, V>>, c: C, j: int)
    requires
        edges_ordered(es),
        0 <= j < es.len(),
        first(es[j]) == c,
    ensures
        edge_opt(es, c) == Some(es[j]),
{
    lemma_edge_for_unique(es, c, j);
}

pub proof fn lemma_edge_opt_none<C: Component, V>(es: Seq<Edge<C, V>>, c: C)
    requires
        edges_ordered(es),
        forall|j: int| 0 <= j < es.len() ==> first(#[trigger] es[j]) != c,
    ensures
        edge_opt(es, c) is None,
{
    lemma_edge_for(es, c);
    if edge_for(es, c) >= 0 {
        assert(first(es[edge_for(es, c)]) == c);
    }
}

/// Ordered edges with the edge for `c` replaced by `e` (same first component), or with
/// `e` inserted: lookups of keys starting elsewhere are unaffected.
pub proof fn lemma_edge_opt_other<C: Component, V>(old: Seq<Edge<C, V>>, new: Seq<Edge<C, V>>, c: C)
    requires
        edges_ordered(old),
        edges_ordered(new),
        forall|j: int| 0 <= j < old.len() && first(#[trigger] old[j]) == c ==> new.contains(old[j]),
        forall|j: int| 0 <= j < new.len() && first(#[trigger] new[j]) == c ==> old.contains(new[j]),
    ensures
        edge_opt(new, c) == edge_opt(old, c),
{
    lemma_edge_for(old, c);
    lemma_edge_for(new, c);
    let i = edge_for(old, c);
    if i >= 0 {
        assert(new.contains(old[i]));
        let j = choose|j: int| 0 <= j < new.len() && new[j] == old[i];
        lemma_edge_opt_is(new, c, j);
    } else {
        if edge_for(new, c) >= 0 {
            let j = edge_for(new, c);
            assert(old.contains(new[j]));
            let t = choose|t: int| 0 <= t < old.len() && old[t] == new[j];
            assert(first(old[t]) == c);
        }
    }
}

/// Copies `key[from..]` into a fresh label.
pub fn copy_from<C: Component>(key: &[C], from: usize) -> (r: Vec<C>)
    requires
        from <= key@.len(),
    ensures
        r@ == key@.skip(from as int),
{
    let mut r: Vec<C> = Vec::with_capacity(key.len() - from);
    let mut i: usize = from;
    while i < key.len()
        invariant
            from <= i <= key@.len(),
            r@ == key@.subrange(from as int, i as int),
        decreases key@.len() - i,
    {
        r.push(key[i].duplicate());
        i = i + 1;
        assert(r@ =~= key@.subrange(from as int, i as int));
    }
    assert(key@.subrange(from as int, key@.len() as int) =~= key@.skip(from as int));
    r
}

/// Copies `label[..to]` into a fresh label.
pub fn copy_to<C: Component>(label: &[C], to: usize) -> (r: Vec<C>)
    requires
        to <= label@.len(),
    ensures
        r@ == label@.take(to as int),
{
    let mut r: Vec<C> = Vec::with_capacity(to);
    let mut i: usize = 0;
    while i < to
        invariant
            i <= to <= label@.len(),
            r@ == label@.take(i as int),
        decreases to - i,
    {
        r.push(label[i].duplicate());
        i = i + 1;
        assert(r@ =~= label@.take(i as int));
    }
    r
}

pub proof fn lemma_leaf<C: Component, V>(n: Node<C, V>, v: V, k: Seq<C>)
    requires
        n.value matches Some(a) && *a == v,
        n.children@.len() == 0,
    ensures
        wf(n, false),
        lookup(n, k) == (if k.len() == 0 { Some(v) } else { None }),
{
    if k.len() > 0 {
        lemma_edge_for(n.children@, k[0]);
    }
}


/// A new value at the node itself: only the empty key changes.
pub proof fn lemma_set_value<C: Component, V>(old: Node<C, V>, new: Node<C, V>, v: V, root: bool)
    requires
        wf(old, root),
        new.children@ == old.children@,
        new.value matches Some(a) && *a == v,
    ensures
        wf(new, root),
        forall|k: Seq<C>| #[trigger] lookup(new, k) == updated(old, Seq::empty(), v, k),
{
    assert forall|k: Seq<C>| #[trigger] lookup(new, k) == updated(old, Seq::empty(), v, k) by {
        if k.len() == 0 {
            assert(k =~= Seq::<C>::empty());
        } else {
            lemma_lookup_step(new, k);
            lemma_lookup_step(old, k);
        }
    }
}

/// A new leaf edge for a key whose first component no edge starts with.
pub proof fn lemma_add_leaf<C: Component, V>(
    old: Node<C, V>,
    new: Node<C, V>,
    at: int,
    e: Edge<C, V>,
    rest: Seq<C>,
    v: V,
    root: bool,
)
    requires
        wf(old, root),
        rest.len() > 0,
        0 <= at <= old.children@.len(),
        forall|j: int| 0 <= j < at ==> (#[trigger] first(old.children@[j])).comp_lt(rest[0]),
        forall|j: int| at <= j < old.children@.len() ==> rest[0].comp_lt(#[trigger] first(old.children@[j])),
        new.value == old.value,
        new.children@ == old.children@.insert(at, e),
        e.label@ == rest,
        target(e).value matches Some(a) && *a == v,
        target(e).children@.len() == 0,
    ensures
        wf(new, root),
        forall|k: Seq<C>| #[trigger] lookup(new, k) == updated(old, rest, v, k),
{
    let os = old.children@;
    let ns = new.children@;
    C::lemma_strict_total_order();
    assert(forall|j: int| 0 <= j < at ==> ns[j] == os[j]);
    assert(forall|j: int| at < j < ns.len() ==> ns[j] == os[j - 1]);
    assert(ns[at] == e);
    lemma_leaf(target(e), v, Seq::<C>::empty());
    assert(edges_ordered(ns)) by {
        assert forall|i: int, j: int| 0 <= i < j < ns.len() implies (#[trigger] first(ns[i])).comp_lt(
            #[trigger] first(ns[j]),
        ) by {
            if j < at {
            } else if j == at {
            } else if i < at {
                assert(first(os[i]).comp_lt(rest[0]));
            } else if i == at {
            } else {
                assert(first(os[i - 1]).comp_lt(first(os[j - 1])));
            }
        }
    }
    assert(forall|j: int| 0 <= j < ns.len() ==> wf(target(#[trigger] ns[j]), false)) by {
        assert forall|j: int| 0 <= j < ns.len() implies wf(target(#[trigger] ns[j]), false) by {
            if j < at {
                assert(wf(target(os[j]), false));
            } else if j > at {
                assert(wf(target(os[j - 1]), false));
            }
        }
    }
    assert forall|k: Seq<C>| #[trigger] lookup(new, k) == updated(old, rest, v, k) by {
        if k.len() == 0 {
        } else {
            lemma_lookup_step(new, k);
            lemma_lookup_step(old, k);
            if k[0] == rest[0] {
                lemma_edge_opt_is(ns, k[0], at);
                lemma_edge_opt_none(os, k[0]);
                lemma_leaf(target(e), v, k.skip(rest.len() as int));
                if rest.is_prefix_of(k) {
                    if k.skip(rest.len() as int).len() == 0 {
                        assert(k =~= rest);
                    }
                } else {
                    assert(k != rest);
                }
            } else {
                assert forall|j: int| 0 <= j < os.len() && first(#[trigger] os[j]) == k[0] implies ns.contains(os[j]) by {
                    if j < at {
                        assert(ns[j] == os[j]);
                    } else {
                        assert(ns[j + 1] == os[j]);
                    }
                }
                assert forall|j: int| 0 <= j < ns.len() && first(#[trigger] ns[j]) == k[0] implies os.contains(ns[j]) by {
                    if j < at {
                        assert(os[j] == ns[j]);
                    } else if j > at {
                        assert(os[j - 1] == ns[j]);
                    }
                }
                lemma_edge_opt_other(os, ns, k[0]);
                assert(k != rest);
            }
        }
    }
}


/// Replacing edge `i` by an edge with the same first component keeps the edges
/// ordered and changes only the lookups that go through that edge.
pub proof fn lemma_replace_edge_lookup<C: Component, V>(old: Node<C, V>, new: Node<C, V>, i: int, e: Edge<C, V>)
    requires
        edges_ordered(old.children@),
        0 <= i < old.children@.len(),
        new.value == old.value,
        new.children@ == old.children@.update(i, e),
        e.label@.len() > 0,
        first(e) == first(old.children@[i]),
    ensures
        edges_ordered(new.children@),
        forall|k: Seq<C>|
            k.len() > 0 && k[0] == first(e) ==> #[trigger] lookup(new, k) == lookup_via(Some(e), k)
                && lookup(old, k) == lookup_via(Some(old.children@[i]), k),
        forall|k: Seq<C>|
            (k.len() == 0 || k[0] != first(e)) ==> #[trigger] lookup(new, k) == lookup(old, k),
{
    let os = old.children@;
    let ns = new.children@;
    assert(forall|j: int| 0 <= j < ns.len() && j != i ==> ns[j] == os[j]);
    assert(edges_ordered(ns)) by {
        assert forall|a: int, b: int| 0 <= a < b < ns.len() implies (#[trigger] first(ns[a])).comp_lt(
            #[trigger] first(ns[b]),
        ) by {
            assert(first(os[a]).comp_lt(first(os[b])));
        }
    }
    assert forall|k: Seq<C>|
        k.len() > 0 && k[0] == first(e) implies #[trigger] lookup(new, k) == lookup_via(Some(e), k)
            && lookup(old, k) == lookup_via(Some(os[i]), k) by {
        lemma_lookup_step(new, k);
        lemma_lookup_step(old, k);
        lemma_edge_opt_is(ns, k[0], i);
        lemma_edge_opt_is(os, k[0], i);
    }
    assert forall|k: Seq<C>| (k.len() == 0 || k[0] != first(e)) implies #[trigger] lookup(new, k)
        == lookup(old, k) by {
        if k.len() > 0 {
            lemma_lookup_step(new, k);
            lemma_lookup_step(old, k);
            assert forall|j: int| 0 <= j < os.len() && first(#[trigger] os[j]) == k[0] implies ns.contains(os[j]) by {
                assert(ns[j] == os[j]);
            }
            assert forall|j: int| 0 <= j < ns.len() && first(#[trigger] ns[j]) == k[0] implies os.contains(ns[j]) by {
                assert(os[j] == ns[j]);
            }
            lemma_edge_opt_other(os, ns, k[0]);
        }
    }
}

/// Replacing edge `i` by an edge with the same first component and a well-formed
/// child.
pub proof fn lemma_replace_edge<C: Component, V>(
    old: Node<C, V>,
    new: Node<C, V>,
    i: int,
    e: Edge<C, V>,
    root: bool,
)
    requires
        wf(old, root),
        0 <= i < old.children@.len(),
        new.value == old.value,
        new.children@ == old.children@.update(i, e),
        e.label@.len() > 0,
        first(e) == first(old.children@[i]),
        wf(target(e), false),
    ensures
        wf(new, root),
        forall|k: Seq<C>|
            k.len() > 0 && k[0] == first(e) ==> #[trigger] lookup(new, k) == lookup_via(Some(e), k)
                && lookup(old, k) == lookup_via(Some(old.children@[i]), k),
        forall|k: Seq<C>|
            (k.len() == 0 || k[0] != first(e)) ==> #[trigger] lookup(new, k) == lookup(old, k),
{
    let os = old.children@;
    let ns = new.children@;
    lemma_replace_edge_lookup(old, new, i, e);
    assert(forall|j: int| 0 <= j < ns.len() ==> wf(target(#[trigger] ns[j]), false)) by {
        assert forall|j: int| 0 <= j < ns.len() implies wf(target(#[trigger] ns[j]), false) by {
            if j != i {
                assert(ns[j] == os[j]);
                assert(wf(target(os[j]), false));
            }
        }
    }
}

/// Descending through edge `i` and updating its child updates the node.
pub proof fn lemma_descend_update<C: Component, V>(
    old: Node<C, V>,
    new: Node<C, V>,
    i: int,
    e: Edge<C, V>,
    rest: Seq<C>,
    v: V,
    root: bool,
)
    requires
        wf(old, root),
        0 <= i < old.children@.len(),
        new.value == old.value,
        new.children@ == old.children@.update(i, e),
        e.label@ == old.children@[i].label@,
        wf(target(e), false),
        old.children@[i].label@.is_prefix_of(rest),
        forall|k: Seq<C>| #[trigger] lookup(target(e), k) == updated(
            target(old.children@[i]),
            rest.skip(e.label@.len() as int),
            v,
            k,
        ),
    ensures
        wf(new, root),
        forall|k: Seq<C>| #[trigger] lookup(new, k) == updated(old, rest, v, k),
{
    let oe = old.children@[i];
    let l = e.label@;
    lemma_replace_edge(old, new, i, e, root);
    assert forall|k: Seq<C>| #[trigger] lookup(new, k) == updated(old, rest, v, k) by {
        if k.len() > 0 && k[0] == first(e) {
            if l.is_prefix_of(k) {
                let k2 = k.skip(l.len() as int);
                assert(lookup(target(e), k2) == updated(target(oe), rest.skip(l.len() as int), v, k2));
                if k2 == rest.skip(l.len() as int) {
                    assert(k =~= l + k2);
                    assert(rest =~= l + rest.skip(l.len() as int));
                } else {
                    assert(k != rest);
                }
            } else {
                assert(k != rest);
            }
        } else {
            assert(k != rest);
        }
    }
}


/// The node created by splitting an edge: it continues into the old child through
/// `t`, and stores `v` under `r` (at itself when `r` is empty, else in a new leaf).
pub proof fn lemma_mid<C: Component, V>(m: Node<C, V>, t: Edge<C, V>, r: Seq<C>, v: V, j: int)
    requires
        t.label@.len() > 0,
        wf(target(t), false),
        r.len() == 0 ==> (m.value matches Some(a) && *a == v) && m.children@ == seq![t],
        r.len() > 0 ==> r[0] != first(t) && m.value is None && m.children@.len() == 2 && 0 <= j < 2
            && m.children@[j] == t && m.children@[1 - j].label@ == r && (target(
            m.children@[1 - j],
        ).value matches Some(a) && *a == v) && target(m.children@[1 - j]).children@.len() == 0 && (first(
            m.children@[0],
        )).comp_lt(first(m.children@[1])),
    ensures
        wf(m, false),
        forall|k: Seq<C>| #[trigger] lookup(m, k) == (if k == r { Some(v) } else { lookup_via(Some(t), k) }),
{
    let ms = m.children@;
    if r.len() == 0 {
        assert(edges_ordered(ms));
        assert(wf(m, false)) by {
            assert(forall|j: int| 0 <= j < ms.len() ==> wf(target(#[trigger] ms[j]), false)) by {
                assert forall|j: int| 0 <= j < ms.len() implies wf(target(#[trigger] ms[j]), false) by {
                    assert(ms[j] == t);
                }
            }
        }
        assert forall|k: Seq<C>| #[trigger] lookup(m, k) == (if k == r { Some(v) } else { lookup_via(Some(t), k) }) by {
            if k.len() == 0 {
                assert(k =~= r);
            } else {
                lemma_lookup_step(m, k);
                if k[0] == first(t) {
                    lemma_edge_opt_is(ms, k[0], 0);
                } else {
                    lemma_edge_opt_none(ms, k[0]);
                }
            }
        }
    } else {
        let lf = ms[1 - j];
        lemma_leaf(target(lf), v, Seq::<C>::empty());
        assert(edges_ordered(ms)) by {
            assert forall|a: int, b: int| 0 <= a < b < ms.len() implies (#[trigger] first(ms[a])).comp_lt(
                #[trigger] first(ms[b]),
            ) by {
                assert(a == 0 && b == 1);
            }
            assert forall|a: int| 0 <= a < ms.len() implies (#[trigger] ms[a]).label@.len() > 0 by {
                assert(a == j || a == 1 - j);
            }
        }
        assert(forall|a: int| 0 <= a < ms.len() ==> wf(target(#[trigger] ms[a]), false)) by {
            assert forall|a: int| 0 <= a < ms.len() implies wf(target(#[trigger] ms[a]), false) by {
                assert(a == j || a == 1 - j);
            }
        }
        assert forall|k: Seq<C>| #[trigger] lookup(m, k) == (if k == r { Some(v) } else { lookup_via(Some(t), k) }) by {
            if k.len() == 0 {
            } else {
                lemma_lookup_step(m, k);
                if k[0] == first(t) {
                    lemma_edge_opt_is(ms, k[0], j);
                    assert(k != r);
                } else if k[0] == r[0] {
                    lemma_edge_opt_is(ms, k[0], 1 - j);
                    lemma_leaf(target(lf), v, k.skip(r.len() as int));
                    if r.is_prefix_of(k) {
                        if k.skip(r.len() as int).len() == 0 {
                            assert(k =~= r);
                        }
                    } else {
                        assert(k != r);
                    }
                } else {
                    assert forall|a: int| 0 <= a < ms.len() implies first(#[trigger] ms[a]) != k[0] by {
                        assert(a == j || a == 1 - j);
                    }
                    lemma_edge_opt_none(ms, k[0]);
                    assert(k != r);
                }
            }
        }
    }
}

/// Splitting edge `i` at `s` components and storing `v` under `rest`.
pub proof fn lemma_split<C: Component, V>(
    old: Node<C, V>,
    new: Node<C, V>,
    i: int,
    e: Edge<C, V>,
    t: Edge<C, V>,
    rest: Seq<C>,
    s: int,
    v: V,
    root: bool,
)
    requires
        wf(old, root),
        0 <= i < old.children@.len(),
        1 <= s < old.children@[i].label@.len(),
        s <= rest.len(),
        old.children@[i].label@.take(s) == rest.take(s),
        s < rest.len() ==> old.children@[i].label@[s] != rest[s],
        new.value == old.value,
        new.children@ == old.children@.update(i, e),
        e.label@ == old.children@[i].label@.take(s),
        t.label@ == old.children@[i].label@.skip(s),
        t.child == old.children@[i].child,
        wf(target(e), false),
        forall|k: Seq<C>| #[trigger] lookup(target(e), k) == (if k == rest.skip(s) {
            Some(v)
        } else {
            lookup_via(Some(t), k)
        }),
    ensures
        wf(new, root),
        forall|k: Seq<C>| #[trigger] lookup(new, k) == updated(old, rest, v, k),
{
    let oe = old.children@[i];
    let l = oe.label@;
    let h = e.label@;
    assert(h.len() == s);
    assert(first(e) == first(oe)) by {
        assert(h[0] == l.take(s)[0]);
    }
    assert(wf(target(oe), false));
    lemma_replace_edge(old, new, i, e, root);
    assert forall|k: Seq<C>| #[trigger] lookup(new, k) == updated(old, rest, v, k) by {
        if k.len() > 0 && k[0] == first(e) {
            if h.is_prefix_of(k) {
                let k2 = k.skip(s);
                assert(k =~= h + k2);
                assert(rest =~= h + rest.skip(s)) by {
                    assert(rest.take(s) =~= h);
                }
                if k2 == rest.skip(s) {
                    assert(k == rest);
                } else {
                    assert(k != rest);
                    let tl = t.label@;
                    assert(l =~= h + tl);
                    if tl.is_prefix_of(k2) {
                        assert(l.is_prefix_of(k));
                        assert(k2.skip(tl.len() as int) =~= k.skip(l.len() as int));
                    } else {
                        assert(!l.is_prefix_of(k)) by {
                            if l.is_prefix_of(k) {
                                assert forall|x: int| 0 <= x < tl.len() implies tl[x] == k2[x] by {
                                    assert(l[s + x] == k[s + x]);
                                }
                            }
                        }
                    }
                }
            } else {
                assert(!l.is_prefix_of(k)) by {
                    if l.is_prefix_of(k) {
                        assert forall|x: int| 0 <= x < h.len() implies h[x] == k[x] by {
                            assert(l[x] == k[x]);
                        }
                    }
                }
                assert(k != rest) by {
                    if k == rest {
                        assert forall|x: int| 0 <= x < h.len() implies h[x] == k[x] by {
                            assert(rest.take(s)[x] == rest[x]);
                        }
                    }
                }
            }
        } else {
            assert(k != rest) by {
                if k == rest && k.len() > 0 {
                    assert(rest.take(s)[0] == rest[0]);
                    assert(h[0] == first(e));
                }
            }
            if k.len() == 0 {
                assert(rest.len() > 0);
            }
        }
    }
}


impl<C: Component, V> Node<C, V> {
    /// Stores `value` under `key[pos..]` in the subtree behind `node`, copying the
    /// nodes on the path when they are shared. Returns the new subtree and the
    /// value previously stored under that key.
    pub fn insert(node: Arc<Node<C, V>>, key: &[C], pos: usize, value: V, root: Ghost<bool>) -> (r: (
        Arc<Node<C, V>>,
        Option<Arc<V>>,
    ))
        requires
            wf(*node, root@),
            pos <= key@.len(),
        ensures
            wf(*r.0, root@),
            forall|k: Seq<C>| #[trigger] lookup(*r.0, k) == updated(*node, key@.skip(pos as int), value, k),
            arc_opt(r.1) == lookup(*node, key@.skip(pos as int)),
        decreases key@.len() - pos,
    {
        let ghost rest = key@.skip(pos as int);
        let ghost on: Node<C, V> = pointee(&node);
        let mut n: Node<C, V> = arc_unwrap_or_clone(node);
        assert(same_node(n, *node));
        if pos == key.len() {
            assert(rest =~= Seq::<C>::empty());
            let old = n.value.take();
            n.value = Some(Arc::new(value));
            proof {
                lemma_set_value(on, n, value, root@);
            }
            return (Arc::new(n), old);
        }
        match n.child_index(&key[pos]) {
            Err(at) => {
                let label = copy_from(key, pos);
                let leaf = Node { value: Some(Arc::new(value)), children: Vec::new() };
                let e = Edge { label: Arc::new(label), child: Arc::new(leaf) };
                n.children.insert(at, e);
                proof {
                    lemma_add_leaf(on, n, at as int, e, rest, value, root@);
                    lemma_lookup_step(on, rest);
                }
                (Arc::new(n), None)
            },
            Ok(i) => {
                let shared = match_prefix(&n.children[i].label, key, pos);
                let llen = n.children[i].label.len();
                let ghost oe = node.children@[i as int];
                let ghost l = oe.label@;
                proof {
                    assert(wf(target(oe), false));
                    lemma_lookup_step(on, rest);
                    lemma_edge_opt_is(node.children@, rest[0], i as int);
                }
                if shared == llen {
                    let edge = n.children.remove(i);
                    proof {
                        assert(l.is_prefix_of(rest));
                        assert(rest.skip(l.len() as int) =~= key@.skip(pos + shared));
                    }
                    let (child2, old) = Node::insert(edge.child, key, pos + shared, value, Ghost(false));
                    let e2 = Edge { label: edge.label, child: child2 };
                    n.children.insert(i, e2);
                    proof {
                        assert(n.children@ =~= node.children@.update(i as int, e2));
                        lemma_descend_update(on, n, i as int, e2, rest, value, root@);
                    }
                    (Arc::new(n), old)
                } else {
                    let edge = n.children.remove(i);
                    proof {
                        assert(shared >= 1) by {
                            assert(l[0] == key@[pos as int]);
                        }
                        assert(l.take(shared as int) =~= rest.take(shared as int));
                        assert(!l.is_prefix_of(rest)) by {
                            if l.is_prefix_of(rest) {
                                assert(l[shared as int] == rest[shared as int]);
                            }
                        }
                    }
                    let head = copy_to(edge.label.as_slice(), shared);
                    let tail = copy_from(edge.label.as_slice(), shared);
                    let t = Edge { label: Arc::new(tail), child: edge.child };
                    assert(wf(target(t), false));
                    let ghost r2 = rest.skip(shared as int);
                    let mid = if pos + shared == key.len() {
                        let m = Node { value: Some(Arc::new(value)), children: vec![t] };
                        proof {
                            assert(m.children@ =~= seq![t]);
                            lemma_mid(m, t, r2, value, 0);
                        }
                        m
                    } else {
                        let rl = copy_from(key, pos + shared);
                        let leaf = Node { value: Some(Arc::new(value)), children: Vec::new() };
                        let le = Edge { label: Arc::new(rl), child: Arc::new(leaf) };
                        proof {
                            assert(r2 =~= key@.skip(pos + shared));
                            assert(r2[0] == key@[pos + shared]);
                        }
                        match key[pos + shared].compare(&edge.label[shared]) {
                            Order::Less => {
                                let m = Node { value: None, children: vec![le, t] };
                                proof {
                                    lemma_mid(m, t, r2, value, 1);
                                }
                                m
                            },
                            _ => {
                                let m = Node { value: None, children: vec![t, le] };
                                proof {
                                    C::lemma_strict_total_order();
                                    lemma_mid(m, t, r2, value, 0);
                                }
                                m
                            },
                        }
                    };
                    let e2 = Edge { label: Arc::new(head), child: Arc::new(mid) };
                    n.children.insert(i, e2);
                    proof {
                        assert(n.children@ =~= node.children@.update(i as int, e2));
                        lemma_split(on, n, i as int, e2, t, rest, shared as int, value, root@);
                    }
                    (Arc::new(n), None)
                }
            },
        }
    }
}


/// Well-formed except that child `i` need only be well-formed as a root would be.
pub open spec fn wf_except<C: Component, V>(n: Node<C, V>, i: int, root: bool) -> bool {
    &&& edges_ordered(n.children@)
    &&& (!root ==> (n.value is Some || n.children@.len() >= 2))
    &&& 0 <= i < n.children@.len()
    &&& wf(target(n.children@[i]), true)
    &&& forall|j: int| 0 <= j < n.children@.len() && j != i ==> wf(target(#[trigger] n.children@[j]), false)
}

/// A node without a value or children stores nothing.
pub proof fn lemma_empty_node<C: Component, V>(n: Node<C, V>, k: Seq<C>)
    requires
        n.value is None,
        n.children@.len() == 0,
    ensures
        lookup(n, k) is None,
{
    if k.len() > 0 {
        lemma_edge_for(n.children@, k[0]);
    }
}

/// Dropping an edge to an empty child changes no lookup.
pub proof fn lemma_prune<C: Component, V>(old: Node<C, V>, new: Node<C, V>, i: int, root: bool)
    requires
        wf_except(old, i, root),
        target(old.children@[i]).value is None,
        target(old.children@[i]).children@.len() == 0,
        new.value == old.value,
        new.children@ == old.children@.remove(i),
    ensures
        wf(new, true),
        forall|k: Seq<C>| #[trigger] lookup(new, k) == lookup(old, k),
{
    let os = old.children@;
    let ns = new.children@;
    assert(forall|j: int| 0 <= j < i ==> ns[j] == os[j]);
    assert(forall|j: int| i <= j < ns.len() ==> ns[j] == os[j + 1]);
    assert(edges_ordered(ns)) by {
        assert forall|a: int, b: int| 0 <= a < b < ns.len() implies (#[trigger] first(ns[a])).comp_lt(
            #[trigger] first(ns[b]),
        ) by {
            if b < i {
            } else if a < i {
                assert(first(os[a]).comp_lt(first(os[b + 1])));
            } else {
                assert(first(os[a + 1]).comp_lt(first(os[b + 1])));
            }
        }
        assert forall|a: int| 0 <= a < ns.len() implies (#[trigger] ns[a]).label@.len() > 0 by {
            if a < i {
                assert(ns[a] == os[a]);
            } else {
                assert(ns[a] == os[a + 1]);
            }
        }
    }
    assert forall|j: int| 0 <= j < ns.len() implies wf(target(#[trigger] ns[j]), false) by {
        if j < i {
            assert(ns[j] == os[j]);
        } else {
            assert(ns[j] == os[j + 1]);
        }
    }
    assert forall|k: Seq<C>| #[trigger] lookup(new, k) == lookup(old, k) by {
        if k.len() > 0 {
            lemma_lookup_step(new, k);
            lemma_lookup_step(old, k);
            if k[0] == first(os[i]) {
                lemma_edge_opt_is(os, k[0], i);
                C::lemma_strict_total_order();
                assert forall|j: int| 0 <= j < ns.len() implies first(#[trigger] ns[j]) != k[0] by {
                    if j < i {
                        assert(ns[j] == os[j]);
                        assert(first(os[j]).comp_lt(first(os[i])));
                    } else {
                        assert(ns[j] == os[j + 1]);
                        assert(first(os[i]).comp_lt(first(os[j + 1])));
                    }
                }
                lemma_edge_opt_none(ns, k[0]);
                lemma_empty_node(target(os[i]), k.skip(os[i].label@.len() as int));
            } else {
                assert forall|j: int| 0 <= j < os.len() && first(#[trigger] os[j]) == k[0] implies ns.contains(os[j]) by {
                    if j < i {
                        assert(ns[j] == os[j]);
                    } else {
                        assert(ns[j - 1] == os[j]);
                    }
                }
                assert forall|j: int| 0 <= j < ns.len() && first(#[trigger] ns[j]) == k[0] implies os.contains(ns[j]) by {
                    if j < i {
                        assert(os[j] == ns[j]);
                    } else {
                        assert(os[j + 1] == ns[j]);
                    }
                }
                lemma_edge_opt_other(os, ns, k[0]);
            }
        }
    }
}

/// Collapsing a valueless child with a single edge into its parent's edge changes no
/// lookup.
pub proof fn lemma_merge<C: Component, V>(old: Node<C, V>, new: Node<C, V>, i: int, e: Edge<C, V>, root: bool)
    requires
        wf_except(old, i, root),
        target(old.children@[i]).value is None,
        target(old.children@[i]).children@.len() == 1,
        e.label@ == old.children@[i].label@ + target(old.children@[i]).children@[0].label@,
        e.child == target(old.children@[i]).children@[0].child,
        new.value == old.value,
        new.children@ == old.children@.update(i, e),
    ensures
        wf(new, root),
        forall|k: Seq<C>| #[trigger] lookup(new, k) == lookup(old, k),
{
    let os = old.children@;
    let oe = os[i];
    let c = target(oe);
    let g = c.children@[0];
    let l = oe.label@;
    let gl = g.label@;
    assert(gl.len() > 0);
    assert(wf(target(g), false));
    assert(first(e) == first(oe)) by {
        assert(e.label@[0] == l[0]);
    }
    let ns = new.children@;
    lemma_replace_edge_lookup(old, new, i, e);
    assert forall|j: int| 0 <= j < ns.len() implies wf(target(#[trigger] ns[j]), false) by {
        if j != i {
            assert(ns[j] == os[j]);
        }
    }
    assert forall|k: Seq<C>| #[trigger] lookup(new, k) == lookup(old, k) by {
        if k.len() > 0 && k[0] == first(e) {
            let el = e.label@;
            if el.is_prefix_of(k) {
                assert(l.is_prefix_of(k)) by {
                    assert forall|x: int| 0 <= x < l.len() implies l[x] == k[x] by {
                        assert(el[x] == l[x]);
                    }
                }
                let k1 = k.skip(l.len() as int);
                assert(k1.len() > 0);
                lemma_lookup_step(c, k1);
                assert(k1[0] == first(g)) by {
                    assert(el[l.len() as int] == gl[0]);
                }
                lemma_edge_opt_is(c.children@, k1[0], 0);
                assert(gl.is_prefix_of(k1)) by {
                    assert forall|x: int| 0 <= x < gl.len() implies gl[x] == k1[x] by {
                        assert(el[l.len() + x] == gl[x]);
                    }
                }
                assert(k1.skip(gl.len() as int) =~= k.skip(el.len() as int));
            } else if l.is_prefix_of(k) {
                let k1 = k.skip(l.len() as int);
                if k1.len() > 0 {
                    lemma_lookup_step(c, k1);
                    if k1[0] == first(g) {
                        lemma_edge_opt_is(c.children@, k1[0], 0);
                        assert(!gl.is_prefix_of(k1)) by {
                            if gl.is_prefix_of(k1) {
                                assert(el =~= l + gl);
                                assert forall|x: int| 0 <= x < el.len() implies el[x] == k[x] by {
                                    if x >= l.len() {
                                        assert(gl[x - l.len()] == k1[x - l.len()]);
                                    }
                                }
                            }
                        }
                    } else {
                        assert forall|j: int| 0 <= j < c.children@.len() implies first(#[trigger] c.children@[j]) != k1[0] by {
                            assert(j == 0);
                        }
                        lemma_edge_opt_none(c.children@, k1[0]);
                    }
                }
            }
        }
    }
}


/// The value of `old` with `rest` unmapped.
pub open spec fn removed<C, V>(old: Node<C, V>, rest: Seq<C>, k: Seq<C>) -> Option<V> {
    if k == rest {
        None
    } else {
        lookup(old, k)
    }
}

/// Descending through edge `i` and removing below its child.
pub proof fn lemma_descend_remove<C: Component, V>(
    old: Node<C, V>,
    new: Node<C, V>,
    i: int,
    e: Edge<C, V>,
    rest: Seq<C>,
    root: bool,
)
    requires
        wf(old, root),
        0 <= i < old.children@.len(),
        new.value == old.value,
        new.children@ == old.children@.update(i, e),
        e.label@ == old.children@[i].label@,
        wf(target(e), true),
        old.children@[i].label@.is_prefix_of(rest),
        forall|k: Seq<C>| #[trigger] lookup(target(e), k) == removed(
            target(old.children@[i]),
            rest.skip(e.label@.len() as int),
            k,
        ),
    ensures
        wf_except(new, i, root),
        forall|k: Seq<C>| #[trigger] lookup(new, k) == removed(old, rest, k),
{
    let oe = old.children@[i];
    let l = e.label@;
    let os = old.children@;
    let ns = new.children@;
    lemma_replace_edge_lookup(old, new, i, e);
    assert forall|j: int| 0 <= j < ns.len() && j != i implies wf(target(#[trigger] ns[j]), false) by {
        assert(ns[j] == os[j]);
    }
    assert forall|k: Seq<C>| #[trigger] lookup(new, k) == removed(old, rest, k) by {
        if k.len() > 0 && k[0] == first(e) {
            if l.is_prefix_of(k) {
                let k2 = k.skip(l.len() as int);
                if k2 == rest.skip(l.len() as int) {
                    assert(k =~= l + k2);
                    assert(rest =~= l + rest.skip(l.len() as int));
                } else {
                    assert(k != rest);
                }
            } else {
                assert(k != rest);
            }
        } else {
            assert(k != rest);
        }
    }
}

impl<C: Component, V> Node<C, V> {
    /// Restores path compression at edge `i` after its subtree shrank: an emptied
    /// child is dropped, and a valueless child with a single edge is merged into
    /// this edge.
    pub fn normalize_child(&mut self, i: usize, root: Ghost<bool>)
        requires
            wf_except(*old(self), i as int, root@),
        ensures
            wf(*final(self), true),
            forall|k: Seq<C>| #[trigger] lookup(*final(self), k) == lookup(*old(self), k),
            entries(*final(self)) == entries(*old(self)),
    {
        let ghost old_n = *self;
        let child: &Node<C, V> = &*self.children[i].child;
        if child.value.is_some() {
            assert(wf(target(old_n.children@[i as int]), false));
            return;
        }
        let count = child.children.len();
        if count == 0 {
            self.children.remove(i);
            proof {
                lemma_prune(old_n, *self, i as int, root@);
                let os = old_n.children@;
                let c = target(os[i as int]);
                assert(edges_entries(c.children@) == Seq::<(Seq<C>, V)>::empty());
                assert(entries(c) =~= Seq::<(Seq<C>, V)>::empty());
                lemma_edges_entries_split(os, i as int);
                lemma_edges_entries_remove(os, i as int);
                assert(shift(os[i as int].label@, entries(c)) =~= Seq::<(Seq<C>, V)>::empty());
                assert(edges_entries(self.children@) =~= edges_entries(os));
            }
        } else if count == 1 {
            let old_edge = self.children.remove(i);
            let ghost oc = pointee(&old_edge.child);
            let (tail_label, gc) = match arc_try_unwrap(old_edge.child) {
                Ok(mut c) => {
                    let g = c.children.pop().unwrap();
                    assert(g == oc.children@[0]);
                    (g.label, g.child)
                },
                Err(c) => {
                    let g = &c.children[0];
                    (g.label.clone(), g.child.clone())
                },
            };
            let mut merged = take_label(old_edge.label);
            let mut tail = take_label(tail_label);
            merged.append(&mut tail);
            let e = Edge { label: Arc::new(merged), child: gc };
            self.children.insert(i, e);
            proof {
                assert(self.children@ =~= old_n.children@.update(i as int, e));
                lemma_merge(old_n, *self, i as int, e, root@);
                let os = old_n.children@;
                let oe = os[i as int];
                let c = target(oe);
                let gg = c.children@[0];
                assert(c.children@.drop_last() =~= Seq::<Edge<C, V>>::empty());
                assert(edges_entries(Seq::<Edge<C, V>>::empty()) == Seq::<(Seq<C>, V)>::empty());
                assert(entries(c) =~= shift(gg.label@, entries(target(gg))));
                lemma_shift_shift(oe.label@, gg.label@, entries(target(gg)));
                lemma_edges_entries_update(os, i as int, e);
            }
        } else {
            assert(wf(target(old_n.children@[i as int]), false));
        }
    }
}


impl<C: Component, V> Node<C, V> {
    /// Removes the value stored under exactly `key` from the trie rooted at `node`,
    /// copying shared nodes on the path and re-compressing. Returns the new root and
    /// the removed value; an absent key gives back `node` itself, with nothing
    /// copied, and no value.
    pub fn remove(node: Arc<Node<C, V>>, key: &[C]) -> (r: (Arc<Node<C, V>>, Option<Arc<V>>))
        requires
            wf(*node, true),
        ensures
            wf(*r.0, true),
            forall|k: Seq<C>| #[trigger] lookup(*r.0, k) == removed(*node, key@, k),
            arc_opt(r.1) == lookup(*node, key@),
            r.1 is None ==> r.0 == node,
    {
        if node.get(key).is_none() {
            proof {
                assert forall|k: Seq<C>| #[trigger] lookup(*node, k) == removed(*node, key@, k) by {}
            }
            return (node, None);
        }
        assert(key@.skip(0) =~= key@);
        let (new_root, v) = Node::remove_present(node, key, 0, Ghost(true));
        (new_root, Some(v))
    }

    /// Removes the value stored under `key[pos..]` (which must be present) from the
    /// subtree behind `node`, copying shared nodes on the path and re-compressing.
    /// Returns the new subtree and the removed value.
    pub fn remove_present(node: Arc<Node<C, V>>, key: &[C], pos: usize, root: Ghost<bool>) -> (r: (
        Arc<Node<C, V>>,
        Arc<V>,
    ))
        requires
            wf(*node, root@),
            pos <= key@.len(),
            lookup(*node, key@.skip(pos as int)) is Some,
        ensures
            wf(*r.0, true),
            forall|k: Seq<C>| #[trigger] lookup(*r.0, k) == removed(*node, key@.skip(pos as int), k),
            lookup(*node, key@.skip(pos as int)) == Some(*r.1),
        decreases key@.len() - pos,
    {
        let ghost rest = key@.skip(pos as int);
        let ghost on: Node<C, V> = pointee(&node);
        let mut n: Node<C, V> = arc_unwrap_or_clone(node);
        assert(same_node(n, on));
        if pos == key.len() {
            assert(rest =~= Seq::<C>::empty());
            let old = n.value.take();
            let v = old.unwrap();
            proof {
                assert forall|k: Seq<C>| #[trigger] lookup(n, k) == removed(on, rest, k) by {
                    if k.len() == 0 {
                        assert(k =~= rest);
                    } else {
                        lemma_lookup_step(n, k);
                        lemma_lookup_step(on, k);
                    }
                }
            }
            return (Arc::new(n), v);
        }
        proof {
            lemma_lookup_step(on, rest);
        }
        let found = n.child_index(&key[pos]);
        let i = found.unwrap();
        {
            {
                let shared = match_prefix(&n.children[i].label, key, pos);
                let llen = n.children[i].label.len();
                let ghost oe = on.children@[i as int];
                let ghost l = oe.label@;
                proof {
                    assert(wf(target(oe), false));
                    lemma_edge_opt_is(on.children@, rest[0], i as int);
                    assert(l.is_prefix_of(rest));
                    if shared < llen {
                        assert(l[shared as int] == rest[shared as int]);
                    }
                    assert(rest.skip(l.len() as int) =~= key@.skip(pos + shared));
                }
                let edge = n.children.remove(i);
                let (child2, v) = Node::remove_present(edge.child, key, pos + shared, Ghost(false));
                let e2 = Edge { label: edge.label, child: child2 };
                n.children.insert(i, e2);
                proof {
                    assert(n.children@ =~= on.children@.update(i as int, e2));
                    lemma_descend_remove(on, n, i as int, e2, rest, root@);
                }
                n.normalize_child(i, root);
                (Arc::new(n), v)
            }
        }
    }
}


/// The keys of a sequence of entries.
pub open spec fn keys_of<C, V>(s: Seq<(Seq<C>, V)>) -> Seq<Seq<C>> {
    s.map_values(|e: (Seq<C>, V)| e.0)
}

/// A sorted run has no repeated key.
pub proof fn lemma_sorted_unique<C: Component, V>(s: Seq<(Seq<C>, V)>)
    requires
        sorted(s),
    ensures
        keys_of(s).no_duplicates(),
{
    assert forall|i: int, j: int| 0 <= i < keys_of(s).len() && 0 <= j < keys_of(s).len() && i != j implies keys_of(s)[i]
        != keys_of(s)[j] by {
        if i < j {
            assert(key_lt(s[i].0, s[j].0));
            lemma_key_lt_irreflexive(s[i].0);
        } else {
            assert(key_lt(s[j].0, s[i].0));
            lemma_key_lt_irreflexive(s[i].0);
        }
    }
}

/// The map of a well-formed subtree is finite and has one key per entry.
pub proof fn lemma_map_len<C: Component, V>(n: Node<C, V>, root: bool)
    requires
        wf(n, root),
    ensures
        node_map(n).dom().finite(),
        node_map(n).dom().len() == entries(n).len(),
        node_map(n).dom() == keys_of(entries(n)).to_set(),
{
    let es = entries(n);
    let ks = keys_of(es);
    lemma_entries_sorted(n, root);
    lemma_sorted_unique(es);
    assert forall|k: Seq<C>| node_map(n).dom().contains(k) <==> ks.to_set().contains(k) by {
        if node_map(n).dom().contains(k) {
            let v = lookup(n, k)->0;
            lemma_lookup_entries(n, root, k, v);
            let m = choose|m: int| 0 <= m < es.len() && es[m] == (k, v);
            assert(ks[m] == k);
        }
        if ks.to_set().contains(k) {
            let m = choose|m: int| 0 <= m < ks.len() && ks[m] == k;
            lemma_lookup_entries(n, root, k, es[m].1);
            assert(es.contains((k, es[m].1))) by {
                assert(es[m] == (k, es[m].1));
            }
        }
    }
    assert(node_map(n).dom() =~= ks.to_set());
    ks.unique_seq_to_set();
    vstd::seq_lib::seq_to_set_is_finite(ks);
}


/// The entries behind a concatenation of edge lists are the concatenation of their
/// entries.
pub proof fn lemma_edges_entries_append<C, V>(a: Seq<Edge<C, V>>, b: Seq<Edge<C, V>>)
    ensures
        edges_entries(a + b) == edges_entries(a) + edges_entries(b),
    decreases b.len(),
{
    if b.len() == 0 {
        assert(a + b =~= a);
        assert(edges_entries(a) + edges_entries(b) =~= edges_entries(a));
    } else {
        assert((a + b).drop_last() =~= a + b.drop_last());
        assert((a + b).last() == b.last());
        lemma_edges_entries_append(a, b.drop_last());
        assert(edges_entries(a + b) =~= edges_entries(a) + edges_entries(b));
    }
}

impl<C: Component, V> Node<C, V> {
    /// Counts the values stored in this subtree.
    pub fn count(&self) -> (r: usize)
        requires
            entries(*self).len() <= usize::MAX,
        ensures
            r == entries(*self).len(),
        decreases *self,
    {
        let mut total: usize = if self.value.is_some() { 1 } else { 0 };
        let ghost es = self.children@;
        let mut i: usize = 0;
        assert(es.take(0) =~= Seq::<Edge<C, V>>::empty());
        while i < self.children.len()
            invariant
                es == self.children@,
                i <= es.len(),
                entries(*self).len() <= usize::MAX,
                total == own_entries(*self).len() + edges_entries(es.take(i as int)).len(),
            decreases es.len() - i,
        {
            proof {
                assert(es.take(i + 1).drop_last() =~= es.take(i as int));
                assert(es =~= es.take(i + 1) + es.skip(i + 1));
                lemma_edges_entries_append(es.take(i + 1), es.skip(i + 1));
            }
            let c = self.children[i].child.count();
            total = total + c;
            i = i + 1;
        }
        assert(es.take(es.len() as int) =~= es);
        total
    }
}


/// The stored prefixes of `k` shorter than `j` components, shortest first, with
/// their values.
pub open spec fn prefix_entries<C, V>(m: Map<Seq<C>, V>, k: Seq<C>, j: nat) -> Seq<(Seq<C>, V)>
    decreases j,
{
    if j == 0 {
        Seq::empty()
    } else {
        let p = k.take(j - 1);
        prefix_entries(m, k, (j - 1) as nat) + (if m.contains_key(p) {
            seq![(p, m[p])]
        } else {
            Seq::empty()
        })
    }
}

/// The values of a sequence of entries.
pub open spec fn values_of<C, V>(s: Seq<(Seq<C>, V)>) -> Seq<V> {
    s.map_values(|e: (Seq<C>, V)| e.1)
}

/// A key that ends strictly inside an edge label stores nothing.
pub proof fn lemma_mid_edge_none<C: Component, V>(n: Node<C, V>, i: int, q: Seq<C>)
    requires
        edges_ordered(n.children@),
        0 <= i < n.children@.len(),
        0 < q.len() < n.children@[i].label@.len(),
        q == n.children@[i].label@.take(q.len() as int),
    ensures
        lookup(n, q) is None,
{
    lemma_lookup_step(n, q);
    lemma_edge_opt_is(n.children@, q[0], i);
}

/// A key whose first component starts no edge, or that leaves an edge label before
/// its end, stores nothing.
pub proof fn lemma_diverged_none<C: Component, V>(n: Node<C, V>, q: Seq<C>)
    requires
        edges_ordered(n.children@),
        q.len() > 0,
        edge_opt(n.children@, q[0]) matches Some(e) ==> !(e.label@.is_prefix_of(q) || q.is_prefix_of(e.label@)),
    ensures
        lookup(n, q) is None,
{
    lemma_lookup_step(n, q);
}


/// `n` is the node reached from `root` by the first `d` components of `key`.
pub open spec fn reached<C, V>(root: Node<C, V>, n: Node<C, V>, key: Seq<C>, d: int) -> bool {
    forall|x: Seq<C>| #[trigger] lookup(n, x) == lookup(root, key.take(d) + x)
}

/// The last value of a sequence of entries, if any.
pub open spec fn last_value<C, V>(s: Seq<(Seq<C>, V)>) -> Option<V> {
    if s.len() == 0 {
        None
    } else {
        Some(s.last().1)
    }
}

/// The keys and values behind a sequence of owned keys and value references.
pub open spec fn entry_views<C, V>(s: Seq<(Vec<C>, &V)>) -> Seq<(Seq<C>, V)> {
    s.map_values(|e: (Vec<C>, &V)| (e.0@, *e.1))
}

/// The values behind a sequence of references.
pub open spec fn derefs<V>(s: Seq<&V>) -> Seq<V> {
    s.map_values(|r: &V| *r)
}

/// Looking up through an edge's full label continues in its child.
pub proof fn lemma_lookup_through<C: Component, V>(n: Node<C, V>, i: int, x: Seq<C>)
    requires
        edges_ordered(n.children@),
        0 <= i < n.children@.len(),
    ensures
        lookup(n, n.children@[i].label@ + x) == lookup(target(n.children@[i]), x),
{
    let l = n.children@[i].label@;
    let q = l + x;
    assert(q[0] == l[0]);
    lemma_lookup_step(n, q);
    lemma_edge_opt_is(n.children@, q[0], i);
    assert(l.is_prefix_of(q));
    assert(q.skip(l.len() as int) =~= x);
}

/// Stepping through edge `i` whose label the key continues with.
pub proof fn lemma_reached_step<C: Component, V>(root: Node<C, V>, n: Node<C, V>, key: Seq<C>, d: int, i: int)
    requires
        reached(root, n, key, d),
        edges_ordered(n.children@),
        0 <= i < n.children@.len(),
        0 <= d,
        d + n.children@[i].label@.len() <= key.len(),
        n.children@[i].label@ == key.subrange(d, d + n.children@[i].label@.len()),
    ensures
        reached(root, target(n.children@[i]), key, d + n.children@[i].label@.len()),
{
    let l = n.children@[i].label@;
    assert forall|x: Seq<C>| #[trigger] lookup(target(n.children@[i]), x) == lookup(root, key.take(d + l.len()) + x) by {
        lemma_lookup_through(n, i, x);
        assert(key.take(d) + (l + x) =~= key.take(d + l.len()) + x);
    }
}

/// No stored prefix in a range of lengths leaves the prefix entries unchanged.
pub proof fn lemma_prefix_entries_skip<C, V>(m: Map<Seq<C>, V>, k: Seq<C>, a: nat, b: nat)
    requires
        a <= b,
        forall|j: int| a <= j < b ==> !m.contains_key(#[trigger] k.take(j)),
    ensures
        prefix_entries(m, k, b) == prefix_entries(m, k, a),
    decreases b,
{
    if b > a {
        assert(!m.contains_key(k.take(b - 1)));
        lemma_prefix_entries_skip(m, k, a, (b - 1) as nat);
        assert(prefix_entries(m, k, b) =~= prefix_entries(m, k, (b - 1) as nat));
    }
}

/// From a node reached at depth `d`, no stored key lies strictly inside the walk's
/// next step: the lengths in `(d, stop)` hold no entry, where the walk either
/// continues through an edge of length `stop - d` or ends (`stop = |key| + 1`).
pub proof fn lemma_walk_gap<C: Component, V>(root: Node<C, V>, n: Node<C, V>, key: Seq<C>, d: int, stop: int)
    requires
        reached(root, n, key, d),
        edges_ordered(n.children@),
        0 <= d < key.len(),
        d < stop <= key.len() + 1,
        forall|j: int| d < j < stop ==> #[trigger] lookup(n, key.subrange(d, j)) is None,
    ensures
        forall|j: int| d + 1 <= j < stop ==> !node_map(root).contains_key(#[trigger] key.take(j)),
{
    assert forall|j: int| d + 1 <= j < stop implies !node_map(root).contains_key(#[trigger] key.take(j)) by {
        assert(key.take(d) + key.subrange(d, j) =~= key.take(j));
        assert(lookup(n, key.subrange(d, j)) is None);
    }
}

impl<C: Component, V> Node<C, V> {
    /// The values of the stored keys that are prefixes of `key` (inclusive of an
    /// exact match), shortest first.
    pub fn ancestors<'a>(&'a self, key: &[C]) -> (r: Vec<&'a V>)
        requires
            wf(*self, true),
        ensures
            derefs(r@) == values_of(prefix_entries(node_map(*self), key@, (key@.len() + 1) as nat)),
            derefs(r@) == values_of(entries(*self).filter(prefix_of::<C, V>(key@))),
    {
        let ghost m = node_map(*self);
        let mut found: Vec<&V> = Vec::new();
        let mut node = self;
        let mut d: usize = 0;
        proof {
            assert forall|x: Seq<C>| #[trigger] lookup(*self, x) == lookup(*self, key@.take(0) + x) by {
                assert(key@.take(0) + x =~= x);
            }
            lemma_entries_model(*self, true);
            lemma_prefix_entries_filter(m, entries(*self), key@);
        }
        loop
            invariant
                wf(*node, true),
                d <= key@.len(),
                reached(*self, *node, key@, d as int),
                m == node_map(*self),
                prefix_entries(m, key@, (key@.len() + 1) as nat) == entries(*self).filter(prefix_of::<C, V>(key@)),
                derefs(found@) == values_of(prefix_entries(m, key@, d as nat)),
            decreases key@.len() - d,
        {
            let ghost before = found@;
            proof {
                assert(key@.take(d as int) + Seq::<C>::empty() =~= key@.take(d as int));
                assert(lookup(*node, Seq::<C>::empty()) == lookup(*self, key@.take(d as int)));
            }
            let ghost p = key@.take(d as int);
            let ghost pe = prefix_entries(m, key@, d as nat);
            proof {
                assert(m.contains_key(p) == (node.value is Some));
                assert(prefix_entries(m, key@, (d + 1) as nat) == pe + (if m.contains_key(p) {
                    seq![(p, m[p])]
                } else {
                    Seq::empty()
                }));
            }
            if let Some(v) = &node.value {
                found.push(&**v);
                proof {
                    assert(m[p] == **v);
                    assert(derefs(found@) =~= derefs(before).push(**v));
                    assert(values_of(pe + seq![(p, m[p])]) =~= values_of(pe).push(m[p]));
                }
            } else {
                proof {
                    assert(pe + Seq::<(Seq<C>, V)>::empty() =~= pe);
                }
            }
            if d == key.len() {
                return found;
            }
            match node.child_index(&key[d]) {
                Err(_) => {
                    proof {
                        assert forall|j: int| d < j < key@.len() + 1 implies #[trigger] lookup(*node, key@.subrange(d as int, j)) is None by {
                            lemma_diverged_none(*node, key@.subrange(d as int, j));
                        }
                        lemma_walk_gap(*self, *node, key@, d as int, (key@.len() + 1) as int);
                        lemma_prefix_entries_skip(m, key@, (d + 1) as nat, (key@.len() + 1) as nat);
                    }
                    return found;
                },
                Ok(i) => {
                    let edge = &node.children[i];
                    let shared = match_prefix(&edge.label, key, d);
                    let ghost l = edge.label@;
                    if shared < edge.label.len() {
                        proof {
                            assert forall|j: int| d < j < key@.len() + 1 implies #[trigger] lookup(*node, key@.subrange(d as int, j)) is None by {
                                let q = key@.subrange(d as int, j);
                                if j - d <= shared {
                                    assert(q =~= l.take(q.len() as int));
                                    lemma_mid_edge_none(*node, i as int, q);
                                } else {
                                    lemma_edge_opt_is(node.children@, q[0], i as int);
                                    assert(q[shared as int] != l[shared as int]);
                                    lemma_diverged_none(*node, q);
                                }
                            }
                            lemma_walk_gap(*self, *node, key@, d as int, (key@.len() + 1) as int);
                            lemma_prefix_entries_skip(m, key@, (d + 1) as nat, (key@.len() + 1) as nat);
                        }
                        return found;
                    }
                    proof {
                        assert(l =~= key@.subrange(d as int, d + shared));
                        assert forall|j: int| d < j < d + shared implies #[trigger] lookup(*node, key@.subrange(d as int, j)) is None by {
                            let q = key@.subrange(d as int, j);
                            assert(q =~= l.take(q.len() as int));
                            lemma_mid_edge_none(*node, i as int, q);
                        }
                        lemma_walk_gap(*self, *node, key@, d as int, d + shared);
                        lemma_prefix_entries_skip(m, key@, (d + 1) as nat, (d + shared) as nat);
                        lemma_reached_step(*self, *node, key@, d as int, i as int);
                        assert(wf(target(node.children@[i as int]), false));
                    }
                    d = d + shared;
                    node = &*edge.child;
                },
            }
        }
    }
}

impl<C: Component, V> Node<C, V> {
    /// The value of the longest stored key that is a prefix of `key`; when
    /// `inclusive`, an exact match counts as its own ancestor.
    pub fn ancestor<'a>(&'a self, key: &[C], inclusive: bool) -> (r: Option<&'a V>)
        requires
            wf(*self, true),
        ensures
            deref_opt(r) == last_value(
                prefix_entries(node_map(*self), key@, (if inclusive { key@.len() + 1 } else { key@.len() + 0 }) as nat),
            ),
            longest_prefix_value(
                node_map(*self),
                key@,
                (if inclusive { key@.len() + 1 } else { key@.len() + 0 }) as nat,
                deref_opt(r),
            ),
    {
        let ghost m = node_map(*self);
        let ghost stop: nat = (if inclusive { key@.len() + 1 } else { key@.len() + 0 }) as nat;
        let mut found: Option<&V> = None;
        let mut node = self;
        let mut d: usize = 0;
        proof {
            assert forall|x: Seq<C>| #[trigger] lookup(*self, x) == lookup(*self, key@.take(0) + x) by {
                assert(key@.take(0) + x =~= x);
            }
            lemma_longest_prefix(m, key@, stop);
        }
        loop
            invariant
                wf(*node, true),
                d <= key@.len(),
                reached(*self, *node, key@, d as int),
                m == node_map(*self),
                stop == (if inclusive { key@.len() + 1 } else { key@.len() + 0 }),
                longest_prefix_value(m, key@, stop, last_value(prefix_entries(m, key@, stop))),
                deref_opt(found) == last_value(prefix_entries(m, key@, d as nat)),
            decreases key@.len() - d,
        {
            proof {
                assert(key@.take(d as int) + Seq::<C>::empty() =~= key@.take(d as int));
                assert(lookup(*node, Seq::<C>::empty()) == lookup(*self, key@.take(d as int)));
            }
            let ghost p = key@.take(d as int);
            let ghost pe = prefix_entries(m, key@, d as nat);
            proof {
                assert(m.contains_key(p) == (node.value is Some));
                assert(prefix_entries(m, key@, (d + 1) as nat) == pe + (if m.contains_key(p) {
                    seq![(p, m[p])]
                } else {
                    Seq::empty()
                }));
            }
            if d == key.len() && !inclusive {
                return found;
            }
            if let Some(v) = &node.value {
                found = Some(&**v);
                proof {
                    assert(m[p] == **v);
                }
            } else {
                proof {
                    assert(pe + Seq::<(Seq<C>, V)>::empty() =~= pe);
                }
            }
            if d == key.len() {
                return found;
            }
            match node.child_index(&key[d]) {
                Err(_) => {
                    proof {
                        assert forall|j: int| d < j < key@.len() + 1 implies #[trigger] lookup(*node, key@.subrange(d as int, j)) is None by {
                            lemma_diverged_none(*node, key@.subrange(d as int, j));
                        }
                        lemma_walk_gap(*self, *node, key@, d as int, (key@.len() + 1) as int);
                        lemma_prefix_entries_skip(m, key@, (d + 1) as nat, stop);
                    }
                    return found;
                },
                Ok(i) => {
                    let edge = &node.children[i];
                    let shared = match_prefix(&edge.label, key, d);
                    let ghost l = edge.label@;
                    if shared < edge.label.len() {
                        proof {
                            assert forall|j: int| d < j < key@.len() + 1 implies #[trigger] lookup(*node, key@.subrange(d as int, j)) is None by {
                                let q = key@.subrange(d as int, j);
                                if j - d <= shared {
                                    assert(q =~= l.take(q.len() as int));
                                    lemma_mid_edge_none(*node, i as int, q);
                                } else {
                                    lemma_edge_opt_is(node.children@, q[0], i as int);
                                    assert(q[shared as int] != l[shared as int]);
                                    lemma_diverged_none(*node, q);
                                }
                            }
                            lemma_walk_gap(*self, *node, key@, d as int, (key@.len() + 1) as int);
                            lemma_prefix_entries_skip(m, key@, (d + 1) as nat, stop);
                        }
                        return found;
                    }
                    proof {
                        assert(l =~= key@.subrange(d as int, d + shared));
                        assert forall|j: int| d < j < d + shared implies #[trigger] lookup(*node, key@.subrange(d as int, j)) is None by {
                            let q = key@.subrange(d as int, j);
                            assert(q =~= l.take(q.len() as int));
                            lemma_mid_edge_none(*node, i as int, q);
                        }
                        lemma_walk_gap(*self, *node, key@, d as int, d + shared);
                        lemma_prefix_entries_skip(m, key@, (d + 1) as nat, (d + shared) as nat);
                        lemma_reached_step(*self, *node, key@, d as int, i as int);
                        assert(wf(target(node.children@[i as int]), false));
                    }
                    d = d + shared;
                    node = &*edge.child;
                },
            }
        }
    }
}

impl<C: Component, V> Node<C, V> {
    /// The stored keys that are prefixes of `key` (inclusive of an exact match) with
    /// their values, shortest first.
    pub fn ancestor_entries<'a>(&'a self, key: &[C]) -> (r: Vec<(Vec<C>, &'a V)>)
        requires
            wf(*self, true),
        ensures
            entry_views(r@) == prefix_entries(node_map(*self), key@, (key@.len() + 1) as nat),
            entry_views(r@) == entries(*self).filter(prefix_of::<C, V>(key@)),
    {
        let ghost m = node_map(*self);
        let mut found: Vec<(Vec<C>, &V)> = Vec::new();
        let mut acc: Vec<C> = Vec::new();
        let mut node = self;
        let mut d: usize = 0;
        proof {
            assert forall|x: Seq<C>| #[trigger] lookup(*self, x) == lookup(*self, key@.take(0) + x) by {
                assert(key@.take(0) + x =~= x);
            }
            lemma_entries_model(*self, true);
            lemma_prefix_entries_filter(m, entries(*self), key@);
        }
        loop
            invariant
                wf(*node, true),
                d <= key@.len(),
                reached(*self, *node, key@, d as int),
                m == node_map(*self),
                prefix_entries(m, key@, (key@.len() + 1) as nat) == entries(*self).filter(prefix_of::<C, V>(key@)),
                acc@ == key@.take(d as int),
                entry_views(found@) == prefix_entries(m, key@, d as nat),
            decreases key@.len() - d,
        {
            let ghost before = found@;
            proof {
                assert(key@.take(d as int) + Seq::<C>::empty() =~= key@.take(d as int));
                assert(lookup(*node, Seq::<C>::empty()) == lookup(*self, key@.take(d as int)));
            }
            let ghost p = key@.take(d as int);
            let ghost pe = prefix_entries(m, key@, d as nat);
            proof {
                assert(m.contains_key(p) == (node.value is Some));
                assert(prefix_entries(m, key@, (d + 1) as nat) == pe + (if m.contains_key(p) {
                    seq![(p, m[p])]
                } else {
                    Seq::empty()
                }));
            }
            if let Some(v) = &node.value {
                let k = dup_key(acc.as_slice());
                found.push((k, &**v));
                proof {
                    assert(m[p] == **v);
                    assert(entry_views(found@) =~= entry_views(before).push((p, **v)));
                    assert(pe + seq![(p, m[p])] =~= pe.push((p, m[p])));
                }
            } else {
                proof {
                    assert(pe + Seq::<(Seq<C>, V)>::empty() =~= pe);
                }
            }
            if d == key.len() {
                return found;
            }
            match node.child_index(&key[d]) {
                Err(_) => {
                    proof {
                        assert forall|j: int| d < j < key@.len() + 1 implies #[trigger] lookup(*node, key@.subrange(d as int, j)) is None by {
                            lemma_diverged_none(*node, key@.subrange(d as int, j));
                        }
                        lemma_walk_gap(*self, *node, key@, d as int, (key@.len() + 1) as int);
                        lemma_prefix_entries_skip(m, key@, (d + 1) as nat, (key@.len() + 1) as nat);
                    }
                    return found;
                },
                Ok(i) => {
                    let edge = &node.children[i];
                    let shared = match_prefix(&edge.label, key, d);
                    let ghost l = edge.label@;
                    if shared < edge.label.len() {
                        proof {
                            assert forall|j: int| d < j < key@.len() + 1 implies #[trigger] lookup(*node, key@.subrange(d as int, j)) is None by {
                                let q = key@.subrange(d as int, j);
                                if j - d <= shared {
                                    assert(q =~= l.take(q.len() as int));
                                    lemma_mid_edge_none(*node, i as int, q);
                                } else {
                                    lemma_edge_opt_is(node.children@, q[0], i as int);
                                    assert(q[shared as int] != l[shared as int]);
                                    lemma_diverged_none(*node, q);
                                }
                            }
                            lemma_walk_gap(*self, *node, key@, d as int, (key@.len() + 1) as int);
                            lemma_prefix_entries_skip(m, key@, (d + 1) as nat, (key@.len() + 1) as nat);
                        }
                        return found;
                    }
                    proof {
                        assert(l =~= key@.subrange(d as int, d + shared));
                        assert forall|j: int| d < j < d + shared implies #[trigger] lookup(*node, key@.subrange(d as int, j)) is None by {
                            let q = key@.subrange(d as int, j);
                            assert(q =~= l.take(q.len() as int));
                            lemma_mid_edge_none(*node, i as int, q);
                        }
                        lemma_walk_gap(*self, *node, key@, d as int, d + shared);
                        lemma_prefix_entries_skip(m, key@, (d + 1) as nat, (d + shared) as nat);
                        lemma_reached_step(*self, *node, key@, d as int, i as int);
                        assert(wf(target(node.children@[i as int]), false));
                    }
                    extend_key(&mut acc, edge.label.as_slice());
                    proof {
                        assert(acc@ =~= key@.take(d + shared));
                    }
                    d = d + shared;
                    node = &*edge.child;
                },
            }
        }
    }
}


/// Appends a copy of each of `labels` to `dst`.
pub fn extend_key<C: Component>(dst: &mut Vec<C>, labels: &[C])
    ensures
        final(dst)@ == old(dst)@ + labels@,
{
    let mut i: usize = 0;
    while i < labels.len()
        invariant
            i <= labels@.len(),
            dst@ == old(dst)@ + labels@.take(i as int),
        decreases labels@.len() - i,
    {
        dst.push(labels[i].duplicate());
        i = i + 1;
        assert(dst@ =~= old(dst)@ + labels@.take(i as int));
    }
    assert(labels@.take(labels@.len() as int) =~= labels@);
}

/// Copies a component slice into a fresh key.
pub fn dup_key<C: Component>(key: &[C]) -> (r: Vec<C>)
    ensures
        r@ == key@,
{
    copy_label(key)
}


/// `k` strictly extends `p`.
pub open spec fn below<C>(p: Seq<C>, k: Seq<C>) -> bool {
    p.is_prefix_of(k) && p.len() < k.len()
}

pub proof fn lemma_filter_all<A>(s: Seq<A>, f: spec_fn(A) -> bool)
    requires
        forall|i: int| 0 <= i < s.len() ==> f(#[trigger] s[i]),
    ensures
        s.filter(f) == s,
    decreases s.len(),
{
    reveal(Seq::filter);
    if s.len() > 0 {
        lemma_filter_all(s.drop_last(), f);
        assert(s.drop_last().push(s.last()) =~= s);
    }
}

pub proof fn lemma_filter_none<A>(s: Seq<A>, f: spec_fn(A) -> bool)
    requires
        forall|i: int| 0 <= i < s.len() ==> !f(#[trigger] s[i]),
    ensures
        s.filter(f) == Seq::<A>::empty(),
    decreases s.len(),
{
    reveal(Seq::filter);
    if s.len() > 0 {
        lemma_filter_none(s.drop_last(), f);
    }
}

/// Filtering shifted entries is shifting the entries filtered by the shifted test.
pub proof fn lemma_filter_shift<C, V>(
    p: Seq<C>,
    s: Seq<(Seq<C>, V)>,
    f: spec_fn((Seq<C>, V)) -> bool,
    g: spec_fn((Seq<C>, V)) -> bool,
)
    requires
        forall|e: (Seq<C>, V)| #[trigger] g(e) == f((p + e.0, e.1)),
    ensures
        shift(p, s).filter(f) == shift(p, s.filter(g)),
    decreases s.len(),
{
    reveal(Seq::filter);
    if s.len() > 0 {
        lemma_filter_shift(p, s.drop_last(), f, g);
        assert(shift(p, s).drop_last() =~= shift(p, s.drop_last()));
        assert(shift(p, s).last() == (p + s.last().0, s.last().1));
        assert(g(s.last()) == f((p + s.last().0, s.last().1)));
        if g(s.last()) {
            assert(shift(p, s.drop_last().filter(g).push(s.last())) =~= shift(p, s.drop_last().filter(g)).push(
                (p + s.last().0, s.last().1),
            ));
        }
    }
}

/// The entries behind edge `i` sit between those of the edges before and after it.
pub proof fn lemma_edges_entries_split<C, V>(es: Seq<Edge<C, V>>, i: int)
    requires
        0 <= i < es.len(),
    ensures
        edges_entries(es) == edges_entries(es.take(i)) + shift(es[i].label@, entries(target(es[i])))
            + edges_entries(es.skip(i + 1)),
{
    let one = seq![es[i]];
    assert(es =~= es.take(i) + (one + es.skip(i + 1)));
    lemma_edges_entries_append(es.take(i), one + es.skip(i + 1));
    lemma_edges_entries_append(one, es.skip(i + 1));
    assert(one.drop_last() =~= Seq::<Edge<C, V>>::empty());
    assert(edges_entries(Seq::<Edge<C, V>>::empty()) == Seq::<(Seq<C>, V)>::empty());
    assert(one.last() == es[i]);
    assert(edges_entries(one) =~= shift(es[i].label@, entries(target(es[i]))));
    assert(edges_entries(es.take(i)) + (edges_entries(one) + edges_entries(es.skip(i + 1))) =~= edges_entries(es.take(i))
        + edges_entries(one) + edges_entries(es.skip(i + 1)));
}

/// Replacing edge `i` by an edge with the same shifted entries keeps the entries.
pub proof fn lemma_edges_entries_update<C, V>(es: Seq<Edge<C, V>>, i: int, e: Edge<C, V>)
    requires
        0 <= i < es.len(),
        shift(e.label@, entries(target(e))) == shift(es[i].label@, entries(target(es[i]))),
    ensures
        edges_entries(es.update(i, e)) == edges_entries(es),
{
    let ns = es.update(i, e);
    lemma_edges_entries_split(es, i);
    lemma_edges_entries_split(ns, i);
    assert(ns.take(i) =~= es.take(i));
    assert(ns.skip(i + 1) =~= es.skip(i + 1));
}

/// Dropping edge `i` drops exactly its shifted entries.
pub proof fn lemma_edges_entries_remove<C, V>(es: Seq<Edge<C, V>>, i: int)
    requires
        0 <= i < es.len(),
    ensures
        edges_entries(es.remove(i)) == edges_entries(es.take(i)) + edges_entries(es.skip(i + 1)),
{
    let ns = es.remove(i);
    assert(ns =~= es.take(i) + es.skip(i + 1));
    lemma_edges_entries_append(es.take(i), es.skip(i + 1));
}

pub proof fn lemma_shift_shift<C, V>(p: Seq<C>, q: Seq<C>, s: Seq<(Seq<C>, V)>)
    ensures
        shift(p, shift(q, s)) == shift(p + q, s),
{
    assert forall|i: int| 0 <= i < s.len() implies shift(p, shift(q, s))[i] == shift(p + q, s)[i] by {
        assert(p + (q + s[i].0) =~= (p + q) + s[i].0);
    }
    assert(shift(p, shift(q, s)) =~= shift(p + q, s));
}


/// The entries not strictly below `r`.
pub open spec fn keep_not_below<C, V>(r: Seq<C>) -> spec_fn((Seq<C>, V)) -> bool {
    |e: (Seq<C>, V)| !below(r, e.0)
}

/// Keys reached through edges that do not start with `c` do not start with `c`.
pub proof fn lemma_edges_entries_first<C: Component, V>(es: Seq<Edge<C, V>>, c: C)
    requires
        forall|j: int| 0 <= j < es.len() ==> (#[trigger] es[j]).label@.len() > 0 && first(es[j]) != c,
    ensures
        forall|m: int| 0 <= m < edges_entries(es).len() ==> (#[trigger] edges_entries(es)[m]).0.len() > 0
            && edges_entries(es)[m].0[0] != c,
{
    assert forall|m: int| 0 <= m < edges_entries(es).len() implies (#[trigger] edges_entries(es)[m]).0.len() > 0
        && edges_entries(es)[m].0[0] != c by {
        let w = lemma_edges_entries_from(es, m);
        assert(es[w.0].label@.len() > 0);
        assert(edges_entries(es)[m].0[0] == es[w.0].label@[0]);
    }
}

/// A test that passes every entry whose key is empty or starts away from `r[0]`
/// can only reject entries behind the edge for `r[0]`.
pub proof fn lemma_filter_split<C: Component, V>(n: Node<C, V>, r: Seq<C>, i: int, f: spec_fn((Seq<C>, V)) -> bool)
    requires
        edges_ordered(n.children@),
        r.len() > 0,
        i == edge_for(n.children@, r[0]),
        forall|e: (Seq<C>, V)| (e.0.len() == 0 || e.0[0] != r[0]) ==> #[trigger] f(e),
    ensures
        i < 0 ==> entries(n).filter(f) == entries(n),
        0 <= i < n.children@.len() ==> entries(n).filter(f) == own_entries(n) + edges_entries(
            n.children@.take(i),
        ) + shift(n.children@[i].label@, entries(target(n.children@[i]))).filter(f)
            + edges_entries(n.children@.skip(i + 1)),
{
    let es = n.children@;
    lemma_edge_for(es, r[0]);
    broadcast use Seq::filter_distributes_over_add;
    assert forall|m: int| 0 <= m < own_entries(n).len() implies f(#[trigger] own_entries(n)[m]) by {
        assert(own_entries(n)[m].0.len() == 0);
    }
    lemma_filter_all(own_entries(n), f);
    if i < 0 {
        assert forall|j: int| 0 <= j < es.len() implies (#[trigger] es[j]).label@.len() > 0 && first(es[j]) != r[0] by {
        }
        lemma_edges_entries_first(es, r[0]);
        assert forall|m: int| 0 <= m < edges_entries(es).len() implies f(#[trigger] edges_entries(es)[m]) by {
            let k = edges_entries(es)[m].0;
            assert(k[0] != r[0]);
        }
        lemma_filter_all(edges_entries(es), f);
    } else {
        lemma_edges_entries_split(es, i);
        let a = es.take(i);
        let b = es.skip(i + 1);
        C::lemma_strict_total_order();
        assert forall|j: int| 0 <= j < a.len() implies (#[trigger] a[j]).label@.len() > 0 && first(a[j]) != r[0] by {
            assert(a[j] == es[j]);
            assert(first(es[j]).comp_lt(first(es[i])));
        }
        assert forall|j: int| 0 <= j < b.len() implies (#[trigger] b[j]).label@.len() > 0 && first(b[j]) != r[0] by {
            assert(b[j] == es[i + 1 + j]);
            assert(first(es[i]).comp_lt(first(es[i + 1 + j])));
        }
        lemma_edges_entries_first(a, r[0]);
        lemma_edges_entries_first(b, r[0]);
        assert forall|m: int| 0 <= m < edges_entries(a).len() implies f(#[trigger] edges_entries(a)[m]) by {
            assert(edges_entries(a)[m].0[0] != r[0]);
        }
        assert forall|m: int| 0 <= m < edges_entries(b).len() implies f(#[trigger] edges_entries(b)[m]) by {
            assert(edges_entries(b)[m].0[0] != r[0]);
        }
        lemma_filter_all(edges_entries(a), f);
        lemma_filter_all(edges_entries(b), f);
    }
}


/// Entries with keys starting away from `r[0]` are not below `r`; only the edge for
/// `r[0]` (if any) contributes entries below `r`.
pub proof fn lemma_below_split<C: Component, V>(n: Node<C, V>, r: Seq<C>, i: int)
    requires
        edges_ordered(n.children@),
        r.len() > 0,
        i == edge_for(n.children@, r[0]),
    ensures
        i < 0 ==> entries(n).filter(keep_not_below(r)) == entries(n),
        0 <= i < n.children@.len() ==> entries(n).filter(keep_not_below(r)) == own_entries(n) + edges_entries(
            n.children@.take(i),
        ) + shift(n.children@[i].label@, entries(target(n.children@[i]))).filter(keep_not_below(r))
            + edges_entries(n.children@.skip(i + 1)),
{
    lemma_filter_split(n, r, i, keep_not_below::<C, V>(r));
}

impl<C: Component, V> Node<C, V> {
    /// Unlinks every value strictly below `key[pos..]` in the subtree behind `node`,
    /// copying shared nodes on the path and re-compressing. Returns the new subtree
    /// and the number of values removed.
    #[verifier::rlimit(50)]
    #[verifier::spinoff_prover]
    pub fn unlink_descendants(node: Arc<Node<C, V>>, key: &[C], pos: usize, root: Ghost<bool>) -> (r: (
        Arc<Node<C, V>>,
        usize,
    ))
        requires
            wf(*node, root@),
            pos <= key@.len(),
            entries(*node).len() <= usize::MAX,
        ensures
            wf(*r.0, true),
            entries(*r.0) == entries(*node).filter(keep_not_below(key@.skip(pos as int))),
            r.1 == entries(*node).len() - entries(*r.0).len(),
        decreases key@.len() - pos,
    {
        let ghost rest = key@.skip(pos as int);
        let ghost on: Node<C, V> = pointee(&node);
        let ghost f = keep_not_below::<C, V>(rest);
        let mut n: Node<C, V> = arc_unwrap_or_clone(node);
        assert(same_node(n, on));
        assert(entries(n) == entries(on));
        if pos == key.len() {
            let total = n.count();
            let own: usize = if n.value.is_some() { 1 } else { 0 };
            n.children.clear();
            proof {
                assert(rest =~= Seq::<C>::empty());
                lemma_edges_entries_nonempty_keys(on.children@);
                broadcast use Seq::filter_distributes_over_add;
                lemma_filter_all(own_entries(on), f);
                assert forall|m: int| 0 <= m < edges_entries(on.children@).len() implies !f(
                    #[trigger] edges_entries(on.children@)[m],
                ) by {
                    assert(Seq::<C>::empty().is_prefix_of(edges_entries(on.children@)[m].0));
                }
                lemma_filter_none(edges_entries(on.children@), f);
                assert(edges_entries(n.children@) == Seq::<(Seq<C>, V)>::empty());
                assert(entries(n) =~= entries(on).filter(f));
            }
            return (Arc::new(n), total - own);
        }
        proof {
            lemma_below_split(on, rest, edge_for(on.children@, rest[0]));
        }
        match n.child_index(&key[pos]) {
            Err(_) => {
                (Arc::new(n), 0)
            },
            Ok(i) => {
                let shared = match_prefix(&n.children[i].label, key, pos);
                let llen = n.children[i].label.len();
                let ghost es = on.children@;
                let ghost oe = es[i as int];
                let ghost l = oe.label@;
                let ghost mid = shift(l, entries(target(oe)));
                proof {
                    lemma_edges_entries_split(es, i as int);
                    assert(wf(target(oe), false));
                }
                if shared == llen {
                    let ghost r2 = key@.skip(pos + shared);
                    proof {
                        assert(l.is_prefix_of(rest));
                        assert(rest =~= l + r2);
                        assert forall|e: (Seq<C>, V)| #[trigger] keep_not_below::<C, V>(r2)(e) == f((l + e.0, e.1)) by {
                            assert((l + e.0).skip(l.len() as int) =~= e.0);
                            if r2.is_prefix_of(e.0) {
                                assert(rest.is_prefix_of(l + e.0)) by {
                                    assert forall|x: int| 0 <= x < rest.len() implies rest[x] == (l + e.0)[x] by {
                                        if x >= l.len() {
                                            assert(rest[x] == r2[x - l.len()]);
                                        }
                                    }
                                }
                            }
                            if rest.is_prefix_of(l + e.0) {
                                assert forall|x: int| 0 <= x < r2.len() implies r2[x] == e.0[x] by {
                                    assert(rest[l.len() + x] == (l + e.0)[l.len() + x]);
                                }
                            }
                        }
                        lemma_filter_shift(l, entries(target(oe)), f, keep_not_below::<C, V>(r2));
                        lemma_edges_entries_split(es, i as int);
                    }
                    let edge = n.children.remove(i);
                    let (child2, removed) = Node::unlink_descendants(edge.child, key, pos + shared, Ghost(false));
                    let e2 = Edge { label: edge.label, child: child2 };
                    n.children.insert(i, e2);
                    proof {
                        assert(n.children@ =~= es.update(i as int, e2));
                        let ns = n.children@;
                        lemma_edges_entries_split(ns, i as int);
                        assert(ns.take(i as int) =~= es.take(i as int));
                        assert(ns.skip(i + 1) =~= es.skip(i + 1));
                        assert(entries(n) =~= entries(on).filter(f));
                        assert(wf_except(n, i as int, root@)) by {
                            assert forall|j: int| 0 <= j < ns.len() && j != i implies wf(target(#[trigger] ns[j]), false) by {
                                assert(ns[j] == es[j]);
                            }
                            lemma_replace_edge_lookup(on, n, i as int, e2);
                        }
                    }
                    n.normalize_child(i, root);
                    (Arc::new(n), removed)
                } else if pos + shared == key.len() {
                    let removed = n.children[i].child.count();
                    n.children.remove(i);
                    proof {
                        assert(rest =~= l.take(shared as int));
                        assert forall|m: int| 0 <= m < mid.len() implies !f(#[trigger] mid[m]) by {
                            assert forall|x: int| 0 <= x < rest.len() implies rest[x] == mid[m].0[x] by {
                                assert(rest[x] == l[x]);
                            }
                        }
                        lemma_filter_none(mid, f);
                        lemma_edges_entries_remove(es, i as int);
                        lemma_prune_ok(on, n, i as int, root@);
                        assert(entries(n) =~= entries(on).filter(f));
                    }
                    (Arc::new(n), removed)
                } else {
                    proof {
                        assert(rest[shared as int] != l[shared as int]);
                        assert forall|m: int| 0 <= m < mid.len() implies f(#[trigger] mid[m]) by {
                            assert(mid[m].0[shared as int] == l[shared as int]);
                        }
                        lemma_filter_all(mid, f);
                        assert(entries(n) =~= entries(on).filter(f));
                    }
                    (Arc::new(n), 0)
                }
            },
        }
    }
}

/// Dropping an edge of a well-formed node leaves it well-formed as a root.
pub proof fn lemma_prune_ok<C: Component, V>(old: Node<C, V>, new: Node<C, V>, i: int, root: bool)
    requires
        wf(old, root),
        0 <= i < old.children@.len(),
        new.value == old.value,
        new.children@ == old.children@.remove(i),
    ensures
        wf(new, true),
{
    let os = old.children@;
    let ns = new.children@;
    assert(forall|j: int| 0 <= j < i ==> ns[j] == os[j]);
    assert(forall|j: int| i <= j < ns.len() ==> ns[j] == os[j + 1]);
    assert(edges_ordered(ns)) by {
        assert forall|a: int, b: int| 0 <= a < b < ns.len() implies (#[trigger] first(ns[a])).comp_lt(
            #[trigger] first(ns[b]),
        ) by {
            if b < i {
            } else if a < i {
                assert(first(os[a]).comp_lt(first(os[b + 1])));
            } else {
                assert(first(os[a + 1]).comp_lt(first(os[b + 1])));
            }
        }
        assert forall|a: int| 0 <= a < ns.len() implies (#[trigger] ns[a]).label@.len() > 0 by {
            if a < i {
                assert(ns[a] == os[a]);
            } else {
                assert(ns[a] == os[a + 1]);
            }
        }
    }
    assert forall|j: int| 0 <= j < ns.len() implies wf(target(#[trigger] ns[j]), false) by {
        if j < i {
            assert(ns[j] == os[j]);
        } else {
            assert(ns[j] == os[j + 1]);
        }
    }
}



/// Filtering with a test that rejects the whole subtree behind edge `i` (and passes
/// everything else) is dropping that edge.
pub proof fn lemma_filter_drop_edge<C: Component, V>(
    on: Node<C, V>,
    n: Node<C, V>,
    r: Seq<C>,
    i: int,
    f: spec_fn((Seq<C>, V)) -> bool,
    root: bool,
)
    requires
        wf(on, root),
        r.len() > 0,
        0 <= i < on.children@.len(),
        i == edge_for(on.children@, r[0]),
        forall|e: (Seq<C>, V)| (e.0.len() == 0 || e.0[0] != r[0]) ==> #[trigger] f(e),
        forall|m: int| 0 <= m < shift(on.children@[i].label@, entries(target(on.children@[i]))).len() ==> !f(
            #[trigger] shift(on.children@[i].label@, entries(target(on.children@[i])))[m],
        ),
        n.value == on.value,
        n.children@ == on.children@.remove(i),
    ensures
        wf(n, true),
        entries(n) == entries(on).filter(f),
        entries(n).len() == entries(on).len() - entries(target(on.children@[i])).len(),
{
    let es = on.children@;
    lemma_filter_split(on, r, i, f);
    lemma_filter_none(shift(es[i].label@, entries(target(es[i]))), f);
    lemma_edges_entries_remove(es, i);
    lemma_edges_entries_split(es, i);
    lemma_prune_ok(on, n, i, root);
    assert(entries(n) =~= entries(on).filter(f));
}

/// Filtering with a test that passes every entry passes the node unchanged.
pub proof fn lemma_filter_keep_edge<C: Component, V>(
    on: Node<C, V>,
    r: Seq<C>,
    i: int,
    f: spec_fn((Seq<C>, V)) -> bool,
)
    requires
        edges_ordered(on.children@),
        r.len() > 0,
        0 <= i < on.children@.len(),
        i == edge_for(on.children@, r[0]),
        forall|e: (Seq<C>, V)| (e.0.len() == 0 || e.0[0] != r[0]) ==> #[trigger] f(e),
        forall|m: int| 0 <= m < shift(on.children@[i].label@, entries(target(on.children@[i]))).len() ==> f(
            #[trigger] shift(on.children@[i].label@, entries(target(on.children@[i])))[m],
        ),
    ensures
        entries(on).filter(f) == entries(on),
{
    let es = on.children@;
    lemma_filter_split(on, r, i, f);
    lemma_filter_all(shift(es[i].label@, entries(target(es[i]))), f);
    lemma_edges_entries_split(es, i);
    assert(entries(on).filter(f) =~= entries(on));
}

/// Filtering through edge `i` with a test that, on that subtree, is the child's test
/// `g` behind the label.
#[verifier::rlimit(40)]
#[verifier::spinoff_prover]
pub proof fn lemma_filter_descend<C: Component, V>(
    on: Node<C, V>,
    n: Node<C, V>,
    r: Seq<C>,
    i: int,
    e2: Edge<C, V>,
    f: spec_fn((Seq<C>, V)) -> bool,
    g: spec_fn((Seq<C>, V)) -> bool,
    root: bool,
)
    requires
        wf(on, root),
        r.len() > 0,
        0 <= i < on.children@.len(),
        i == edge_for(on.children@, r[0]),
        forall|e: (Seq<C>, V)| (e.0.len() == 0 || e.0[0] != r[0]) ==> #[trigger] f(e),
        forall|e: (Seq<C>, V)| #[trigger] g(e) == f((on.children@[i].label@ + e.0, e.1)),
        e2.label@ == on.children@[i].label@,
        wf(target(e2), true),
        entries(target(e2)) == entries(target(on.children@[i])).filter(g),
        n.value == on.value,
        n.children@ == on.children@.update(i, e2),
    ensures
        wf_except(n, i, root),
        entries(n) == entries(on).filter(f),
        entries(on).len() - entries(n).len() == entries(target(on.children@[i])).len() - entries(
            target(e2),
        ).len(),
{
    let es = on.children@;
    let ns = n.children@;
    let oe = es[i];
    lemma_filter_split(on, r, i, f);
    lemma_filter_shift(oe.label@, entries(target(oe)), f, g);
    lemma_edges_entries_split(es, i);
    lemma_edges_entries_split(ns, i);
    assert(ns.take(i) =~= es.take(i));
    assert(ns.skip(i + 1) =~= es.skip(i + 1));
    assert(entries(n) =~= entries(on).filter(f));
    assert forall|j: int| 0 <= j < ns.len() && j != i implies wf(target(#[trigger] ns[j]), false) by {
        assert(ns[j] == es[j]);
    }
    lemma_replace_edge_lookup(on, n, i, e2);
}

/// The entries whose key does not start with `r`.
pub open spec fn keep_outside<C, V>(r: Seq<C>) -> spec_fn((Seq<C>, V)) -> bool {
    |e: (Seq<C>, V)| !r.is_prefix_of(e.0)
}

/// A common prefix does not change prefix relations.
pub proof fn lemma_prefix_cancel<C>(l: Seq<C>, r: Seq<C>, k: Seq<C>)
    ensures
        (l + r).is_prefix_of(l + k) == r.is_prefix_of(k),
        below(l + r, l + k) == below(r, k),
{
    if r.is_prefix_of(k) {
        assert forall|x: int| 0 <= x < (l + r).len() implies (l + r)[x] == (l + k)[x] by {
            if x >= l.len() {
                assert(r[x - l.len()] == k[x - l.len()]);
            }
        }
    }
    if (l + r).is_prefix_of(l + k) {
        assert forall|x: int| 0 <= x < r.len() implies r[x] == k[x] by {
            assert((l + r)[l.len() + x] == (l + k)[l.len() + x]);
        }
    }
}

impl<C: Component, V> Node<C, V> {
    /// Unlinks every value at or below `key[pos..]` (which must be non-empty) in the
    /// subtree behind `node`, copying shared nodes on the path and re-compressing.
    /// Returns the new subtree and the number of values removed.
    #[verifier::rlimit(50)]
    #[verifier::spinoff_prover]
    pub fn unlink_prefix(node: Arc<Node<C, V>>, key: &[C], pos: usize, root: Ghost<bool>) -> (r: (
        Arc<Node<C, V>>,
        usize,
    ))
        requires
            wf(*node, root@),
            pos < key@.len(),
            entries(*node).len() <= usize::MAX,
        ensures
            wf(*r.0, true),
            entries(*r.0) == entries(*node).filter(keep_outside(key@.skip(pos as int))),
            r.1 == entries(*node).len() - entries(*r.0).len(),
        decreases key@.len() - pos,
    {
        let ghost rest = key@.skip(pos as int);
        let ghost on: Node<C, V> = pointee(&node);
        let ghost f = keep_outside::<C, V>(rest);
        let mut n: Node<C, V> = arc_unwrap_or_clone(node);
        assert(same_node(n, on));
        assert(entries(n) == entries(on));
        match n.child_index(&key[pos]) {
            Err(_) => {
                proof {
                    lemma_filter_split(on, rest, edge_for(on.children@, rest[0]), f);
                }
                (Arc::new(n), 0)
            },
            Ok(i) => {
                let shared = match_prefix(&n.children[i].label, key, pos);
                let llen = n.children[i].label.len();
                let ghost es = on.children@;
                let ghost oe = es[i as int];
                let ghost l = oe.label@;
                let ghost mid = shift(l, entries(target(oe)));
                proof {
                    assert(wf(target(oe), false));
                    lemma_edges_entries_split(es, i as int);
                }
                if pos + shared == key.len() {
                    let removed = n.children[i].child.count();
                    n.children.remove(i);
                    proof {
                        assert(rest =~= l.take(shared as int));
                        assert forall|m: int| 0 <= m < mid.len() implies !f(#[trigger] mid[m]) by {
                            assert forall|x: int| 0 <= x < rest.len() implies rest[x] == mid[m].0[x] by {
                                assert(rest[x] == l[x]);
                            }
                        }
                        lemma_filter_drop_edge(on, n, rest, i as int, f, root@);
                    }
                    (Arc::new(n), removed)
                } else if shared == llen {
                    let ghost r2 = key@.skip(pos + shared);
                    proof {
                        assert(l.is_prefix_of(rest));
                        assert(rest =~= l + r2);
                        assert forall|e: (Seq<C>, V)| #[trigger] keep_outside::<C, V>(r2)(e) == f((l + e.0, e.1)) by {
                            lemma_prefix_cancel(l, r2, e.0);
                        }
                    }
                    let edge = n.children.remove(i);
                    let (child2, removed) = Node::unlink_prefix(edge.child, key, pos + shared, Ghost(false));
                    let e2 = Edge { label: edge.label, child: child2 };
                    n.children.insert(i, e2);
                    proof {
                        assert(n.children@ =~= es.update(i as int, e2));
                        lemma_filter_descend(on, n, rest, i as int, e2, f, keep_outside::<C, V>(r2), root@);
                    }
                    n.normalize_child(i, root);
                    (Arc::new(n), removed)
                } else {
                    proof {
                        assert(rest[shared as int] != l[shared as int]);
                        assert forall|m: int| 0 <= m < mid.len() implies f(#[trigger] mid[m]) by {
                            assert(mid[m].0[shared as int] == l[shared as int]);
                        }
                        lemma_filter_keep_edge(on, rest, i as int, f);
                    }
                    (Arc::new(n), 0)
                }
            },
        }
    }
}

/// Path compression holds below `n`: no edge label is empty, and no node below the
/// root is a valueless node with a single child.
pub open spec fn canonical<C, V>(n: Node<C, V>, root: bool) -> bool
    decreases n,
{
    &&& !(!root && n.value is None && n.children@.len() == 1)
    &&& forall|i: int| 0 <= i < n.children@.len() ==> (#[trigger] n.children@[i]).label@.len() > 0
    &&& forall|i: int| 0 <= i < n.children@.len() ==> canonical(*(#[trigger] n.children@[i]).child, false)
}

/// A well-formed subtree is in canonical form.
pub proof fn lemma_wf_canonical<C: Component, V>(n: Node<C, V>, root: bool)
    requires
        wf(n, root),
    ensures
        canonical(n, root),
    decreases n,
{
    assert forall|i: int| 0 <= i < n.children@.len() implies canonical(*(#[trigger] n.children@[i]).child, false) by {
        lemma_wf_canonical(*n.children@[i].child, false);
    }
}

impl<C, V> Node<C, V> {
    /// Checks that the subtree at this node is in canonical, path-compressed form;
    /// `is_root` exempts this node from the single-child rule.
    pub fn is_canonical(&self, is_root: bool) -> (r: bool)
        ensures
            r == canonical(*self, is_root),
        decreases *self,
    {
        if !is_root && self.value.is_none() && self.children.len() == 1 {
            return false;
        }
        let mut i: usize = 0;
        while i < self.children.len()
            invariant
                i <= self.children@.len(),
                !(!is_root && self.value is None && self.children@.len() == 1),
                forall|j: int| 0 <= j < i ==> (#[trigger] self.children@[j]).label@.len() > 0,
                forall|j: int| 0 <= j < i ==> canonical(*(#[trigger] self.children@[j]).child, false),
            decreases self.children@.len() - i,
        {
            let edge = &self.children[i];
            if edge.label.len() == 0 || !edge.child.is_canonical(false) {
                return false;
            }
            i = i + 1;
        }
        true
    }
}

/// A stored prefix of `k`: a key of `m` that `k` starts with.
pub open spec fn stored_prefix<C, V>(m: Map<Seq<C>, V>, k: Seq<C>, p: Seq<C>) -> bool {
    m.contains_key(p) && p.is_prefix_of(k)
}

/// The entries on the path to `k`, up to length `j`, are exactly the stored
/// prefixes of `k` shorter than `j`, each once, shortest first.
pub proof fn lemma_prefix_entries<C, V>(m: Map<Seq<C>, V>, k: Seq<C>, j: nat)
    requires
        j <= k.len() + 1,
    ensures
        forall|x: (Seq<C>, V)| #[trigger] prefix_entries(m, k, j).contains(x) <==> (stored_prefix(m, k, x.0)
            && x.0.len() < j && m[x.0] == x.1),
        forall|a: int, b: int| 0 <= a < b < prefix_entries(m, k, j).len() ==> (#[trigger] prefix_entries(m, k, j)[a]).0.len()
            < (#[trigger] prefix_entries(m, k, j)[b]).0.len(),
        forall|a: int| 0 <= a < prefix_entries(m, k, j).len() ==> stored_prefix(m, k, (#[trigger] prefix_entries(m, k, j)[a]).0),
    decreases j,
{
    if j > 0 {
        let prev = prefix_entries(m, k, (j - 1) as nat);
        let p = k.take(j - 1);
        lemma_prefix_entries(m, k, (j - 1) as nat);
        let tail = if m.contains_key(p) { seq![(p, m[p])] } else { Seq::<(Seq<C>, V)>::empty() };
        let pe = prefix_entries(m, k, j);
        assert(pe == prev + tail);
        assert(p.is_prefix_of(k));
        assert forall|x: (Seq<C>, V)| #[trigger] pe.contains(x) <==> (stored_prefix(m, k, x.0) && x.0.len() < j
            && m[x.0] == x.1) by {
            if pe.contains(x) {
                let i = choose|i: int| 0 <= i < pe.len() && pe[i] == x;
                if i < prev.len() {
                    assert(prev[i] == x);
                    assert(prev.contains(x));
                } else {
                    assert(tail[i - prev.len()] == x);
                }
            }
            if stored_prefix(m, k, x.0) && x.0.len() < j && m[x.0] == x.1 {
                if x.0.len() < j - 1 {
                    assert(prev.contains(x));
                    let i = choose|i: int| 0 <= i < prev.len() && prev[i] == x;
                    assert(pe[i] == x);
                } else {
                    assert(x.0 =~= p);
                    assert(pe[prev.len() as int] == x);
                }
            }
        }
        assert forall|a: int| 0 <= a < pe.len() implies stored_prefix(m, k, (#[trigger] pe[a]).0) by {
            if a < prev.len() {
                assert(pe[a] == prev[a]);
            }
        }
        assert forall|a: int, b: int| 0 <= a < b < pe.len() implies (#[trigger] pe[a]).0.len() < (#[trigger] pe[b]).0.len() by {
            if b < prev.len() {
                assert(pe[a] == prev[a] && pe[b] == prev[b]);
            } else {
                assert(pe[a] == prev[a]);
                assert(prev.contains(prev[a]));
            }
        }
    }
}

/// Two ascending sequences of entries with the same elements are equal.
pub proof fn lemma_sorted_same<C: Component, V>(a: Seq<(Seq<C>, V)>, b: Seq<(Seq<C>, V)>)
    requires
        sorted(a),
        sorted(b),
        forall|x: (Seq<C>, V)| a.contains(x) <==> b.contains(x),
    ensures
        a == b,
    decreases a.len() + b.len(),
{
    if a.len() == 0 {
        if b.len() > 0 {
            assert(b.contains(b[0]));
        }
        assert(a =~= b);
    } else if b.len() == 0 {
        assert(a.contains(a[0]));
    } else {
        assert(a.contains(a[0]));
        assert(b.contains(b[0]));
        let i = choose|i: int| 0 <= i < a.len() && a[i] == b[0];
        let j = choose|j: int| 0 <= j < b.len() && b[j] == a[0];
        if i > 0 && j > 0 {
            assert(key_lt(a[0].0, a[i].0));
            assert(key_lt(b[0].0, b[j].0));
            lemma_key_lt_asym(a[0].0, b[0].0);
        } else if i > 0 {
            assert(key_lt(a[0].0, a[i].0));
            lemma_key_lt_irreflexive(a[0].0);
        } else if j > 0 {
            assert(key_lt(b[0].0, b[j].0));
            lemma_key_lt_irreflexive(b[0].0);
        }
        assert(a[0] == b[0]);
        let ta = a.drop_first();
        let tb = b.drop_first();
        assert forall|x: (Seq<C>, V)| ta.contains(x) implies tb.contains(x) by {
            let p = choose|p: int| 0 <= p < ta.len() && ta[p] == x;
            assert(a[p + 1] == x);
            assert(key_lt(a[0].0, x.0));
            lemma_key_lt_irreflexive(x.0);
            assert(b.contains(x));
            let q = choose|q: int| 0 <= q < b.len() && b[q] == x;
            assert(q != 0);
            assert(tb[q - 1] == x);
        }
        assert forall|x: (Seq<C>, V)| tb.contains(x) implies ta.contains(x) by {
            let p = choose|p: int| 0 <= p < tb.len() && tb[p] == x;
            assert(b[p + 1] == x);
            assert(key_lt(b[0].0, x.0));
            lemma_key_lt_irreflexive(x.0);
            assert(a.contains(x));
            let q = choose|q: int| 0 <= q < a.len() && a[q] == x;
            assert(q != 0);
            assert(ta[q - 1] == x);
        }
        lemma_sorted_same(ta, tb);
        assert(a =~= seq![a[0]] + ta);
        assert(b =~= seq![b[0]] + tb);
    }
}

/// The entries whose key is a prefix of `k`.
pub open spec fn prefix_of<C, V>(k: Seq<C>) -> spec_fn((Seq<C>, V)) -> bool {
    |e: (Seq<C>, V)| e.0.is_prefix_of(k)
}

/// The stored prefixes of `k` shorter than `j`, in ascending key order, are the
/// entries of an ascending listing of `m` whose key is a prefix of `k`.
pub proof fn lemma_prefix_entries_filter<C: Component, V>(m: Map<Seq<C>, V>, s: Seq<(Seq<C>, V)>, k: Seq<C>)
    requires
        sorted(s),
        forall|x: (Seq<C>, V)| #[trigger] s.contains(x) <==> (m.contains_key(x.0) && m[x.0] == x.1),
    ensures
        prefix_entries(m, k, (k.len() + 1) as nat) == s.filter(prefix_of::<C, V>(k)),
{
    let pe = prefix_entries(m, k, (k.len() + 1) as nat);
    let fe = s.filter(prefix_of::<C, V>(k));
    lemma_prefix_entries(m, k, (k.len() + 1) as nat);
    crate::iter::lemma_sorted_filter(s, prefix_of::<C, V>(k));
    assert forall|a: int, b: int| 0 <= a < b < pe.len() implies key_lt(#[trigger] pe[a].0, #[trigger] pe[b].0) by {
        assert(pe[a].0.len() < pe[b].0.len());
        assert(stored_prefix(m, k, pe[a].0) && stored_prefix(m, k, pe[b].0));
        assert(pe[a].0.is_prefix_of(pe[b].0)) by {
            assert forall|q: int| 0 <= q < pe[a].0.len() implies pe[a].0[q] == pe[b].0[q] by {
                assert(pe[a].0[q] == k[q]);
                assert(pe[b].0[q] == k[q]);
            }
        }
        lemma_key_lt_proper_prefix(pe[a].0, pe[b].0);
    }
    assert forall|x: (Seq<C>, V)| pe.contains(x) <==> fe.contains(x) by {
        if fe.contains(x) {
            let i = choose|i: int| 0 <= i < fe.len() && fe[i] == x;
            s.lemma_filter_pred(prefix_of::<C, V>(k), i);
            s.lemma_filter_contains_rev(prefix_of::<C, V>(k), x);
            assert(s.contains((x.0, x.1)));
            assert(m.contains_key(x.0) && m[x.0] == x.1);
            assert(x.0.is_prefix_of(k));
            assert(stored_prefix(m, k, x.0));
            assert(pe.contains(x));
        }
        if pe.contains(x) {
            assert(stored_prefix(m, k, x.0) && m[x.0] == x.1);
            assert(s.contains((x.0, x.1)));
            let i = choose|i: int| 0 <= i < s.len() && s[i] == x;
            s.lemma_filter_contains(prefix_of::<C, V>(k), i);
        }
    }
    lemma_sorted_same(pe, fe);
}

/// `r` is the value of the longest key of `m` shorter than `j` that `k` starts
/// with, and `None` exactly when `m` holds no such key.
pub open spec fn longest_prefix_value<C, V>(m: Map<Seq<C>, V>, k: Seq<C>, j: nat, r: Option<V>) -> bool {
    match r {
        None => forall|p: Seq<C>| #[trigger] stored_prefix(m, k, p) ==> p.len() >= j,
        Some(v) => exists|p: Seq<C>| #[trigger] stored_prefix(m, k, p) && p.len() < j && m[p] == v
            && (forall|q: Seq<C>| #[trigger] stored_prefix(m, k, q) && q.len() < j ==> q.len() <= p.len()),
    }
}

/// The last of the stored prefixes of `k` shorter than `j` is the longest one.
pub proof fn lemma_longest_prefix<C, V>(m: Map<Seq<C>, V>, k: Seq<C>, j: nat)
    requires
        j <= k.len() + 1,
    ensures
        longest_prefix_value(m, k, j, last_value(prefix_entries(m, k, j))),
{
    let pe = prefix_entries(m, k, j);
    lemma_prefix_entries(m, k, j);
    if pe.len() == 0 {
        assert forall|p: Seq<C>| #[trigger] stored_prefix(m, k, p) implies p.len() >= j by {
            if p.len() < j {
                assert(pe.contains((p, m[p])));
            }
        }
    } else {
        let e = pe.last();
        assert(pe.contains(e));
        assert(stored_prefix(m, k, e.0) && e.0.len() < j && m[e.0] == e.1);
        assert forall|q: Seq<C>| #[trigger] stored_prefix(m, k, q) && q.len() < j implies q.len() <= e.0.len() by {
            assert(pe.contains((q, m[q])));
            let i = choose|i: int| 0 <= i < pe.len() && pe[i] == (q, m[q]);
            if i < pe.len() - 1 {
                assert(pe[i].0.len() < pe[pe.len() - 1].0.len());
            }
        }
    }
}

/// A well-formed subtree's entries list its map in ascending key order.
pub proof fn lemma_entries_model<C: Component, V>(n: Node<C, V>, root: bool)
    requires
        wf(n, root),
    ensures
        sorted(entries(n)),
        forall|x: (Seq<C>, V)| #[trigger] entries(n).contains(x) <==> (node_map(n).contains_key(x.0) && node_map(n)[x.0] == x.1),
{
    lemma_entries_sorted(n, root);
    assert forall|x: (Seq<C>, V)| #[trigger] entries(n).contains(x) <==> (node_map(n).contains_key(x.0) && node_map(n)[x.0] == x.1) by {
        lemma_lookup_entries(n, root, x.0, x.1);
    }
}

} // verus!
