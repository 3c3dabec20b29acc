//! Walks from the root to the subtrees that hold the keys under a given key, and to
//! the smallest and largest entries.

use vstd::prelude::*;
use crate::node::{
    Edge, Node, below, dup_key, edge_for, edges_entries, edges_ordered, entries, extend_key, first,
    lemma_edge_for, lemma_edges_entries_first, lemma_edges_entries_nonempty_keys,
    lemma_edges_entries_split, lemma_filter_all, lemma_filter_none, lemma_filter_shift,
    lemma_prefix_cancel, lemma_shift_shift, match_prefix, own_entries, shift, target, values_of, wf,
};
use crate::iter::{lemma_edges_skip, lemma_values_of_add, lemma_values_of_shift};
use crate::order::Component;

verus! {

/// The entries whose key starts with `r` (`inclusive`) or strictly extends it.
pub open spec fn under<C, V>(r: Seq<C>, inclusive: bool) -> spec_fn((Seq<C>, V)) -> bool {
    |e: (Seq<C>, V)| if inclusive {
        r.is_prefix_of(e.0)
    } else {
        below(r, e.0)
    }
}

/// The values of a list of subtrees, the first subtree first.
pub open spec fn forest_values<C, V>(s: Seq<&Node<C, V>>) -> Seq<V>
    decreases s.len(),
{
    if s.len() == 0 {
        Seq::empty()
    } else {
        forest_values(s.drop_last()) + values_of(entries(*s.last()))
    }
}

/// The entries of a list of subtrees paired with the keys of their roots, the first
/// subtree first.
pub open spec fn roots_entries<C, V>(s: Seq<(&Node<C, V>, Vec<C>)>) -> Seq<(Seq<C>, V)>
    decreases s.len(),
{
    if s.len() == 0 {
        Seq::empty()
    } else {
        roots_entries(s.drop_last()) + shift(s.last().1@, entries(*s.last().0))
    }
}

/// A common prefix does not change the test.
pub proof fn lemma_under_shift<C, V>(p: Seq<C>, r: Seq<C>, inclusive: bool)
    ensures
        forall|e: (Seq<C>, V)| #[trigger] under::<C, V>(r, inclusive)(e) == under::<C, V>(p + r, inclusive)((p + e.0, e.1)),
{
    assert forall|e: (Seq<C>, V)| #[trigger] under::<C, V>(r, inclusive)(e) == under::<C, V>(p + r, inclusive)((p + e.0, e.1)) by {
        lemma_prefix_cancel(p, r, e.0);
    }
}

/// A test that rejects every entry whose key is empty or starts away from `r[0]`
/// keeps only entries behind the edge for `r[0]`.
pub proof fn lemma_filter_only<C: Component, V>(n: Node<C, V>, r: Seq<C>, f: spec_fn((Seq<C>, V)) -> bool)
    requires
        edges_ordered(n.children@),
        r.len() > 0,
        forall|e: (Seq<C>, V)| (e.0.len() == 0 || e.0[0] != r[0]) ==> !#[trigger] f(e),
    ensures
        edge_for(n.children@, r[0]) < 0 ==> entries(n).filter(f) == Seq::<(Seq<C>, V)>::empty(),
        edge_for(n.children@, r[0]) >= 0 ==> entries(n).filter(f) == shift(
            n.children@[edge_for(n.children@, r[0])].label@,
            entries(target(n.children@[edge_for(n.children@, r[0])])),
        ).filter(f),
{
    let es = n.children@;
    let i = edge_for(es, r[0]);
    lemma_edge_for(es, r[0]);
    broadcast use Seq::filter_distributes_over_add;
    assert forall|m: int| 0 <= m < own_entries(n).len() implies !f(#[trigger] own_entries(n)[m]) by {
        assert(own_entries(n)[m].0.len() == 0);
    }
    lemma_filter_none(own_entries(n), f);
    if i < 0 {
        assert forall|j: int| 0 <= j < es.len() implies (#[trigger] es[j]).label@.len() > 0 && first(es[j]) != r[0] by {
        }
        lemma_edges_entries_first(es, r[0]);
        assert forall|m: int| 0 <= m < edges_entries(es).len() implies !f(#[trigger] edges_entries(es)[m]) by {
            let k = edges_entries(es)[m].0;
            assert(k[0] != r[0]);
        }
        lemma_filter_none(edges_entries(es), f);
        assert(entries(n).filter(f) =~= Seq::<(Seq<C>, V)>::empty());
    } else {
        lemma_edges_entries_split(es, i);
        let a = es.take(i);
        let b = es.skip(i + 1);
        C::lemma_strict_total_order();
        assert forall|j: int| 0 <= j < a.len() implies (#[trigger] a[j]).label@.len() > 0 && first(a[j]) != r[0] by {
            assert(a[j] == es[j]);
            assert(first(es[j]).comp_lt(first(es[i])));
        }
        assert forall|j: int| 0 <= j < b.len() implies (#[trigger] b[j]).label@.len() > 0 && first(b[j]) != r[0] by {
            assert(b[j] == es[i + 1 + j]);
            assert(first(es[i]).comp_lt(first(es[i + 1 + j])));
        }
        lemma_edges_entries_first(a, r[0]);
        lemma_edges_entries_first(b, r[0]);
        assert forall|m: int| 0 <= m < edges_entries(a).len() implies !f(#[trigger] edges_entries(a)[m]) by {
            assert(edges_entries(a)[m].0[0] != r[0]);
        }
        assert forall|m: int| 0 <= m < edges_entries(b).len() implies !f(#[trigger] edges_entries(b)[m]) by {
            assert(edges_entries(b)[m].0[0] != r[0]);
        }
        lemma_filter_none(edges_entries(a), f);
        lemma_filter_none(edges_entries(b), f);
        let mid = shift(es[i].label@, entries(target(es[i])));
        assert(entries(n).filter(f) == own_entries(n).filter(f) + edges_entries(a).filter(f) + mid.filter(f)
            + edges_entries(b).filter(f));
        assert(entries(n).filter(f) =~= mid.filter(f));
    }
}

/// A step of the walk towards `r`: a test under `r` keeps, of a node, only what
/// lies behind the edge for `r[0]`, and of that, what lies under the rest of `r`
/// when the label is a prefix of `r`, everything when `r` ends inside the label,
/// and nothing when the two diverge.
pub proof fn lemma_under_step<C: Component, V>(n: Node<C, V>, r: Seq<C>, inclusive: bool, i: int, shared: int)
    requires
        edges_ordered(n.children@),
        r.len() > 0,
        i == edge_for(n.children@, r[0]),
        0 <= i < n.children@.len(),
        0 <= shared <= n.children@[i].label@.len(),
        shared <= r.len(),
        forall|t: int| 0 <= t < shared ==> n.children@[i].label@[t] == r[t],
        shared < n.children@[i].label@.len() && shared < r.len() ==> n.children@[i].label@[shared] != r[shared],
    ensures
        shared == n.children@[i].label@.len() ==> entries(n).filter(under::<C, V>(r, inclusive)) == shift(
            n.children@[i].label@,
            entries(target(n.children@[i])).filter(under::<C, V>(r.skip(shared), inclusive)),
        ),
        shared < n.children@[i].label@.len() && shared == r.len() ==> entries(n).filter(
            under::<C, V>(r, inclusive),
        ) == shift(n.children@[i].label@, entries(target(n.children@[i]))),
        shared < n.children@[i].label@.len() && shared < r.len() ==> entries(n).filter(
            under::<C, V>(r, inclusive),
        ) == Seq::<(Seq<C>, V)>::empty(),
{
    let es = n.children@;
    let l = es[i].label@;
    let ce = entries(target(es[i]));
    let f = under::<C, V>(r, inclusive);
    lemma_edge_for(es, r[0]);
    assert forall|e: (Seq<C>, V)| (e.0.len() == 0 || e.0[0] != r[0]) implies !#[trigger] f(e) by {
        if e.0.len() > 0 {
            assert(r[0] != e.0[0]);
        }
    }
    lemma_filter_only(n, r, f);
    if shared == l.len() {
        let r2 = r.skip(shared);
        assert(r =~= l + r2);
        lemma_under_shift::<C, V>(l, r2, inclusive);
        lemma_filter_shift(l, ce, f, under::<C, V>(r2, inclusive));
    } else if shared == r.len() {
        assert forall|m: int| 0 <= m < shift(l, ce).len() implies f(#[trigger] shift(l, ce)[m]) by {
            let k = shift(l, ce)[m].0;
            assert(k == l + ce[m].0);
            assert forall|t: int| 0 <= t < r.len() implies r[t] == k[t] by {
                assert(k[t] == l[t]);
            }
        }
        lemma_filter_all(shift(l, ce), f);
    } else {
        assert forall|m: int| 0 <= m < shift(l, ce).len() implies !f(#[trigger] shift(l, ce)[m]) by {
            let k = shift(l, ce)[m].0;
            assert(k == l + ce[m].0);
            assert(k[shared] == l[shared]);
        }
        lemma_filter_none(shift(l, ce), f);
    }
}

/// The values stored under `r` (strictly, unless `inclusive`) in the subtree at `n`.
#[verifier::opaque]
pub open spec fn kept_values<C, V>(n: Node<C, V>, r: Seq<C>, inclusive: bool) -> Seq<V> {
    values_of(entries(n).filter(under::<C, V>(r, inclusive)))
}

/// The entries stored under `r` (strictly, unless `inclusive`) in the subtree at `n`.
#[verifier::opaque]
pub open spec fn kept<C, V>(n: Node<C, V>, r: Seq<C>, inclusive: bool) -> Seq<(Seq<C>, V)> {
    entries(n).filter(under::<C, V>(r, inclusive))
}

/// The entries kept by a step of the walk towards `r` (see `lemma_under_step`).
pub proof fn lemma_kept_step<C: Component, V>(n: Node<C, V>, r: Seq<C>, inclusive: bool, i: int, shared: int)
    requires
        edges_ordered(n.children@),
        r.len() > 0,
        i == edge_for(n.children@, r[0]),
        0 <= i < n.children@.len(),
        0 <= shared <= n.children@[i].label@.len(),
        shared <= r.len(),
        forall|t: int| 0 <= t < shared ==> n.children@[i].label@[t] == r[t],
        shared < n.children@[i].label@.len() && shared < r.len() ==> n.children@[i].label@[shared] != r[shared],
    ensures
        shared == n.children@[i].label@.len() ==> kept(n, r, inclusive) == shift(
            n.children@[i].label@,
            kept(target(n.children@[i]), r.skip(shared), inclusive),
        ),
        shared < n.children@[i].label@.len() && shared == r.len() ==> kept(n, r, inclusive) == shift(
            n.children@[i].label@,
            entries(target(n.children@[i])),
        ),
        shared < n.children@[i].label@.len() && shared < r.len() ==> kept(n, r, inclusive) == Seq::<
            (Seq<C>, V),
        >::empty(),
{
    reveal(kept);
    lemma_under_step(n, r, inclusive, i, shared);
}

/// A subtree below the root holds at least one entry.
pub proof fn lemma_wf_nonempty<C: Component, V>(n: Node<C, V>)
    requires
        wf(n, false),
    ensures
        entries(n).len() > 0,
    decreases n,
{
    if n.value is None {
        let es = n.children@;
        assert(wf(target(es[0]), false));
        lemma_wf_nonempty(target(es[0]));
        lemma_edges_skip(es, 0);
        assert(es.skip(0) =~= es);
    }
}

/// The values kept by a step of the walk towards `r` (see `lemma_under_step`).
pub proof fn lemma_values_step<C: Component, V>(n: Node<C, V>, r: Seq<C>, inclusive: bool, i: int, shared: int)
    requires
        edges_ordered(n.children@),
        r.len() > 0,
        i == edge_for(n.children@, r[0]),
        0 <= i < n.children@.len(),
        0 <= shared <= n.children@[i].label@.len(),
        shared <= r.len(),
        forall|t: int| 0 <= t < shared ==> n.children@[i].label@[t] == r[t],
        shared < n.children@[i].label@.len() && shared < r.len() ==> n.children@[i].label@[shared] != r[shared],
    ensures
        shared == n.children@[i].label@.len() ==> kept_values(n, r, inclusive) == kept_values(
            target(n.children@[i]),
            r.skip(shared),
            inclusive,
        ),
        shared < n.children@[i].label@.len() && shared == r.len() ==> kept_values(n, r, inclusive) == values_of(
            entries(target(n.children@[i])),
        ),
        shared < n.children@[i].label@.len() && shared < r.len() ==> kept_values(n, r, inclusive) == Seq::<
            V,
        >::empty(),
{
    reveal(kept_values);
    let es = n.children@;
    lemma_under_step(n, r, inclusive, i, shared);
    if shared == es[i].label@.len() {
        lemma_values_of_shift(es[i].label@, entries(target(es[i])).filter(under::<C, V>(r.skip(shared), inclusive)));
    } else if shared == r.len() {
        lemma_values_of_shift(es[i].label@, entries(target(es[i])));
    } else {
        assert(values_of(Seq::<(Seq<C>, V)>::empty()) =~= Seq::<V>::empty());
    }
}

/// The values behind a list of edges are those of their subtrees in order.
pub proof fn lemma_edges_values<C, V>(es: Seq<Edge<C, V>>, s: Seq<&Node<C, V>>)
    requires
        s.len() == es.len(),
        forall|j: int| 0 <= j < s.len() ==> *s[j] == target(#[trigger] es[j]),
    ensures
        values_of(edges_entries(es)) == forest_values(s),
    decreases s.len(),
{
    if s.len() > 0 {
        lemma_edges_values(es.drop_last(), s.drop_last());
        lemma_values_of_add(edges_entries(es.drop_last()), shift(es.last().label@, entries(target(es.last()))));
        lemma_values_of_shift(es.last().label@, entries(target(es.last())));
    } else {
        assert(values_of(edges_entries(es)) =~= forest_values(s));
    }
}

/// The entries behind a list of edges are those of their subtrees keyed by `key`
/// and the labels.
pub proof fn lemma_edges_roots<C, V>(key: Seq<C>, es: Seq<Edge<C, V>>, s: Seq<(&Node<C, V>, Vec<C>)>)
    requires
        s.len() == es.len(),
        forall|j: int| 0 <= j < s.len() ==> *(#[trigger] s[j]).0 == target(es[j]) && s[j].1@ == key + es[j].label@,
    ensures
        shift(key, edges_entries(es)) == roots_entries(s),
    decreases s.len(),
{
    if s.len() > 0 {
        lemma_edges_roots(key, es.drop_last(), s.drop_last());
        let l = es.last().label@;
        let ce = entries(target(es.last()));
        crate::iter::lemma_shift_add(key, edges_entries(es.drop_last()), shift(l, ce));
        lemma_shift_shift(key, l, ce);
        assert(s.last() == s[s.len() - 1]);
    } else {
        assert(shift(key, edges_entries(es)) =~= roots_entries(s));
    }
}

/// At the end of the key, the test keeps the node's own entry only when it is
/// inclusive, and every entry behind its edges.
pub proof fn lemma_under_end<C: Component, V>(n: Node<C, V>, r: Seq<C>, inclusive: bool)
    requires
        edges_ordered(n.children@),
        r.len() == 0,
    ensures
        !inclusive ==> entries(n).filter(under::<C, V>(r, inclusive)) == edges_entries(n.children@),
        inclusive ==> entries(n).filter(under::<C, V>(r, inclusive)) == entries(n),
{
    let f = under::<C, V>(r, inclusive);
    let es = n.children@;
    broadcast use Seq::filter_distributes_over_add;
    lemma_edges_entries_nonempty_keys(es);
    assert forall|m: int| 0 <= m < edges_entries(es).len() implies f(#[trigger] edges_entries(es)[m]) by {
        assert(r.is_prefix_of(edges_entries(es)[m].0));
    }
    lemma_filter_all(edges_entries(es), f);
    if inclusive {
        assert forall|m: int| 0 <= m < own_entries(n).len() implies f(#[trigger] own_entries(n)[m]) by {
            assert(r.is_prefix_of(own_entries(n)[m].0));
        }
        lemma_filter_all(own_entries(n), f);
    } else {
        assert forall|m: int| 0 <= m < own_entries(n).len() implies !f(#[trigger] own_entries(n)[m]) by {
        }
        lemma_filter_none(own_entries(n), f);
        assert(entries(n).filter(f) =~= edges_entries(es));
    }
}

/// The subtrees behind the edges of `n`, in order.
pub fn child_nodes<'a, C, V>(n: &'a Node<C, V>) -> (r: Vec<&'a Node<C, V>>)
    ensures
        r@.len() == n.children@.len(),
        forall|t: int| 0 <= t < r@.len() ==> *r@[t] == target(#[trigger] n.children@[t]),
{
    let mut out: Vec<&'a Node<C, V>> = Vec::with_capacity(n.children.len());
    let mut j: usize = 0;
    while j < n.children.len()
        invariant
            j <= n.children@.len(),
            out@.len() == j,
            forall|t: int| 0 <= t < j ==> *out@[t] == target(#[trigger] n.children@[t]),
        decreases n.children@.len() - j,
    {
        out.push(&*n.children[j].child);
        j = j + 1;
    }
    out
}

/// The entries of a list of subtrees whose roots sit at the keys `ks`, the first
/// subtree first.
pub open spec fn keyed_entries<C, V>(s: Seq<&Node<C, V>>, ks: Seq<Seq<C>>) -> Seq<(Seq<C>, V)>
    decreases s.len(),
{
    if s.len() == 0 || ks.len() == 0 {
        Seq::empty()
    } else {
        keyed_entries(s.drop_last(), ks.drop_last()) + shift(ks.last(), entries(*s.last()))
    }
}

/// The entries behind a list of edges are those of their subtrees keyed by `key`
/// and the labels.
pub proof fn lemma_edges_keyed<C, V>(key: Seq<C>, es: Seq<Edge<C, V>>, s: Seq<&Node<C, V>>, ks: Seq<Seq<C>>)
    requires
        s.len() == es.len(),
        ks.len() == es.len(),
        forall|j: int| 0 <= j < s.len() ==> *s[j] == target(#[trigger] es[j]) && ks[j] == key + es[j].label@,
    ensures
        shift(key, edges_entries(es)) == keyed_entries(s, ks),
    decreases s.len(),
{
    if s.len() > 0 {
        lemma_edges_keyed(key, es.drop_last(), s.drop_last(), ks.drop_last());
        let l = es.last().label@;
        let ce = entries(target(es.last()));
        crate::iter::lemma_shift_add(key, edges_entries(es.drop_last()), shift(l, ce));
        lemma_shift_shift(key, l, ce);
        assert(ks.last() == ks[ks.len() - 1]);
    } else {
        assert(shift(key, edges_entries(es)) =~= keyed_entries(s, ks));
    }
}

/// Keying the subtrees changes none of their values.
pub proof fn lemma_keyed_values<C, V>(s: Seq<&Node<C, V>>, ks: Seq<Seq<C>>)
    requires
        ks.len() == s.len(),
    ensures
        values_of(keyed_entries(s, ks)) == forest_values(s),
    decreases s.len(),
{
    if s.len() > 0 {
        lemma_keyed_values(s.drop_last(), ks.drop_last());
        lemma_values_of_add(keyed_entries(s.drop_last(), ks.drop_last()), shift(ks.last(), entries(*s.last())));
        lemma_values_of_shift(ks.last(), entries(*s.last()));
    } else {
        assert(values_of(keyed_entries(s, ks)) =~= forest_values(s));
    }
}

impl<C: Component, V> Node<C, V> {
    /// The subtrees, in ascending key order, whose entries are exactly those stored
    /// strictly under `key`, with (as ghost state) the keys their roots sit at.
    #[verifier::rlimit(40)]
    #[verifier::spinoff_prover]
    pub fn descendant_roots<'a>(&'a self, key: &[C]) -> (r: (Vec<&'a Node<C, V>>, Ghost<Seq<Seq<C>>>))
        requires
            wf(*self, true),
        ensures
            r.1@.len() == r.0@.len(),
            keyed_entries(r.0@, r.1@) == entries(*self).filter(under::<C, V>(key@, false)),
            forest_values(r.0@) == values_of(entries(*self).filter(under::<C, V>(key@, false))),
    {
        let ghost goal = kept(*self, key@, false);
        proof {
            reveal(kept);
        }
        let mut node = self;
        let mut pos: usize = 0;
        let ghost mut acc: Seq<C> = Seq::empty();
        let ghost mut root = true;
        assert(key@.skip(0) =~= key@);
        assert(key@.take(0) =~= acc);
        assert(shift(acc, goal) =~= goal);
        loop
            invariant
                wf(*node, root),
                pos <= key@.len(),
                acc == key@.take(pos as int),
                goal == entries(*self).filter(under::<C, V>(key@, false)),
                goal == shift(acc, kept(*node, key@.skip(pos as int), false)),
            decreases key@.len() - pos,
        {
            let ghost rest = key@.skip(pos as int);
            let ghost es = node.children@;
            if pos == key.len() {
                proof {
                    reveal(kept);
                    lemma_under_end(*node, rest, false);
                }
                let out = child_nodes(node);
                let ghost ks = Seq::new(es.len(), |t: int| acc + es[t].label@);
                proof {
                    lemma_edges_keyed(acc, es, out@, ks);
                    lemma_keyed_values(out@, ks);
                }
                return (out, Ghost(ks));
            }
            match node.child_index(&key[pos]) {
                Err(_) => {
                    proof {
                        reveal(kept);
                        lemma_filter_only(*node, rest, under::<C, V>(rest, false));
                        assert(shift(acc, Seq::<(Seq<C>, V)>::empty()) =~= Seq::<(Seq<C>, V)>::empty());
                        assert(keyed_entries(Seq::<&Node<C, V>>::empty(), Seq::<Seq<C>>::empty())
                            =~= Seq::<(Seq<C>, V)>::empty());
                        lemma_keyed_values(Seq::<&Node<C, V>>::empty(), Seq::<Seq<C>>::empty());
                    }
                    return (Vec::new(), Ghost(Seq::empty()));
                },
                Ok(i) => {
                    let edge = &node.children[i];
                    let shared = match_prefix(&edge.label, key, pos);
                    let ghost l = edge.label@;
                    let ghost ce = entries(target(es[i as int]));
                    proof {
                        lemma_kept_step(*node, rest, false, i as int, shared as int);
                        assert(wf(target(es[i as int]), false));
                    }
                    if shared == edge.label.len() {
                        proof {
                            assert(rest.skip(shared as int) =~= key@.skip(pos + shared));
                            lemma_shift_shift(acc, l, kept(target(es[i as int]), key@.skip(pos + shared), false));
                            assert(acc + l =~= key@.take(pos + shared)) by {
                                assert forall|t: int| 0 <= t < shared implies l[t] == key@[pos + t] by {
                                }
                            }
                            acc = acc + l;
                            root = false;
                        }
                        pos = pos + shared;
                        node = &*edge.child;
                    } else if pos + shared == key.len() {
                        let mut out: Vec<&'a Node<C, V>> = Vec::new();
                        out.push(&*edge.child);
                        let ghost ks = seq![acc + l];
                        proof {
                            lemma_shift_shift(acc, l, ce);
                            assert(out@.drop_last() =~= Seq::<&Node<C, V>>::empty());
                            assert(ks.drop_last() =~= Seq::<Seq<C>>::empty());
                            assert(keyed_entries(out@.drop_last(), ks.drop_last()) =~= Seq::<(Seq<C>, V)>::empty());
                            assert(*out@.last() == target(es[i as int]));
                            assert(keyed_entries(out@, ks) =~= goal);
                            lemma_keyed_values(out@, ks);
                        }
                        return (out, Ghost(ks));
                    } else {
                        proof {
                            assert(shift(acc, Seq::<(Seq<C>, V)>::empty()) =~= Seq::<(Seq<C>, V)>::empty());
                            assert(keyed_entries(Seq::<&Node<C, V>>::empty(), Seq::<Seq<C>>::empty())
                                =~= Seq::<(Seq<C>, V)>::empty());
                            lemma_keyed_values(Seq::<&Node<C, V>>::empty(), Seq::<Seq<C>>::empty());
                        }
                        return (Vec::new(), Ghost(Seq::empty()));
                    }
                },
            }
        }
    }
}

impl<C: Component, V> Node<C, V> {
    /// The subtree whose entries are exactly those stored at or under `key`, if any
    /// entry is.
    #[verifier::rlimit(40)]
    #[verifier::spinoff_prover]
    pub fn prefix_node<'a>(&'a self, key: &[C]) -> (r: Option<&'a Node<C, V>>)
        requires
            wf(*self, true),
        ensures
            match r {
                Some(n) => values_of(entries(*n)) == values_of(entries(*self).filter(under::<C, V>(key@, true))),
                None => values_of(entries(*self).filter(under::<C, V>(key@, true))) == Seq::<V>::empty(),
            },
    {
        let ghost target_values = kept_values(*self, key@, true);
        proof {
            reveal(kept_values);
        }
        let mut node = self;
        let mut pos: usize = 0;
        let ghost mut root = true;
        assert(key@.skip(0) =~= key@);
        loop
            invariant
                wf(*node, root),
                pos <= key@.len(),
                target_values == values_of(entries(*self).filter(under::<C, V>(key@, true))),
                target_values == kept_values(*node, key@.skip(pos as int), true),
            decreases key@.len() - pos,
        {
            let ghost rest = key@.skip(pos as int);
            let ghost es = node.children@;
            if pos == key.len() {
                proof {
                    reveal(kept_values);
                    lemma_under_end(*node, rest, true);
                }
                return Some(node);
            }
            match node.child_index(&key[pos]) {
                Err(_) => {
                    proof {
                        reveal(kept_values);
                        lemma_filter_only(*node, rest, under::<C, V>(rest, true));
                        assert(values_of(Seq::<(Seq<C>, V)>::empty()) =~= Seq::<V>::empty());
                    }
                    return None;
                },
                Ok(i) => {
                    let edge = &node.children[i];
                    let shared = match_prefix(&edge.label, key, pos);
                    proof {
                        lemma_values_step(*node, rest, true, i as int, shared as int);
                        assert(wf(target(es[i as int]), false));
                    }
                    if shared == edge.label.len() {
                        proof {
                            assert(rest.skip(shared as int) =~= key@.skip(pos + shared));
                        }
                        pos = pos + shared;
                        node = &*edge.child;
                        proof {
                            root = false;
                        }
                    } else if pos + shared == key.len() {
                        return Some(&*edge.child);
                    } else {
                        return None;
                    }
                },
            }
        }
    }

    /// The subtrees, with the keys of their roots and in ascending key order, whose
    /// entries are exactly those stored under `key`: at or under it when
    /// `inclusive`, strictly under it otherwise.
    #[verifier::rlimit(40)]
    #[verifier::spinoff_prover]
    pub fn prefix_seed<'a>(&'a self, key: &[C], inclusive: bool) -> (r: Vec<(&'a Node<C, V>, Vec<C>)>)
        requires
            wf(*self, true),
        ensures
            roots_entries(r@) == entries(*self).filter(under::<C, V>(key@, inclusive)),
            forall|j: int| 0 <= j < r@.len() ==> wf(*(#[trigger] r@[j]).0, false) || wf(*r@[j].0, true),
    {
        let ghost goal = kept(*self, key@, inclusive);
        proof {
            reveal(kept);
        }
        let mut node = self;
        let mut acc: Vec<C> = Vec::new();
        let mut pos: usize = 0;
        let ghost mut root = true;
        assert(key@.skip(0) =~= key@);
        assert(key@.take(0) =~= acc@);
        assert(shift(acc@, goal) =~= goal);
        loop
            invariant
                wf(*node, root),
                pos <= key@.len(),
                acc@ == key@.take(pos as int),
                goal == entries(*self).filter(under::<C, V>(key@, inclusive)),
                goal == shift(acc@, kept(*node, key@.skip(pos as int), inclusive)),
            decreases key@.len() - pos,
        {
            let ghost rest = key@.skip(pos as int);
            let ghost es = node.children@;
            if pos == key.len() {
                proof {
                    reveal(kept);
                    lemma_under_end(*node, rest, inclusive);
                }
                if inclusive {
                    let mut out: Vec<(&'a Node<C, V>, Vec<C>)> = Vec::new();
                    out.push((node, acc));
                    proof {
                        assert(out@.drop_last() =~= Seq::<(&Node<C, V>, Vec<C>)>::empty());
                        assert(roots_entries(out@.drop_last()) =~= Seq::<(Seq<C>, V)>::empty());
                        assert(out@.last() == out@[0]);
                        assert(roots_entries(out@) =~= goal);
                    }
                    return out;
                }
                let mut out: Vec<(&'a Node<C, V>, Vec<C>)> = Vec::with_capacity(node.children.len());
                let mut j: usize = 0;
                while j < node.children.len()
                    invariant
                        es == node.children@,
                        j <= es.len(),
                        out@.len() == j,
                        forall|t: int| 0 <= t < j ==> *(#[trigger] out@[t]).0 == target(es[t]) && out@[t].1@ == acc@
                            + es[t].label@,
                        forall|t: int| 0 <= t < j ==> wf(*(#[trigger] out@[t]).0, false),
                        wf(*node, root),
                    decreases es.len() - j,
                {
                    let edge = &node.children[j];
                    let mut k = dup_key(acc.as_slice());
                    extend_key(&mut k, edge.label.as_slice());
                    proof {
                        assert(wf(target(es[j as int]), false));
                    }
                    out.push((&*edge.child, k));
                    j = j + 1;
                }
                proof {
                    lemma_edges_roots(acc@, es, out@);
                }
                return out;
            }
            match node.child_index(&key[pos]) {
                Err(_) => {
                    proof {
                        reveal(kept);
                        lemma_filter_only(*node, rest, under::<C, V>(rest, inclusive));
                        assert(shift(acc@, Seq::<(Seq<C>, V)>::empty()) =~= Seq::<(Seq<C>, V)>::empty());
                        assert(roots_entries(Seq::<(&Node<C, V>, Vec<C>)>::empty()) =~= Seq::<(Seq<C>, V)>::empty());
                    }
                    return Vec::new();
                },
                Ok(i) => {
                    let edge = &node.children[i];
                    let shared = match_prefix(&edge.label, key, pos);
                    let ghost l = edge.label@;
                    let ghost ce = entries(target(es[i as int]));
                    proof {
                        lemma_kept_step(*node, rest, inclusive, i as int, shared as int);
                        assert(wf(target(es[i as int]), false));
                    }
                    if shared == edge.label.len() {
                        proof {
                            assert(rest.skip(shared as int) =~= key@.skip(pos + shared));
                            lemma_shift_shift(acc@, l, kept(target(es[i as int]), key@.skip(pos + shared), inclusive));
                            assert(acc@ + l =~= key@.take(pos + shared)) by {
                                assert forall|t: int| 0 <= t < shared implies l[t] == key@[pos + t] by {
                                }
                            }
                        }
                        extend_key(&mut acc, edge.label.as_slice());
                        pos = pos + shared;
                        node = &*edge.child;
                        proof {
                            root = false;
                        }
                    } else if pos + shared == key.len() {
                        let mut k = dup_key(acc.as_slice());
                        extend_key(&mut k, edge.label.as_slice());
                        let mut out: Vec<(&'a Node<C, V>, Vec<C>)> = Vec::new();
                        out.push((&*edge.child, k));
                        proof {
                            lemma_shift_shift(acc@, l, ce);
                            assert(out@.drop_last() =~= Seq::<(&Node<C, V>, Vec<C>)>::empty());
                            assert(roots_entries(out@.drop_last()) =~= Seq::<(Seq<C>, V)>::empty());
                            assert(out@.last() == out@[0]);
                            assert(roots_entries(out@) =~= goal);
                        }
                        return out;
                    } else {
                        proof {
                            assert(shift(acc@, Seq::<(Seq<C>, V)>::empty()) =~= Seq::<(Seq<C>, V)>::empty());
                            assert(roots_entries(Seq::<(&Node<C, V>, Vec<C>)>::empty()) =~= Seq::<(Seq<C>, V)>::empty());
                        }
                        return Vec::new();
                    }
                },
            }
        }
    }

    /// The entry with the smallest key in this subtree, with its key rebuilt.
    pub fn minimum<'a>(&'a self) -> (r: Option<(Vec<C>, &'a V)>)
        requires
            wf(*self, true),
        ensures
            r is None <==> entries(*self).len() == 0,
            r matches Some(e) ==> (e.0@, *e.1) == entries(*self)[0],
    {
        let mut node = self;
        let mut key: Vec<C> = Vec::new();
        let ghost mut root = true;
        assert(shift(key@, entries(*self)) =~= entries(*self)) by {
            assert forall|m: int| 0 <= m < entries(*self).len() implies key@ + entries(*self)[m].0 =~= entries(*self)[m].0 by {
            }
        }
        loop
            invariant
                wf(*node, root),
                root ==> key@.len() == 0 && node == self,
                !root ==> entries(*node).len() > 0,
                entries(*self).len() > 0 <==> entries(*node).len() > 0,
                entries(*node).len() > 0 ==> entries(*self)[0] == shift(key@, entries(*node))[0],
            decreases *node,
        {
            match &node.value {
                Some(v) => {
                    proof {
                        assert(key@ + Seq::<C>::empty() =~= key@);
                    }
                    return Some((key, &**v));
                },
                None => {},
            }
            if node.children.len() == 0 {
                proof {
                    assert(entries(*node) =~= Seq::<(Seq<C>, V)>::empty());
                }
                return None;
            }
            let edge = &node.children[0];
            let ghost es = node.children@;
            proof {
                assert(wf(target(es[0]), false));
                lemma_wf_nonempty(target(es[0]));
                lemma_edges_skip(es, 0);
                assert(es.skip(0) =~= es);
                assert(entries(*node) =~= shift(es[0].label@, entries(target(es[0]))) + edges_entries(es.skip(1)));
                lemma_shift_shift(key@, es[0].label@, entries(target(es[0])));
            }
            extend_key(&mut key, edge.label.as_slice());
            node = &*edge.child;
            proof {
                root = false;
            }
        }
    }

    /// The entry with the largest key in this subtree, with its key rebuilt.
    pub fn maximum<'a>(&'a self) -> (r: Option<(Vec<C>, &'a V)>)
        requires
            wf(*self, true),
        ensures
            r is None <==> entries(*self).len() == 0,
            r matches Some(e) ==> (e.0@, *e.1) == entries(*self).last(),
    {
        let mut node = self;
        let mut key: Vec<C> = Vec::new();
        let ghost mut root = true;
        assert(shift(key@, entries(*self)) =~= entries(*self)) by {
            assert forall|m: int| 0 <= m < entries(*self).len() implies key@ + entries(*self)[m].0 =~= entries(*self)[m].0 by {
            }
        }
        loop
            invariant
                wf(*node, root),
                root ==> key@.len() == 0 && node == self,
                !root ==> entries(*node).len() > 0,
                entries(*self).len() > 0 <==> entries(*node).len() > 0,
                entries(*node).len() > 0 ==> entries(*self).last() == shift(key@, entries(*node)).last(),
            decreases *node,
        {
            let n = node.children.len();
            if n == 0 {
                proof {
                    assert(edges_entries(node.children@) =~= Seq::<(Seq<C>, V)>::empty());
                    assert(entries(*node) =~= own_entries(*node));
                }
                return match &node.value {
                    Some(v) => {
                        proof {
                            assert(key@ + Seq::<C>::empty() =~= key@);
                        }
                        Some((key, &**v))
                    },
                    None => None,
                };
            }
            let edge = &node.children[n - 1];
            let ghost es = node.children@;
            proof {
                assert(es.last() == es[n - 1]);
                assert(wf(target(es[n - 1]), false));
                lemma_wf_nonempty(target(es[n - 1]));
                lemma_shift_shift(key@, es[n - 1].label@, entries(target(es[n - 1])));
            }
            extend_key(&mut key, edge.label.as_slice());
            node = &*edge.child;
            proof {
                root = false;
            }
        }
    }
}

} // verus!
