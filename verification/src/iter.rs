//! Lazy cursors over the node graph.
//!
//! Each cursor keeps an explicit depth-first stack of subtrees still to visit and
//! expands one subtree per step, so building a cursor costs no more than the walk
//! down to its first subtree. A cursor's model is the sequence of items it has
//! still to yield: the stack read from the top down, each subtree contributing its
//! entries in key order (or in reverse key order for the reverse cursors).

use vstd::prelude::*;
use crate::node::{
    Edge, Node, dup_key, edges_entries, edges_ordered, entries, extend_key, first, lemma_edges_entries_append,
    lemma_edges_entries_from, lemma_edges_entries_split, lemma_filter_all, lemma_filter_none,
    lemma_filter_shift, lemma_shift_shift, match_prefix, own_entries, shift, sorted, target, values_of, wf,
};
use crate::order::{
    Component, Order, compare_keys, key_le, key_lt, lemma_comp_asym, lemma_key_lt_asym,
    lemma_key_lt_first, lemma_key_lt_irreflexive, lemma_key_lt_prefix, lemma_key_lt_proper_prefix,
    lemma_key_lt_total, lemma_key_lt_transitive,
};

verus! {

/// The number of nodes in the subtree at `n`.
pub open spec fn size<C, V>(n: Node<C, V>) -> nat
    decreases n,
{
    1 + edges_size(n.children@)
}

/// The number of nodes behind a list of edges.
pub open spec fn edges_size<C, V>(es: Seq<Edge<C, V>>) -> nat
    decreases es,
{
    if es.len() == 0 {
        0
    } else {
        edges_size(es.drop_last()) + size(target(es.last()))
    }
}

/// Edge `i` followed by the edges after it.
pub proof fn lemma_edges_skip<C, V>(es: Seq<Edge<C, V>>, i: int)
    requires
        0 <= i < es.len(),
    ensures
        edges_entries(es.skip(i)) == shift(es[i].label@, entries(target(es[i]))) + edges_entries(
            es.skip(i + 1),
        ),
        edges_size(es.skip(i)) == size(target(es[i])) + edges_size(es.skip(i + 1)),
    decreases es.len() - i,
{
    if i + 1 == es.len() {
        let s = es.skip(i);
        assert(s.drop_last() =~= Seq::<Edge<C, V>>::empty());
        assert(es.skip(i + 1) =~= Seq::<Edge<C, V>>::empty());
        assert(edges_entries(s) =~= shift(es[i].label@, entries(target(es[i]))) + edges_entries(
            es.skip(i + 1),
        ));
    } else {
        let s = es.skip(i);
        let d = es.drop_last();
        lemma_edges_skip(d, i);
        assert(s.drop_last() =~= d.skip(i));
        assert(es.skip(i + 1).drop_last() =~= d.skip(i + 1));
        assert(s.last() == es.last());
        assert(es.skip(i + 1).last() == es.last());
        assert(edges_entries(s) =~= shift(es[i].label@, entries(target(es[i]))) + edges_entries(
            es.skip(i + 1),
        ));
    }
}

/// The values of a concatenation are the concatenation of the values.
pub proof fn lemma_values_of_add<C, V>(a: Seq<(Seq<C>, V)>, b: Seq<(Seq<C>, V)>)
    ensures
        values_of(a + b) == values_of(a) + values_of(b),
{
    assert(values_of(a + b) =~= values_of(a) + values_of(b));
}

/// Moving entries under a prefix keeps their values.
pub proof fn lemma_values_of_shift<C, V>(p: Seq<C>, s: Seq<(Seq<C>, V)>)
    ensures
        values_of(shift(p, s)) == values_of(s),
{
    assert(values_of(shift(p, s)) =~= values_of(s));
}

/// The values of a stack of subtrees, read from the top (the last element) down.
pub open spec fn stack_values<C, V>(s: Seq<&Node<C, V>>) -> Seq<V>
    decreases s.len(),
{
    if s.len() == 0 {
        Seq::empty()
    } else {
        values_of(entries(*s.last())) + stack_values(s.drop_last())
    }
}

/// The number of nodes still to expand on a stack of subtrees.
pub open spec fn stack_size<C, V>(s: Seq<&Node<C, V>>) -> nat
    decreases s.len(),
{
    if s.len() == 0 {
        0
    } else {
        size(*s.last()) + stack_size(s.drop_last())
    }
}

/// A cursor over the values of a forest of subtrees, in ascending key order.
pub struct ValueIter<'a, C, V> {
    stack: Vec<&'a Node<C, V>>,
}

impl<'a, C, V> View for ValueIter<'a, C, V> {
    type V = Seq<V>;

    /// The values still to be yielded, in order.
    closed spec fn view(&self) -> Seq<V> {
        stack_values(self.stack@)
    }
}

impl<'a, C, V> ValueIter<'a, C, V> {
    /// A cursor that yields nothing.
    pub fn empty() -> (r: Self)
        ensures
            r@ == Seq::<V>::empty(),
    {
        ValueIter { stack: Vec::new() }
    }

    /// A cursor over the given subtrees; the last one is visited first.
    pub fn from_stack(stack: Vec<&'a Node<C, V>>) -> (r: Self)
        ensures
            r@ == stack_values(stack@),
    {
        ValueIter { stack }
    }

    /// Yields the next value, in ascending key order.
    pub fn next(&mut self) -> (r: Option<&'a V>)
        ensures
            r is None <==> old(self)@.len() == 0,
            r is None ==> final(self)@ == old(self)@,
            r matches Some(v) ==> *v == old(self)@[0] && final(self)@ == old(self)@.drop_first(),
    {
        let ghost start = self@;
        loop
            invariant
                stack_values(self.stack@) == start,
                start == old(self)@,
            decreases stack_size(self.stack@),
        {
            let ghost before = self.stack@;
            match self.stack.pop() {
                None => {
                    return None;
                },
                Some(node) => {
                    let ghost base = self.stack@;
                    let ghost es = node.children@;
                    assert(base == before.drop_last());
                    let mut j: usize = node.children.len();
                    assert(es.skip(j as int) =~= Seq::<Edge<C, V>>::empty());
                    while j > 0
                        invariant
                            es == node.children@,
                            j <= es.len(),
                            stack_values(self.stack@) == values_of(edges_entries(es.skip(j as int)))
                                + stack_values(base),
                            stack_size(self.stack@) == edges_size(es.skip(j as int)) + stack_size(base),
                        decreases j,
                    {
                        j = j - 1;
                        let child: &'a Node<C, V> = &*node.children[j].child;
                        let ghost prev = self.stack@;
                        self.stack.push(child);
                        proof {
                            assert(self.stack@.drop_last() == prev);
                            lemma_edges_skip(es, j as int);
                            lemma_values_of_add(
                                shift(es[j as int].label@, entries(target(es[j as int]))),
                                edges_entries(es.skip(j + 1)),
                            );
                            lemma_values_of_shift(es[j as int].label@, entries(target(es[j as int])));
                        }
                    }
                    proof {
                        assert(es.skip(0) =~= es);
                        lemma_values_of_add(own_entries(*node), edges_entries(es));
                    }
                    match &node.value {
                        Some(v) => {
                            return Some(&**v);
                        },
                        None => {
                            assert(values_of(own_entries(*node)) =~= Seq::<V>::empty());
                        },
                    }
                },
            }
        }
    }
}

/// One end of a key range.
#[derive(Clone, Copy, Debug)]
pub enum Bound<T> {
    Included(T),
    Excluded(T),
    Unbounded,
}

/// The keys of a bound, as sequences.
pub open spec fn bound_view<C>(b: Bound<Vec<C>>) -> Bound<Seq<C>> {
    match b {
        Bound::Included(k) => Bound::Included(k@),
        Bound::Excluded(k) => Bound::Excluded(k@),
        Bound::Unbounded => Bound::Unbounded,
    }
}

/// `k` lies at or below the upper end `b`.
pub open spec fn within_upper<C: Component>(b: Bound<Seq<C>>, k: Seq<C>) -> bool {
    match b {
        Bound::Included(u) => key_le(k, u),
        Bound::Excluded(u) => key_lt(k, u),
        Bound::Unbounded => true,
    }
}

/// `k` lies at or above the lower end `b`.
pub open spec fn within_lower<C: Component>(b: Bound<Seq<C>>, k: Seq<C>) -> bool {
    match b {
        Bound::Included(l) => key_le(l, k),
        Bound::Excluded(l) => key_lt(l, k),
        Bound::Unbounded => true,
    }
}

/// The entries whose key lies at or below `b`.
pub open spec fn upper_test<C: Component, V>(b: Bound<Seq<C>>) -> spec_fn((Seq<C>, V)) -> bool {
    |e: (Seq<C>, V)| within_upper(b, e.0)
}

/// The entries whose key lies at or above `b`.
pub open spec fn lower_test<C: Component, V>(b: Bound<Seq<C>>) -> spec_fn((Seq<C>, V)) -> bool {
    |e: (Seq<C>, V)| within_lower(b, e.0)
}

/// Past the upper end, every larger key is past it too.
pub proof fn lemma_upper_mono<C: Component>(b: Bound<Seq<C>>, x: Seq<C>, y: Seq<C>)
    requires
        key_lt(x, y),
        !within_upper(b, x),
    ensures
        !within_upper(b, y),
{
    match b {
        Bound::Included(u) => {
            lemma_key_lt_total(x, u);
            lemma_key_lt_transitive(u, x, y);
            lemma_key_lt_asym(u, y);
            lemma_key_lt_irreflexive(y);
        },
        Bound::Excluded(u) => {
            if x != u {
                lemma_key_lt_total(x, u);
                lemma_key_lt_transitive(u, x, y);
            }
            lemma_key_lt_asym(u, y);
        },
        Bound::Unbounded => {},
    }
}

/// Below the lower end, every smaller key is below it too.
pub proof fn lemma_lower_mono<C: Component>(b: Bound<Seq<C>>, x: Seq<C>, y: Seq<C>)
    requires
        key_lt(y, x),
        !within_lower(b, x),
    ensures
        !within_lower(b, y),
{
    match b {
        Bound::Included(l) => {
            lemma_key_lt_total(x, l);
            lemma_key_lt_transitive(y, x, l);
            lemma_key_lt_asym(y, l);
            lemma_key_lt_irreflexive(y);
        },
        Bound::Excluded(l) => {
            if x != l {
                lemma_key_lt_total(x, l);
                lemma_key_lt_transitive(y, x, l);
            }
            lemma_key_lt_asym(y, l);
        },
        Bound::Unbounded => {},
    }
}

/// A step of a keyed cursor: a subtree still to expand, with the key of its root,
/// or an entry ready to be yielded.
pub enum RangeFrame<'a, C, V> {
    Subtree { node: &'a Node<C, V>, key: Vec<C> },
    Item { key: Vec<C>, value: &'a V },
}

/// The entries a frame stands for, in ascending key order.
pub open spec fn frame_entries<'a, C, V>(f: RangeFrame<'a, C, V>) -> Seq<(Seq<C>, V)> {
    match f {
        RangeFrame::Subtree { node, key } => shift(key@, entries(*node)),
        RangeFrame::Item { key, value } => seq![(key@, *value)],
    }
}

/// The entries of a stack of frames, read from the top (the last element) down,
/// each frame in ascending key order.
pub open spec fn frames_entries<'a, C, V>(s: Seq<RangeFrame<'a, C, V>>) -> Seq<(Seq<C>, V)>
    decreases s.len(),
{
    if s.len() == 0 {
        Seq::empty()
    } else {
        frame_entries(s.last()) + frames_entries(s.drop_last())
    }
}

/// The work left in a frame.
pub open spec fn frame_weight<'a, C, V>(f: RangeFrame<'a, C, V>) -> nat {
    match f {
        RangeFrame::Subtree { node, .. } => 2 * size(*node),
        RangeFrame::Item { .. } => 1,
    }
}

/// The work left on a stack of frames.
pub open spec fn frames_weight<'a, C, V>(s: Seq<RangeFrame<'a, C, V>>) -> nat
    decreases s.len(),
{
    if s.len() == 0 {
        0
    } else {
        frame_weight(s.last()) + frames_weight(s.drop_last())
    }
}

/// Moving entries under a prefix distributes over concatenation.
pub proof fn lemma_shift_add<C, V>(p: Seq<C>, a: Seq<(Seq<C>, V)>, b: Seq<(Seq<C>, V)>)
    ensures
        shift(p, a + b) == shift(p, a) + shift(p, b),
{
    assert(shift(p, a + b) =~= shift(p, a) + shift(p, b));
}

/// Filtering a sequence that starts with `x`.
pub proof fn lemma_filter_cons<A>(x: A, s: Seq<A>, f: spec_fn(A) -> bool)
    ensures
        (seq![x] + s).filter(f) == if f(x) {
            seq![x] + s.filter(f)
        } else {
            s.filter(f)
        },
{
    broadcast use Seq::filter_distributes_over_add;
    reveal(Seq::filter);
    let e = Seq::<A>::empty();
    assert(seq![x].drop_last() =~= e);
    assert(e.filter(f) =~= e);
    if f(x) {
        assert(seq![x].filter(f) =~= seq![x]);
    } else {
        assert(seq![x].filter(f) =~= e);
    }
    assert((seq![x] + s).filter(f) == seq![x].filter(f) + s.filter(f));
    assert(e + s.filter(f) =~= s.filter(f));
}

/// Pushes one frame per edge of `es` from index `from` on, largest first, each keyed
/// by `key` and its label; afterwards the frames stand for those edges' entries in
/// ascending order, above what was on the stack.
pub fn push_edges<'a, C: Component, V>(
    stack: &mut Vec<RangeFrame<'a, C, V>>,
    node: &'a Node<C, V>,
    key: &Vec<C>,
    from: usize,
)
    requires
        from <= node.children@.len(),
    ensures
        frames_entries(final(stack)@) == shift(key@, edges_entries(node.children@.skip(from as int)))
            + frames_entries(old(stack)@),
        frames_weight(final(stack)@) == 2 * edges_size(node.children@.skip(from as int)) + frames_weight(
            old(stack)@,
        ),
{
    let ghost es = node.children@;
    let ghost base = stack@;
    let mut j: usize = node.children.len();
    assert(es.skip(j as int) =~= Seq::<Edge<C, V>>::empty());
    assert(shift(key@, Seq::<(Seq<C>, V)>::empty()) =~= Seq::<(Seq<C>, V)>::empty());
    while j > from
        invariant
            es == node.children@,
            from <= j <= es.len(),
            frames_entries(stack@) == shift(key@, edges_entries(es.skip(j as int))) + frames_entries(base),
            frames_weight(stack@) == 2 * edges_size(es.skip(j as int)) + frames_weight(base),
        decreases j,
    {
        j = j - 1;
        let edge = &node.children[j];
        let mut child_key = dup_key(key.as_slice());
        extend_key(&mut child_key, edge.label.as_slice());
        let ghost prev = stack@;
        stack.push(RangeFrame::Subtree { node: &*edge.child, key: child_key });
        proof {
            assert(stack@.drop_last() == prev);
            let l = es[j as int].label@;
            let ce = entries(target(es[j as int]));
            lemma_edges_skip(es, j as int);
            lemma_shift_add(key@, shift(l, ce), edges_entries(es.skip(j + 1)));
            lemma_shift_shift(key@, l, ce);
        }
    }
}

/// A cursor over `(key, value)` entries in ascending key order, up to an upper end.
pub struct RangeIter<'a, C, V> {
    stack: Vec<RangeFrame<'a, C, V>>,
    upper: Bound<Vec<C>>,
    done: bool,
}

impl<'a, C: Component, V> View for RangeIter<'a, C, V> {
    type V = Seq<(Seq<C>, V)>;

    /// The entries still to be yielded, in order.
    closed spec fn view(&self) -> Seq<(Seq<C>, V)> {
        if self.done {
            Seq::empty()
        } else {
            frames_entries(self.stack@).filter(upper_test::<C, V>(bound_view(self.upper)))
        }
    }
}

impl<'a, C: Component, V> RangeIter<'a, C, V> {
    /// The cursor's invariant: its pending entries are in ascending key order.
    pub closed spec fn wf(&self) -> bool {
        sorted(frames_entries(self.stack@))
    }

    /// A cursor over the entries of the given frames (the last frame first) that lie
    /// at or below `upper`.
    pub fn from_frames(stack: Vec<RangeFrame<'a, C, V>>, upper: Bound<Vec<C>>) -> (r: Self)
        requires
            sorted(frames_entries(stack@)),
        ensures
            r.wf(),
            r@ == frames_entries(stack@).filter(upper_test::<C, V>(bound_view(upper))),
    {
        RangeIter { stack, upper, done: false }
    }

    /// Yields the next entry, with its key rebuilt, in ascending key order.
    pub fn next(&mut self) -> (r: Option<(Vec<C>, &'a V)>)
        requires
            old(self).wf(),
        ensures
            final(self).wf(),
            r is None <==> old(self)@.len() == 0,
            r is None ==> final(self)@ == old(self)@,
            r matches Some(e) ==> (e.0@, *e.1) == old(self)@[0] && final(self)@ == old(self)@.drop_first(),
    {
        if self.done {
            return None;
        }
        let ghost start = frames_entries(self.stack@);
        let ghost f = upper_test::<C, V>(bound_view(self.upper));
        loop
            invariant
                !self.done,
                frames_entries(self.stack@) == start,
                sorted(start),
                f == upper_test::<C, V>(bound_view(self.upper)),
                old(self)@ == start.filter(f),
            decreases frames_weight(self.stack@),
        {
            let ghost before = self.stack@;
            match self.stack.pop() {
                None => {
                    self.done = true;
                    proof {
                        assert(start =~= Seq::<(Seq<C>, V)>::empty());
                        assert(start.filter(f) =~= Seq::<(Seq<C>, V)>::empty()) by {
                            reveal(Seq::filter);
                        }
                    }
                    return None;
                },
                Some(RangeFrame::Subtree { node, key }) => {
                    let ghost base = self.stack@;
                    assert(base == before.drop_last());
                    push_edges(&mut self.stack, node, &key, 0);
                    proof {
                        assert(node.children@.skip(0) =~= node.children@);
                        lemma_shift_add(key@, own_entries(*node), edges_entries(node.children@));
                    }
                    match &node.value {
                        Some(v) => {
                            let ghost mid = self.stack@;
                            self.stack.push(RangeFrame::Item { key, value: &**v });
                            proof {
                                assert(self.stack@.drop_last() == mid);
                                assert(key@ + Seq::<C>::empty() =~= key@);
                                assert(shift(key@, own_entries(*node)) =~= seq![(key@, **v)]);
                            }
                        },
                        None => {
                            assert(shift(key@, own_entries(*node)) =~= Seq::<(Seq<C>, V)>::empty());
                        },
                    }
                },
                Some(RangeFrame::Item { key, value }) => {
                    assert(self.stack@ == before.drop_last());
                    let ghost rest = frames_entries(self.stack@);
                    assert(start == seq![(key@, *value)] + rest);
                    proof {
                        lemma_filter_cons((key@, *value), rest, f);
                    }
                    let within = match &self.upper {
                        Bound::Unbounded => true,
                        Bound::Included(ub) => match compare_keys(key.as_slice(), ub.as_slice()) {
                            Order::Greater => false,
                            _ => true,
                        },
                        Bound::Excluded(ub) => match compare_keys(key.as_slice(), ub.as_slice()) {
                            Order::Less => true,
                            _ => false,
                        },
                    };
                    if within {
                        proof {
                            assert forall|i: int, j: int| 0 <= i < j < rest.len() implies key_lt(
                                #[trigger] rest[i].0,
                                #[trigger] rest[j].0,
                            ) by {
                                assert(rest[i] == start[i + 1]);
                                assert(rest[j] == start[j + 1]);
                            }
                        }
                        return Some((key, value));
                    }
                    self.done = true;
                    self.stack.clear();
                    proof {
                        assert forall|m: int| 0 <= m < rest.len() implies !f(#[trigger] rest[m]) by {
                            assert(rest[m] == start[m + 1]);
                            assert(key_lt(start[0].0, start[m + 1].0));
                            lemma_upper_mono(bound_view(self.upper), key@, rest[m].0);
                        }
                        crate::node::lemma_filter_none(rest, f);
                        assert(frames_entries(self.stack@) =~= Seq::<(Seq<C>, V)>::empty());
                    }
                    return None;
                },
            }
        }
    }
}

/// The entries whose key is at least `l` (`inc`) or strictly above it.
pub open spec fn at_least<C: Component, V>(l: Seq<C>, inc: bool) -> spec_fn((Seq<C>, V)) -> bool {
    |e: (Seq<C>, V)| if inc {
        key_le(l, e.0)
    } else {
        key_lt(l, e.0)
    }
}

/// Every key behind a run of edges starts with the first component of one of them.
pub proof fn lemma_edges_keys<C: Component, V>(es: Seq<Edge<C, V>>, m: int) -> (w: int)
    requires
        edges_ordered(es),
        0 <= m < edges_entries(es).len(),
    ensures
        0 <= w < es.len(),
        edges_entries(es)[m].0.len() > 0,
        edges_entries(es)[m].0[0] == first(es[w]),
{
    let r = lemma_edges_entries_from(es, m);
    assert(es[r.0].label@.len() > 0);
    r.0
}

/// Keys that start below (above) `s[0]` sort below (above) `s`.
pub proof fn lemma_first_decides<C: Component>(s: Seq<C>, k: Seq<C>)
    requires
        s.len() > 0,
        k.len() > 0,
        k[0] != s[0],
    ensures
        k[0].comp_lt(s[0]) ==> key_lt(k, s) && !key_le(s, k),
        s[0].comp_lt(k[0]) ==> key_lt(s, k),
{
    lemma_key_lt_first(k, s);
    lemma_key_lt_first(s, k);
    lemma_key_lt_asym(k, s);
}

/// Seeding splits a node's entries by the first component of the lower end `s`:
/// the node's own entry and the edges below `s[0]` fall short of it, the edges above
/// it pass, and only the edge for `s[0]` (if `matched`) needs a closer look.
pub proof fn lemma_seed_split<C: Component, V>(n: Node<C, V>, s: Seq<C>, inc: bool, i: int, matched: bool)
    requires
        edges_ordered(n.children@),
        s.len() > 0,
        0 <= i <= n.children@.len(),
        matched ==> i < n.children@.len() && first(n.children@[i]) == s[0],
        forall|j: int| 0 <= j < i ==> (#[trigger] first(n.children@[j])).comp_lt(s[0]),
        forall|j: int|
            (if matched { i + 1 } else { i }) <= j < n.children@.len() ==> s[0].comp_lt(
                #[trigger] first(n.children@[j]),
            ),
    ensures
        entries(n).filter(at_least::<C, V>(s, inc)) == (if matched {
            shift(n.children@[i].label@, entries(target(n.children@[i]))).filter(at_least::<C, V>(s, inc))
        } else {
            Seq::empty()
        }) + edges_entries(n.children@.skip(if matched { i + 1 } else { i })),
{
    let es = n.children@;
    let g = at_least::<C, V>(s, inc);
    let gt = if matched { i + 1 } else { i };
    let a = es.take(i);
    let b = es.skip(gt);
    broadcast use Seq::filter_distributes_over_add;
    C::lemma_strict_total_order();
    assert forall|m: int| 0 <= m < own_entries(n).len() implies !g(#[trigger] own_entries(n)[m]) by {
        assert(own_entries(n)[m].0.len() == 0);
        assert(s != own_entries(n)[m].0);
    }
    lemma_filter_none(own_entries(n), g);
    assert(edges_ordered(a)) by {
        assert forall|j: int| 0 <= j < a.len() implies (#[trigger] a[j]).label@.len() > 0 by {
            assert(a[j] == es[j]);
        }
        assert forall|x: int, y: int| 0 <= x < y < a.len() implies (#[trigger] first(a[x])).comp_lt(
            #[trigger] first(a[y]),
        ) by {
            assert(a[x] == es[x]);
            assert(a[y] == es[y]);
        }
    }
    assert(edges_ordered(b)) by {
        assert forall|j: int| 0 <= j < b.len() implies (#[trigger] b[j]).label@.len() > 0 by {
            assert(b[j] == es[gt + j]);
        }
        assert forall|x: int, y: int| 0 <= x < y < b.len() implies (#[trigger] first(b[x])).comp_lt(
            #[trigger] first(b[y]),
        ) by {
            assert(b[x] == es[gt + x]);
            assert(b[y] == es[gt + y]);
        }
    }
    assert forall|m: int| 0 <= m < edges_entries(a).len() implies !g(#[trigger] edges_entries(a)[m]) by {
        let w = lemma_edges_keys(a, m);
        assert(a[w] == es[w]);
        let k = edges_entries(a)[m].0;
        lemma_comp_asym(k[0], s[0]);
        lemma_first_decides(s, k);
        lemma_key_lt_asym(k, s);
    }
    lemma_filter_none(edges_entries(a), g);
    assert forall|m: int| 0 <= m < edges_entries(b).len() implies g(#[trigger] edges_entries(b)[m]) by {
        let w = lemma_edges_keys(b, m);
        assert(b[w] == es[gt + w]);
        let k = edges_entries(b)[m].0;
        lemma_comp_asym(s[0], k[0]);
        lemma_first_decides(s, k);
    }
    lemma_filter_all(edges_entries(b), g);
    if matched {
        lemma_edges_entries_split(es, i);
        let mid = shift(es[i].label@, entries(target(es[i])));
        assert(entries(n).filter(g) == own_entries(n).filter(g) + edges_entries(a).filter(g) + mid.filter(g)
            + edges_entries(b).filter(g));
        assert(entries(n).filter(g) =~= mid.filter(g) + edges_entries(b));
    } else {
        assert(es =~= a + b);
        lemma_edges_entries_append(a, b);
        assert(entries(n).filter(g) == own_entries(n).filter(g) + edges_entries(a).filter(g)
            + edges_entries(b).filter(g));
        assert(entries(n).filter(g) =~= Seq::<(Seq<C>, V)>::empty() + edges_entries(b));
    }
}

/// Seeds `stack`, for ascending iteration, with exactly the entries of the subtree
/// at `node` (whose own key is `key`) that lie at or above `lower` (`included`) or
/// strictly above it. `key` is the part of `lower` already walked.
#[verifier::rlimit(40)]
#[verifier::spinoff_prover]
pub fn seed_lower<'a, C: Component, V>(
    stack: &mut Vec<RangeFrame<'a, C, V>>,
    node: &'a Node<C, V>,
    key: Vec<C>,
    lower: &[C],
    included: bool,
    root: Ghost<bool>,
)
    requires
        wf(*node, root@),
        key@.len() <= lower@.len(),
        key@ == lower@.take(key@.len() as int),
    ensures
        frames_entries(final(stack)@) == shift(key@, entries(*node)).filter(at_least::<C, V>(lower@, included))
            + frames_entries(old(stack)@),
    decreases lower@.len() - key@.len(),
{
    let ghost pos = key@.len() as int;
    let ghost suffix = lower@.skip(pos);
    let ghost f = at_least::<C, V>(lower@, included);
    let ghost g = at_least::<C, V>(suffix, included);
    let ghost es = node.children@;
    proof {
        assert(lower@ =~= key@ + suffix);
        assert forall|e: (Seq<C>, V)| #[trigger] g(e) == f((key@ + e.0, e.1)) by {
            lemma_key_lt_prefix(key@, suffix, e.0);
            if key@ + suffix == key@ + e.0 {
                assert((key@ + suffix).skip(pos) =~= suffix);
                assert((key@ + e.0).skip(pos) =~= e.0);
            }
        }
        lemma_filter_shift(key@, entries(*node), f, g);
    }
    let p = key.len();
    if p == lower.len() {
        if included {
            let ghost prev = stack@;
            proof {
                assert forall|m: int| 0 <= m < entries(*node).len() implies g(#[trigger] entries(*node)[m]) by {
                    let k = entries(*node)[m].0;
                    if k.len() == 0 {
                        assert(suffix =~= k);
                    } else {
                        lemma_key_lt_proper_prefix(suffix, k);
                    }
                }
                lemma_filter_all(entries(*node), g);
            }
            stack.push(RangeFrame::Subtree { node, key });
            assert(stack@.drop_last() == prev);
        } else {
            push_edges(stack, node, &key, 0);
            proof {
                assert(es.skip(0) =~= es);
                broadcast use Seq::filter_distributes_over_add;
                assert forall|m: int| 0 <= m < own_entries(*node).len() implies !g(#[trigger] own_entries(*node)[m]) by {
                    lemma_key_lt_irreflexive(suffix);
                }
                lemma_filter_none(own_entries(*node), g);
                crate::node::lemma_edges_entries_nonempty_keys(es);
                assert forall|m: int| 0 <= m < edges_entries(es).len() implies g(#[trigger] edges_entries(es)[m]) by {
                    lemma_key_lt_proper_prefix(suffix, edges_entries(es)[m].0);
                }
                lemma_filter_all(edges_entries(es), g);
                assert(entries(*node).filter(g) =~= edges_entries(es));
            }
        }
        return;
    }
    let idx = node.child_index(&lower[p]);
    let gt_start = match idx {
        Ok(i) => {
            let n = node.children.len();
            assert(i < n);
            i + 1
        },
        Err(i) => i,
    };
    proof {
        match idx {
            Ok(i) => {
                C::lemma_strict_total_order();
                assert forall|j: int| 0 <= j < i implies (#[trigger] first(es[j])).comp_lt(suffix[0]) by {
                    assert(first(es[j]).comp_lt(first(es[i as int])));
                }
                assert forall|j: int| i + 1 <= j < es.len() implies suffix[0].comp_lt(#[trigger] first(es[j])) by {
                    assert(first(es[i as int]).comp_lt(first(es[j])));
                }
                lemma_seed_split(*node, suffix, included, i as int, true);
            },
            Err(i) => {
                lemma_seed_split(*node, suffix, included, i as int, false);
            },
        }
        lemma_shift_add(
            key@,
            if idx is Ok {
                shift(es[idx->Ok_0 as int].label@, entries(target(es[idx->Ok_0 as int]))).filter(g)
            } else {
                Seq::empty()
            },
            edges_entries(es.skip(gt_start as int)),
        );
    }
    push_edges(stack, node, &key, gt_start);
    match idx {
        Err(_) => {
            assert(shift(key@, Seq::<(Seq<C>, V)>::empty()) =~= Seq::<(Seq<C>, V)>::empty());
        },
        Ok(i) => {
            let edge = &node.children[i];
            let ghost l = edge.label@;
            let ghost ce = entries(target(es[i as int]));
            let ghost mid = shift(l, ce);
            let shared = match_prefix(&edge.label, lower, p);
            let mut child_key = dup_key(key.as_slice());
            extend_key(&mut child_key, edge.label.as_slice());
            proof {
                assert(wf(target(es[i as int]), false));
                lemma_filter_shift(key@, mid, f, g);
                lemma_shift_shift(key@, l, ce);
            }
            if shared == edge.label.len() {
                proof {
                    assert(child_key@ =~= lower@.take(child_key@.len() as int)) by {
                        assert forall|t: int| 0 <= t < child_key@.len() implies child_key@[t] == lower@[t] by {
                            if t >= p {
                                assert(l[t - p] == lower@[p + (t - p)]);
                            }
                        }
                    }
                }
                seed_lower(stack, &*edge.child, child_key, lower, included, Ghost(false));
            } else if p + shared == lower.len() {
                let ghost prev = stack@;
                proof {
                    assert forall|m: int| 0 <= m < mid.len() implies g(#[trigger] mid[m]) by {
                        assert(suffix.is_prefix_of(mid[m].0)) by {
                            assert forall|t: int| 0 <= t < suffix.len() implies suffix[t] == mid[m].0[t] by {
                                assert(l[t] == lower@[p + t]);
                            }
                        }
                        lemma_key_lt_proper_prefix(suffix, mid[m].0);
                    }
                    lemma_filter_all(mid, g);
                }
                stack.push(RangeFrame::Subtree { node: &*edge.child, key: child_key });
                assert(stack@.drop_last() == prev);
            } else {
                let ghost q = suffix.take(shared as int);
                proof {
                    assert(suffix[shared as int] != l[shared as int]);
                    assert forall|k: Seq<C>| #![trigger (l + k)] key_lt(l + k, suffix) == l[shared as int].comp_lt(suffix[shared as int])
                        && key_lt(suffix, l + k) == suffix[shared as int].comp_lt(l[shared as int]) by {
                        let a = suffix.skip(shared as int);
                        let b = (l + k).skip(shared as int);
                        assert(suffix =~= q + a);
                        assert(l + k =~= q + b) by {
                            assert forall|t: int| 0 <= t < shared implies (l + k)[t] == q[t] by {
                                assert(l[t] == lower@[p + t]);
                            }
                        }
                        lemma_key_lt_prefix(q, a, b);
                        lemma_key_lt_prefix(q, b, a);
                        lemma_key_lt_first(a, b);
                        lemma_key_lt_first(b, a);
                    }
                }
                if lower[p + shared].compare(&edge.label[shared]) == Order::Less {
                    let ghost prev = stack@;
                    proof {
                        assert forall|m: int| 0 <= m < mid.len() implies g(#[trigger] mid[m]) by {
                            assert(mid[m].0 == l + ce[m].0);
                        }
                        lemma_filter_all(mid, g);
                    }
                    stack.push(RangeFrame::Subtree { node: &*edge.child, key: child_key });
                    assert(stack@.drop_last() == prev);
                } else {
                    proof {
                        C::lemma_strict_total_order();
                        assert forall|m: int| 0 <= m < mid.len() implies !g(#[trigger] mid[m]) by {
                            assert(mid[m].0 == l + ce[m].0);
                            lemma_key_lt_asym(mid[m].0, suffix);
                        }
                        lemma_filter_none(mid, g);
                        assert(shift(key@, Seq::<(Seq<C>, V)>::empty()) =~= Seq::<(Seq<C>, V)>::empty());
                    }
                }
            }
        },
    }
}

/// Reversing a concatenation reverses and swaps the parts.
pub proof fn lemma_reverse_add<A>(a: Seq<A>, b: Seq<A>)
    ensures
        (a + b).reverse() == b.reverse() + a.reverse(),
{
    assert((a + b).reverse() =~= b.reverse() + a.reverse());
}

/// A sequence of at most one element is its own reverse.
pub proof fn lemma_reverse_short<A>(s: Seq<A>)
    requires
        s.len() <= 1,
    ensures
        s.reverse() == s,
{
    assert(s.reverse() =~= s);
}

/// Filtering commutes with reversing.
pub proof fn lemma_filter_reverse<A>(s: Seq<A>, f: spec_fn(A) -> bool)
    ensures
        s.reverse().filter(f) == s.filter(f).reverse(),
    decreases s.len(),
{
    broadcast use Seq::filter_distributes_over_add;
    if s.len() == 0 {
        assert(s.reverse() =~= s);
        assert(s.filter(f) =~= s) by {
            reveal(Seq::filter);
        }
        assert(s.filter(f).reverse() =~= s.filter(f));
    } else {
        let d = s.drop_last();
        let x = s.last();
        lemma_filter_reverse(d, f);
        assert(s =~= d + seq![x]);
        lemma_reverse_add(d, seq![x]);
        lemma_reverse_short(seq![x]);
        lemma_filter_cons(x, d.reverse(), f);
        assert(s.filter(f) == d.filter(f) + seq![x].filter(f));
        lemma_filter_cons(x, Seq::<A>::empty(), f);
        assert(seq![x] + Seq::<A>::empty() =~= seq![x]);
        assert(Seq::<A>::empty().filter(f) =~= Seq::<A>::empty()) by {
            reveal(Seq::filter);
        }
        lemma_reverse_add(d.filter(f), seq![x].filter(f));
        lemma_reverse_short(seq![x].filter(f));
    }
}

/// A step of a reverse value cursor: a subtree still to expand, or a value ready
/// to be yielded.
pub enum RevFrame<'a, C, V> {
    Subtree(&'a Node<C, V>),
    Value(&'a V),
}

/// The values a reverse frame stands for, in descending key order.
pub open spec fn rev_frame_values<'a, C, V>(f: RevFrame<'a, C, V>) -> Seq<V> {
    match f {
        RevFrame::Subtree(n) => values_of(entries(*n)).reverse(),
        RevFrame::Value(v) => seq![*v],
    }
}

/// The values of a stack of reverse frames, read from the top down.
pub open spec fn rev_frames_values<'a, C, V>(s: Seq<RevFrame<'a, C, V>>) -> Seq<V>
    decreases s.len(),
{
    if s.len() == 0 {
        Seq::empty()
    } else {
        rev_frame_values(s.last()) + rev_frames_values(s.drop_last())
    }
}

/// The work left on a stack of reverse frames.
pub open spec fn rev_frames_weight<'a, C, V>(s: Seq<RevFrame<'a, C, V>>) -> nat
    decreases s.len(),
{
    if s.len() == 0 {
        0
    } else {
        (match s.last() {
            RevFrame::Subtree(n) => 2 * size(*n),
            RevFrame::Value(_) => 1,
        }) + rev_frames_weight(s.drop_last())
    }
}

/// The stack of reverse frames for a list of subtrees given in ascending order.
pub open spec fn subtree_frames<'a, C, V>(nodes: Seq<&'a Node<C, V>>) -> Seq<RevFrame<'a, C, V>> {
    nodes.map_values(|n: &'a Node<C, V>| RevFrame::Subtree(n))
}

/// A cursor over the values of a forest of subtrees, in descending key order.
pub struct RevValueIter<'a, C, V> {
    stack: Vec<RevFrame<'a, C, V>>,
}

impl<'a, C, V> View for RevValueIter<'a, C, V> {
    type V = Seq<V>;

    /// The values still to be yielded, in order.
    closed spec fn view(&self) -> Seq<V> {
        rev_frames_values(self.stack@)
    }
}

impl<'a, C, V> RevValueIter<'a, C, V> {
    /// A cursor over the given subtrees, listed in ascending order: it yields their
    /// values from the last subtree's largest key down.
    pub fn from_nodes(nodes: Vec<&'a Node<C, V>>) -> (r: Self)
        ensures
            r@ == rev_frames_values(subtree_frames(nodes@)),
    {
        let mut stack: Vec<RevFrame<'a, C, V>> = Vec::with_capacity(nodes.len());
        let mut i: usize = 0;
        while i < nodes.len()
            invariant
                i <= nodes@.len(),
                stack@ == subtree_frames(nodes@.take(i as int)),
            decreases nodes@.len() - i,
        {
            stack.push(RevFrame::Subtree(nodes[i]));
            i = i + 1;
            assert(stack@ =~= subtree_frames(nodes@.take(i as int)));
        }
        assert(nodes@.take(nodes@.len() as int) =~= nodes@);
        RevValueIter { stack }
    }

    /// Yields the next value, in descending key order.
    pub fn next(&mut self) -> (r: Option<&'a V>)
        ensures
            r is None <==> old(self)@.len() == 0,
            r is None ==> final(self)@ == old(self)@,
            r matches Some(v) ==> *v == old(self)@[0] && final(self)@ == old(self)@.drop_first(),
    {
        let ghost start = self@;
        loop
            invariant
                rev_frames_values(self.stack@) == start,
                start == old(self)@,
            decreases rev_frames_weight(self.stack@),
        {
            let ghost before = self.stack@;
            match self.stack.pop() {
                None => {
                    return None;
                },
                Some(RevFrame::Value(v)) => {
                    assert(self.stack@ == before.drop_last());
                    return Some(v);
                },
                Some(RevFrame::Subtree(node)) => {
                    let ghost base = self.stack@;
                    assert(base == before.drop_last());
                    let ghost es = node.children@;
                    proof {
                        lemma_values_of_add(own_entries(*node), edges_entries(es));
                        lemma_reverse_add(values_of(own_entries(*node)), values_of(edges_entries(es)));
                        lemma_reverse_short(values_of(own_entries(*node)));
                    }
                    match &node.value {
                        Some(v) => {
                            self.stack.push(RevFrame::Value(&**v));
                            assert(self.stack@.drop_last() == base);
                        },
                        None => {
                            assert(values_of(own_entries(*node)) =~= Seq::<V>::empty());
                        },
                    }
                    let ghost mid = self.stack@;
                    let mut j: usize = 0;
                    assert(es.take(0) =~= Seq::<Edge<C, V>>::empty());
                    while j < node.children.len()
                        invariant
                            es == node.children@,
                            j <= es.len(),
                            rev_frames_values(self.stack@) == values_of(edges_entries(es.take(j as int))).reverse()
                                + rev_frames_values(mid),
                            rev_frames_weight(self.stack@) == 2 * edges_size(es.take(j as int)) + rev_frames_weight(
                                mid,
                            ),
                        decreases es.len() - j,
                    {
                        let child: &'a Node<C, V> = &*node.children[j].child;
                        let ghost prev = self.stack@;
                        self.stack.push(RevFrame::Subtree(child));
                        proof {
                            assert(self.stack@.drop_last() == prev);
                            let t = es.take(j + 1);
                            assert(t.drop_last() =~= es.take(j as int));
                            assert(t.last() == es[j as int]);
                            let l = es[j as int].label@;
                            let ce = entries(target(es[j as int]));
                            lemma_values_of_add(edges_entries(es.take(j as int)), shift(l, ce));
                            lemma_values_of_shift(l, ce);
                            lemma_reverse_add(values_of(edges_entries(es.take(j as int))), values_of(ce));
                        }
                        j = j + 1;
                    }
                    assert(es.take(es.len() as int) =~= es);
                },
            }
        }
    }
}

/// The entries a frame stands for, in descending key order.
pub open spec fn rev_frame_entries<'a, C, V>(f: RangeFrame<'a, C, V>) -> Seq<(Seq<C>, V)> {
    match f {
        RangeFrame::Subtree { node, key } => shift(key@, entries(*node)).reverse(),
        RangeFrame::Item { key, value } => seq![(key@, *value)],
    }
}

/// The entries of a stack of frames read from the top down, each frame in descending
/// key order.
pub open spec fn rev_frames_entries<'a, C, V>(s: Seq<RangeFrame<'a, C, V>>) -> Seq<(Seq<C>, V)>
    decreases s.len(),
{
    if s.len() == 0 {
        Seq::empty()
    } else {
        rev_frame_entries(s.last()) + rev_frames_entries(s.drop_last())
    }
}

/// The keys of a sequence of entries are strictly decreasing.
pub open spec fn sorted_desc<C: Component, V>(s: Seq<(Seq<C>, V)>) -> bool {
    forall|i: int, j: int| 0 <= i < j < s.len() ==> key_lt(#[trigger] s[j].0, #[trigger] s[i].0)
}

/// Pushes one frame per edge of `es` below index `to`, smallest first, each keyed by
/// `key` and its label; afterwards the frames stand for those edges' entries in
/// descending order, above what was on the stack.
pub fn push_edges_rev<'a, C: Component, V>(
    stack: &mut Vec<RangeFrame<'a, C, V>>,
    node: &'a Node<C, V>,
    key: &Vec<C>,
    to: usize,
)
    requires
        to <= node.children@.len(),
    ensures
        rev_frames_entries(final(stack)@) == shift(key@, edges_entries(node.children@.take(to as int))).reverse()
            + rev_frames_entries(old(stack)@),
        frames_weight(final(stack)@) == 2 * edges_size(node.children@.take(to as int)) + frames_weight(
            old(stack)@,
        ),
{
    let ghost es = node.children@;
    let ghost base = stack@;
    let mut j: usize = 0;
    assert(es.take(0) =~= Seq::<Edge<C, V>>::empty());
    assert(shift(key@, Seq::<(Seq<C>, V)>::empty()) =~= Seq::<(Seq<C>, V)>::empty());
    assert(Seq::<(Seq<C>, V)>::empty().reverse() =~= Seq::<(Seq<C>, V)>::empty());
    while j < to
        invariant
            es == node.children@,
            j <= to <= es.len(),
            rev_frames_entries(stack@) == shift(key@, edges_entries(es.take(j as int))).reverse()
                + rev_frames_entries(base),
            frames_weight(stack@) == 2 * edges_size(es.take(j as int)) + frames_weight(base),
        decreases to - j,
    {
        let edge = &node.children[j];
        let mut child_key = dup_key(key.as_slice());
        extend_key(&mut child_key, edge.label.as_slice());
        let ghost prev = stack@;
        stack.push(RangeFrame::Subtree { node: &*edge.child, key: child_key });
        proof {
            assert(stack@.drop_last() == prev);
            let t = es.take(j + 1);
            assert(t.drop_last() =~= es.take(j as int));
            assert(t.last() == es[j as int]);
            let l = es[j as int].label@;
            let ce = entries(target(es[j as int]));
            lemma_shift_add(key@, edges_entries(es.take(j as int)), shift(l, ce));
            lemma_shift_shift(key@, l, ce);
            lemma_reverse_add(shift(key@, edges_entries(es.take(j as int))), shift(key@ + l, ce));
        }
        j = j + 1;
    }
}

/// A cursor over `(key, value)` entries in descending key order, down to a lower end.
pub struct RevRangeIter<'a, C, V> {
    stack: Vec<RangeFrame<'a, C, V>>,
    lower: Bound<Vec<C>>,
    done: bool,
}

impl<'a, C: Component, V> View for RevRangeIter<'a, C, V> {
    type V = Seq<(Seq<C>, V)>;

    /// The entries still to be yielded, in order.
    closed spec fn view(&self) -> Seq<(Seq<C>, V)> {
        if self.done {
            Seq::empty()
        } else {
            rev_frames_entries(self.stack@).filter(lower_test::<C, V>(bound_view(self.lower)))
        }
    }
}

impl<'a, C: Component, V> RevRangeIter<'a, C, V> {
    /// The cursor's invariant: its pending entries are in descending key order.
    pub closed spec fn wf(&self) -> bool {
        sorted_desc(rev_frames_entries(self.stack@))
    }

    /// A cursor over the entries of the given frames (the last frame first) that lie
    /// at or above `lower`.
    pub fn from_frames(stack: Vec<RangeFrame<'a, C, V>>, lower: Bound<Vec<C>>) -> (r: Self)
        requires
            sorted_desc(rev_frames_entries(stack@)),
        ensures
            r.wf(),
            r@ == rev_frames_entries(stack@).filter(lower_test::<C, V>(bound_view(lower))),
    {
        RevRangeIter { stack, lower, done: false }
    }

    /// Yields the next entry, with its key rebuilt, in descending key order.
    pub fn next(&mut self) -> (r: Option<(Vec<C>, &'a V)>)
        requires
            old(self).wf(),
        ensures
            final(self).wf(),
            r is None <==> old(self)@.len() == 0,
            r is None ==> final(self)@ == old(self)@,
            r matches Some(e) ==> (e.0@, *e.1) == old(self)@[0] && final(self)@ == old(self)@.drop_first(),
    {
        if self.done {
            return None;
        }
        let ghost start = rev_frames_entries(self.stack@);
        let ghost f = lower_test::<C, V>(bound_view(self.lower));
        loop
            invariant
                !self.done,
                rev_frames_entries(self.stack@) == start,
                sorted_desc(start),
                f == lower_test::<C, V>(bound_view(self.lower)),
                old(self)@ == start.filter(f),
            decreases frames_weight(self.stack@),
        {
            let ghost before = self.stack@;
            match self.stack.pop() {
                None => {
                    self.done = true;
                    proof {
                        assert(start =~= Seq::<(Seq<C>, V)>::empty());
                        assert(start.filter(f) =~= Seq::<(Seq<C>, V)>::empty()) by {
                            reveal(Seq::filter);
                        }
                    }
                    return None;
                },
                Some(RangeFrame::Subtree { node, key }) => {
                    let ghost base = self.stack@;
                    assert(base == before.drop_last());
                    let ghost es = node.children@;
                    proof {
                        lemma_shift_add(key@, own_entries(*node), edges_entries(es));
                        lemma_reverse_add(shift(key@, own_entries(*node)), shift(key@, edges_entries(es)));
                        lemma_reverse_short(shift(key@, own_entries(*node)));
                        assert(es.take(es.len() as int) =~= es);
                    }
                    match &node.value {
                        Some(v) => {
                            let item_key = dup_key(key.as_slice());
                            self.stack.push(RangeFrame::Item { key: item_key, value: &**v });
                            proof {
                                assert(self.stack@.drop_last() == base);
                                assert(key@ + Seq::<C>::empty() =~= key@);
                                assert(shift(key@, own_entries(*node)) =~= seq![(key@, **v)]);
                            }
                        },
                        None => {
                            assert(shift(key@, own_entries(*node)) =~= Seq::<(Seq<C>, V)>::empty());
                        },
                    }
                    push_edges_rev(&mut self.stack, node, &key, node.children.len());
                },
                Some(RangeFrame::Item { key, value }) => {
                    assert(self.stack@ == before.drop_last());
                    let ghost rest = rev_frames_entries(self.stack@);
                    assert(start == seq![(key@, *value)] + rest);
                    proof {
                        lemma_filter_cons((key@, *value), rest, f);
                    }
                    let within = match &self.lower {
                        Bound::Unbounded => true,
                        Bound::Included(lb) => match compare_keys(key.as_slice(), lb.as_slice()) {
                            Order::Less => false,
                            _ => true,
                        },
                        Bound::Excluded(lb) => match compare_keys(key.as_slice(), lb.as_slice()) {
                            Order::Greater => true,
                            _ => false,
                        },
                    };
                    if within {
                        proof {
                            assert forall|i: int, j: int| 0 <= i < j < rest.len() implies key_lt(
                                #[trigger] rest[j].0,
                                #[trigger] rest[i].0,
                            ) by {
                                assert(rest[i] == start[i + 1]);
                                assert(rest[j] == start[j + 1]);
                            }
                        }
                        return Some((key, value));
                    }
                    self.done = true;
                    self.stack.clear();
                    proof {
                        assert forall|m: int| 0 <= m < rest.len() implies !f(#[trigger] rest[m]) by {
                            assert(rest[m] == start[m + 1]);
                            assert(key_lt(start[m + 1].0, start[0].0));
                            lemma_lower_mono(bound_view(self.lower), key@, rest[m].0);
                        }
                        lemma_filter_none(rest, f);
                        assert(rev_frames_entries(self.stack@) =~= Seq::<(Seq<C>, V)>::empty());
                    }
                    return None;
                },
            }
        }
    }
}

/// The entries whose key is at most `u` (`inc`) or strictly below it.
pub open spec fn at_most<C: Component, V>(u: Seq<C>, inc: bool) -> spec_fn((Seq<C>, V)) -> bool {
    |e: (Seq<C>, V)| if inc {
        key_le(e.0, u)
    } else {
        key_lt(e.0, u)
    }
}

/// Seeding for descending iteration splits a node's entries by the first component
/// of the upper end `s`: the node's own entry and the edges below `s[0]` pass, the
/// edges above it fall beyond, and only the edge for `s[0]` (if `matched`) needs a
/// closer look.
pub proof fn lemma_seed_split_upper<C: Component, V>(n: Node<C, V>, s: Seq<C>, inc: bool, i: int, matched: bool)
    requires
        edges_ordered(n.children@),
        s.len() > 0,
        0 <= i <= n.children@.len(),
        matched ==> i < n.children@.len() && first(n.children@[i]) == s[0],
        forall|j: int| 0 <= j < i ==> (#[trigger] first(n.children@[j])).comp_lt(s[0]),
        forall|j: int|
            (if matched { i + 1 } else { i }) <= j < n.children@.len() ==> s[0].comp_lt(
                #[trigger] first(n.children@[j]),
            ),
    ensures
        entries(n).filter(at_most::<C, V>(s, inc)) == own_entries(n) + edges_entries(n.children@.take(i)) + (
        if matched {
            shift(n.children@[i].label@, entries(target(n.children@[i]))).filter(at_most::<C, V>(s, inc))
        } else {
            Seq::empty()
        }),
{
    let es = n.children@;
    let h = at_most::<C, V>(s, inc);
    let gt = if matched { i + 1 } else { i };
    let a = es.take(i);
    let b = es.skip(gt);
    broadcast use Seq::filter_distributes_over_add;
    C::lemma_strict_total_order();
    assert forall|m: int| 0 <= m < own_entries(n).len() implies h(#[trigger] own_entries(n)[m]) by {
        lemma_key_lt_proper_prefix(own_entries(n)[m].0, s);
    }
    lemma_filter_all(own_entries(n), h);
    assert(edges_ordered(a)) by {
        assert forall|j: int| 0 <= j < a.len() implies (#[trigger] a[j]).label@.len() > 0 by {
            assert(a[j] == es[j]);
        }
        assert forall|x: int, y: int| 0 <= x < y < a.len() implies (#[trigger] first(a[x])).comp_lt(
            #[trigger] first(a[y]),
        ) by {
            assert(a[x] == es[x]);
            assert(a[y] == es[y]);
        }
    }
    assert(edges_ordered(b)) by {
        assert forall|j: int| 0 <= j < b.len() implies (#[trigger] b[j]).label@.len() > 0 by {
            assert(b[j] == es[gt + j]);
        }
        assert forall|x: int, y: int| 0 <= x < y < b.len() implies (#[trigger] first(b[x])).comp_lt(
            #[trigger] first(b[y]),
        ) by {
            assert(b[x] == es[gt + x]);
            assert(b[y] == es[gt + y]);
        }
    }
    assert forall|m: int| 0 <= m < edges_entries(a).len() implies h(#[trigger] edges_entries(a)[m]) by {
        let w = lemma_edges_keys(a, m);
        assert(a[w] == es[w]);
        let k = edges_entries(a)[m].0;
        lemma_comp_asym(k[0], s[0]);
        lemma_first_decides(s, k);
    }
    lemma_filter_all(edges_entries(a), h);
    assert forall|m: int| 0 <= m < edges_entries(b).len() implies !h(#[trigger] edges_entries(b)[m]) by {
        let w = lemma_edges_keys(b, m);
        assert(b[w] == es[gt + w]);
        let k = edges_entries(b)[m].0;
        lemma_comp_asym(s[0], k[0]);
        lemma_first_decides(s, k);
        lemma_key_lt_asym(s, k);
    }
    lemma_filter_none(edges_entries(b), h);
    if matched {
        lemma_edges_entries_split(es, i);
        let mid = shift(es[i].label@, entries(target(es[i])));
        assert(entries(n).filter(h) == own_entries(n).filter(h) + edges_entries(a).filter(h) + mid.filter(h)
            + edges_entries(b).filter(h));
        assert(entries(n).filter(h) =~= own_entries(n) + edges_entries(a) + mid.filter(h));
    } else {
        assert(es =~= a + b);
        lemma_edges_entries_append(a, b);
        assert(entries(n).filter(h) == own_entries(n).filter(h) + edges_entries(a).filter(h)
            + edges_entries(b).filter(h));
        assert(entries(n).filter(h) =~= own_entries(n) + edges_entries(a) + Seq::<(Seq<C>, V)>::empty());
    }
}

/// Seeds `stack`, for descending iteration, with exactly the entries of the subtree
/// at `node` (whose own key is `key`) that lie at or below `upper` (`included`) or
/// strictly below it. `key` is the part of `upper` already walked.
#[verifier::rlimit(40)]
#[verifier::spinoff_prover]
pub fn seed_upper<'a, C: Component, V>(
    stack: &mut Vec<RangeFrame<'a, C, V>>,
    node: &'a Node<C, V>,
    key: Vec<C>,
    upper: &[C],
    included: bool,
    root: Ghost<bool>,
)
    requires
        wf(*node, root@),
        key@.len() <= upper@.len(),
        key@ == upper@.take(key@.len() as int),
    ensures
        rev_frames_entries(final(stack)@) == shift(key@, entries(*node)).filter(at_most::<C, V>(upper@, included)).reverse()
            + rev_frames_entries(old(stack)@),
    decreases upper@.len() - key@.len(),
{
    let ghost pos = key@.len() as int;
    let ghost suffix = upper@.skip(pos);
    let ghost f = at_most::<C, V>(upper@, included);
    let ghost h = at_most::<C, V>(suffix, included);
    let ghost es = node.children@;
    let ghost empty = Seq::<(Seq<C>, V)>::empty();
    proof {
        assert(upper@ =~= key@ + suffix);
        assert forall|e: (Seq<C>, V)| #[trigger] h(e) == f((key@ + e.0, e.1)) by {
            lemma_key_lt_prefix(key@, e.0, suffix);
            if key@ + suffix == key@ + e.0 {
                assert((key@ + suffix).skip(pos) =~= suffix);
                assert((key@ + e.0).skip(pos) =~= e.0);
            }
        }
        lemma_filter_shift(key@, entries(*node), f, h);
        assert(empty.reverse() =~= empty);
        assert(shift(key@, empty) =~= empty);
    }
    let p = key.len();
    if p == upper.len() {
        proof {
            broadcast use Seq::filter_distributes_over_add;
            crate::node::lemma_edges_entries_nonempty_keys(es);
            assert forall|m: int| 0 <= m < edges_entries(es).len() implies !h(#[trigger] edges_entries(es)[m]) by {
                let k = edges_entries(es)[m].0;
                lemma_key_lt_proper_prefix(suffix, k);
                lemma_key_lt_asym(suffix, k);
            }
            lemma_filter_none(edges_entries(es), h);
        }
        if included {
            match &node.value {
                Some(v) => {
                    let ghost prev = stack@;
                    stack.push(RangeFrame::Item { key, value: &**v });
                    proof {
                        assert(stack@.drop_last() == prev);
                        assert(suffix =~= Seq::<C>::empty());
                        lemma_filter_all(own_entries(*node), h);
                        assert(entries(*node).filter(h) =~= own_entries(*node));
                        assert(key@ + Seq::<C>::empty() =~= key@);
                        assert(shift(key@, own_entries(*node)) =~= seq![(key@, **v)]);
                        lemma_reverse_short(shift(key@, own_entries(*node)));
                    }
                },
                None => {
                    assert(entries(*node).filter(h) =~= empty) by {
                        assert(own_entries(*node) =~= empty);
                        assert(empty.filter(h) =~= empty) by {
                            reveal(Seq::filter);
                        }
                    }
                },
            }
        } else {
            proof {
                assert forall|m: int| 0 <= m < own_entries(*node).len() implies !h(#[trigger] own_entries(*node)[m]) by {
                    lemma_key_lt_irreflexive(suffix);
                }
                lemma_filter_none(own_entries(*node), h);
                assert(entries(*node).filter(h) =~= empty);
            }
        }
        return;
    }
    let idx = node.child_index(&upper[p]);
    let lt_end = match idx {
        Ok(i) => i,
        Err(i) => i,
    };
    proof {
        match idx {
            Ok(i) => {
                C::lemma_strict_total_order();
                assert forall|j: int| 0 <= j < i implies (#[trigger] first(es[j])).comp_lt(suffix[0]) by {
                    assert(first(es[j]).comp_lt(first(es[i as int])));
                }
                assert forall|j: int| i + 1 <= j < es.len() implies suffix[0].comp_lt(#[trigger] first(es[j])) by {
                    assert(first(es[i as int]).comp_lt(first(es[j])));
                }
                lemma_seed_split_upper(*node, suffix, included, i as int, true);
            },
            Err(i) => {
                lemma_seed_split_upper(*node, suffix, included, i as int, false);
            },
        }
    }
    let ghost tail = if idx is Ok {
        shift(es[lt_end as int].label@, entries(target(es[lt_end as int]))).filter(h)
    } else {
        empty
    };
    proof {
        lemma_shift_add(key@, own_entries(*node) + edges_entries(es.take(lt_end as int)), tail);
        lemma_shift_add(key@, own_entries(*node), edges_entries(es.take(lt_end as int)));
        lemma_reverse_add(
            shift(key@, own_entries(*node)) + shift(key@, edges_entries(es.take(lt_end as int))),
            shift(key@, tail),
        );
        lemma_reverse_add(shift(key@, own_entries(*node)), shift(key@, edges_entries(es.take(lt_end as int))));
        lemma_reverse_short(shift(key@, own_entries(*node)));
    }
    match &node.value {
        Some(v) => {
            let item_key = dup_key(key.as_slice());
            let ghost prev = stack@;
            stack.push(RangeFrame::Item { key: item_key, value: &**v });
            proof {
                assert(stack@.drop_last() == prev);
                assert(key@ + Seq::<C>::empty() =~= key@);
                assert(shift(key@, own_entries(*node)) =~= seq![(key@, **v)]);
            }
        },
        None => {
            assert(shift(key@, own_entries(*node)) =~= empty);
        },
    }
    push_edges_rev(stack, node, &key, lt_end);
    match idx {
        Err(_) => {},
        Ok(i) => {
            let edge = &node.children[i];
            let ghost l = edge.label@;
            let ghost ce = entries(target(es[i as int]));
            let ghost mid = shift(l, ce);
            let shared = match_prefix(&edge.label, upper, p);
            let mut child_key = dup_key(key.as_slice());
            extend_key(&mut child_key, edge.label.as_slice());
            proof {
                assert(wf(target(es[i as int]), false));
                lemma_filter_shift(key@, mid, f, h);
                lemma_shift_shift(key@, l, ce);
            }
            if shared == edge.label.len() {
                proof {
                    assert(child_key@ =~= upper@.take(child_key@.len() as int)) by {
                        assert forall|t: int| 0 <= t < child_key@.len() implies child_key@[t] == upper@[t] by {
                            if t >= p {
                                assert(l[t - p] == upper@[p + (t - p)]);
                            }
                        }
                    }
                }
                seed_upper(stack, &*edge.child, child_key, upper, included, Ghost(false));
            } else if p + shared == upper.len() {
                proof {
                    assert forall|m: int| 0 <= m < mid.len() implies !h(#[trigger] mid[m]) by {
                        assert(suffix.is_prefix_of(mid[m].0)) by {
                            assert forall|t: int| 0 <= t < suffix.len() implies suffix[t] == mid[m].0[t] by {
                                assert(l[t] == upper@[p + t]);
                            }
                        }
                        lemma_key_lt_proper_prefix(suffix, mid[m].0);
                        lemma_key_lt_asym(suffix, mid[m].0);
                    }
                    lemma_filter_none(mid, h);
                }
            } else {
                let ghost q = suffix.take(shared as int);
                proof {
                    assert(suffix[shared as int] != l[shared as int]);
                    assert forall|k: Seq<C>| #![trigger (l + k)] key_lt(l + k, suffix) == l[shared as int].comp_lt(suffix[shared as int])
                        && key_lt(suffix, l + k) == suffix[shared as int].comp_lt(l[shared as int]) by {
                        let a = suffix.skip(shared as int);
                        let b = (l + k).skip(shared as int);
                        assert(suffix =~= q + a);
                        assert(l + k =~= q + b) by {
                            assert forall|t: int| 0 <= t < shared implies (l + k)[t] == q[t] by {
                                assert(l[t] == upper@[p + t]);
                            }
                        }
                        lemma_key_lt_prefix(q, a, b);
                        lemma_key_lt_prefix(q, b, a);
                        lemma_key_lt_first(a, b);
                        lemma_key_lt_first(b, a);
                    }
                }
                if upper[p + shared].compare(&edge.label[shared]) == Order::Greater {
                    let ghost prev = stack@;
                    proof {
                        assert forall|m: int| 0 <= m < mid.len() implies h(#[trigger] mid[m]) by {
                            assert(mid[m].0 == l + ce[m].0);
                        }
                        lemma_filter_all(mid, h);
                    }
                    stack.push(RangeFrame::Subtree { node: &*edge.child, key: child_key });
                    assert(stack@.drop_last() == prev);
                } else {
                    proof {
                        C::lemma_strict_total_order();
                        assert forall|m: int| 0 <= m < mid.len() implies !h(#[trigger] mid[m]) by {
                            assert(mid[m].0 == l + ce[m].0);
                            lemma_key_lt_asym(suffix, mid[m].0);
                        }
                        lemma_filter_none(mid, h);
                    }
                }
            }
        },
    }
}

/// The entries whose key lies between the two ends of a range.
pub open spec fn in_range<C: Component, V>(lower: Bound<Seq<C>>, upper: Bound<Seq<C>>) -> spec_fn(
    (Seq<C>, V),
) -> bool {
    |e: (Seq<C>, V)| within_lower(lower, e.0) && within_upper(upper, e.0)
}

/// Filtering twice is filtering by both tests.
pub proof fn lemma_filter_filter<A>(s: Seq<A>, f: spec_fn(A) -> bool, g: spec_fn(A) -> bool, h: spec_fn(A) -> bool)
    requires
        forall|x: A| #[trigger] h(x) == (f(x) && g(x)),
    ensures
        s.filter(f).filter(g) == s.filter(h),
    decreases s.len(),
{
    reveal(Seq::filter);
    if s.len() > 0 {
        lemma_filter_filter(s.drop_last(), f, g, h);
        let x = s.last();
        let a = s.drop_last().filter(f);
        if f(x) {
            assert(s.filter(f) == a.push(x));
            assert(a.push(x).drop_last() =~= a);
            assert(a.push(x).last() == x);
        } else {
            assert(s.filter(f) == a);
        }
    }
}

/// A filtered sorted sequence is sorted.
pub proof fn lemma_sorted_filter<C: Component, V>(s: Seq<(Seq<C>, V)>, f: spec_fn((Seq<C>, V)) -> bool)
    requires
        sorted(s),
    ensures
        sorted(s.filter(f)),
    decreases s.len(),
{
    reveal(Seq::filter);
    if s.len() > 0 {
        let d = s.drop_last();
        let x = s.last();
        assert(sorted(d)) by {
            assert forall|i: int, j: int| 0 <= i < j < d.len() implies key_lt(#[trigger] d[i].0, #[trigger] d[j].0) by {
                assert(d[i] == s[i]);
                assert(d[j] == s[j]);
            }
        }
        lemma_sorted_filter(d, f);
        if f(x) {
            let a = d.filter(f);
            assert forall|i: int, j: int| 0 <= i < a.len() && 0 <= j < 1 implies key_lt(
                #[trigger] a[i].0,
                #[trigger] seq![x][j].0,
            ) by {
                assert(d.filter(f).contains(a[i]));
                d.lemma_filter_contains_rev(f, a[i]);
                let k = choose|k: int| 0 <= k < d.len() && d[k] == a[i];
                assert(s[k] == d[k]);
                assert(key_lt(s[k].0, s[s.len() - 1].0));
            }
            crate::node::lemma_sorted_concat(a, seq![x]);
            assert(a.push(x) =~= a + seq![x]);
        }
    }
}

/// A sorted sequence read backwards is in descending order.
pub proof fn lemma_sorted_reverse<C: Component, V>(s: Seq<(Seq<C>, V)>)
    requires
        sorted(s),
    ensures
        sorted_desc(s.reverse()),
{
    let r = s.reverse();
    assert forall|i: int, j: int| 0 <= i < j < r.len() implies key_lt(#[trigger] r[j].0, #[trigger] r[i].0) by {
        assert(r[i] == s[s.len() - 1 - i]);
        assert(r[j] == s[s.len() - 1 - j]);
    }
}

/// Reverses a list of subtrees into a value stack that visits them in order.
pub fn forest_stack<'a, C, V>(nodes: Vec<&'a Node<C, V>>) -> (r: Vec<&'a Node<C, V>>)
    ensures
        stack_values(r@) == crate::seek::forest_values(nodes@),
{
    let ghost all = nodes@;
    let mut rest = nodes;
    let mut r: Vec<&'a Node<C, V>> = Vec::with_capacity(rest.len());
    assert(crate::seek::forest_values(all) + stack_values(r@) =~= crate::seek::forest_values(all));
    loop
        invariant
            all == nodes@,
            crate::seek::forest_values(rest@) + stack_values(r@) == crate::seek::forest_values(all),
        decreases rest@.len(),
    {
        let ghost before = rest@;
        match rest.pop() {
            None => {
                assert(crate::seek::forest_values(rest@) =~= Seq::<V>::empty());
                assert(Seq::<V>::empty() + stack_values(r@) =~= stack_values(r@));
                return r;
            },
            Some(n) => {
                let ghost prev = r@;
                r.push(n);
                proof {
                    assert(r@.drop_last() == prev);
                    assert(rest@ == before.drop_last());
                    let a = crate::seek::forest_values(rest@);
                    let b = values_of(entries(*n));
                    assert(a + b + stack_values(prev) =~= a + (b + stack_values(prev)));
                }
            },
        }
    }
}

/// A value stack for a single subtree.
pub proof fn lemma_single_stack<C, V>(s: Seq<&Node<C, V>>)
    requires
        s.len() == 1,
    ensures
        stack_values(s) == values_of(entries(*s[0])),
        crate::seek::forest_values(s) == values_of(entries(*s[0])),
{
    assert(s.drop_last() =~= Seq::<&Node<C, V>>::empty());
    assert(stack_values(s.drop_last()) =~= Seq::<V>::empty());
    assert(crate::seek::forest_values(s.drop_last()) =~= Seq::<V>::empty());
    assert(s.last() == s[0]);
    assert(stack_values(s) =~= values_of(entries(*s[0])));
    assert(crate::seek::forest_values(s) =~= values_of(entries(*s[0])));
}

/// The reverse cursor over a list of subtrees yields their values backwards.
pub proof fn lemma_subtree_frames<C, V>(s: Seq<&Node<C, V>>)
    ensures
        rev_frames_values(subtree_frames(s)) == crate::seek::forest_values(s).reverse(),
    decreases s.len(),
{
    if s.len() == 0 {
        assert(subtree_frames(s) =~= Seq::<RevFrame<C, V>>::empty());
        assert(crate::seek::forest_values(s).reverse() =~= Seq::<V>::empty());
    } else {
        lemma_subtree_frames(s.drop_last());
        assert(subtree_frames(s).drop_last() =~= subtree_frames(s.drop_last()));
        assert(subtree_frames(s).last() == RevFrame::Subtree(s.last()));
        lemma_reverse_add(crate::seek::forest_values(s.drop_last()), values_of(entries(*s.last())));
    }
}

/// Frames, for ascending iteration, over a list of keyed subtrees in ascending order.
pub fn forest_frames<'a, C, V>(seeds: Vec<(&'a Node<C, V>, Vec<C>)>) -> (r: Vec<RangeFrame<'a, C, V>>)
    ensures
        frames_entries(r@) == crate::seek::roots_entries(seeds@),
{
    let ghost all = seeds@;
    let mut rest = seeds;
    let mut r: Vec<RangeFrame<'a, C, V>> = Vec::with_capacity(rest.len());
    assert(crate::seek::roots_entries(all) + frames_entries(r@) =~= crate::seek::roots_entries(all));
    loop
        invariant
            all == seeds@,
            crate::seek::roots_entries(rest@) + frames_entries(r@) == crate::seek::roots_entries(all),
        decreases rest@.len(),
    {
        let ghost before = rest@;
        match rest.pop() {
            None => {
                assert(crate::seek::roots_entries(rest@) =~= Seq::<(Seq<C>, V)>::empty());
                assert(Seq::<(Seq<C>, V)>::empty() + frames_entries(r@) =~= frames_entries(r@));
                return r;
            },
            Some((n, k)) => {
                let ghost prev = r@;
                let ghost x = shift(k@, entries(*n));
                r.push(RangeFrame::Subtree { node: n, key: k });
                proof {
                    assert(r@.drop_last() == prev);
                    assert(rest@ == before.drop_last());
                    let a = crate::seek::roots_entries(rest@);
                    assert(a + x + frames_entries(prev) =~= a + (x + frames_entries(prev)));
                }
            },
        }
    }
}

/// Frames, for descending iteration, over a list of keyed subtrees in ascending
/// order.
pub fn forest_frames_rev<'a, C, V>(seeds: Vec<(&'a Node<C, V>, Vec<C>)>) -> (r: Vec<RangeFrame<'a, C, V>>)
    ensures
        rev_frames_entries(r@) == crate::seek::roots_entries(seeds@).reverse(),
{
    let ghost all = seeds@;
    let mut seeds = seeds;
    let mut r: Vec<RangeFrame<'a, C, V>> = Vec::with_capacity(seeds.len());
    let ghost mut taken: nat = 0;
    assert(all.take(0) =~= Seq::<(&Node<C, V>, Vec<C>)>::empty());
    assert(crate::seek::roots_entries(all.take(0)).reverse() =~= Seq::<(Seq<C>, V)>::empty());
    assert(all.skip(0) =~= all);
    while seeds.len() > 0
        invariant
            taken <= all.len(),
            seeds@ == all.skip(taken as int),
            rev_frames_entries(r@) == crate::seek::roots_entries(all.take(taken as int)).reverse(),
        decreases seeds@.len(),
    {
        let (n, k) = seeds.remove(0);
        let ghost prev = r@;
        r.push(RangeFrame::Subtree { node: n, key: k });
        proof {
            assert(r@.drop_last() == prev);
            let t = all.take(taken + 1 as int);
            assert(t.drop_last() =~= all.take(taken as int));
            assert(t.last() == all[taken as int]);
            lemma_reverse_add(crate::seek::roots_entries(all.take(taken as int)), shift(k@, entries(*n)));
            taken = taken + 1;
            assert(seeds@ =~= all.skip(taken as int));
        }
    }
    assert(all.take(taken as int) =~= all);
    r
}

} // verus!
