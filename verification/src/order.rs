//! Total orders on key components and the lexicographic order on keys.

use vstd::prelude::*;

verus! {

/// The outcome of comparing two components or two keys.
#[derive(Clone, Copy, PartialEq, Eq, Structural, Debug)]
pub enum Order {
    Less,
    Equal,
    Greater,
}

/// A component type the trie can store: it carries a strict total order that the
/// executable [`compare`](Component::compare) decides, and an exact duplicate.
///
/// The trie keeps the edges of a node sorted by their first component and finds
/// them by binary search, so this order is what orders stored keys.
pub trait Component: Sized {
    /// The strict order relation on components.
    spec fn comp_lt(self, other: Self) -> bool;

    /// `comp_lt` is irreflexive, transitive and total on distinct values.
    proof fn lemma_strict_total_order()
        ensures
            forall|a: Self| !#[trigger] a.comp_lt(a),
            forall|a: Self, b: Self, c: Self|
                #[trigger] a.comp_lt(b) && #[trigger] b.comp_lt(c) ==> a.comp_lt(c),
            forall|a: Self, b: Self| #![trigger a.comp_lt(b)] a != b ==> a.comp_lt(b) || b.comp_lt(a),
    ;

    /// Decides the order between two components.
    fn compare(&self, other: &Self) -> (c: Order)
        ensures
            (c == Order::Less) <==> self.comp_lt(*other),
            (c == Order::Equal) <==> *self == *other,
            (c == Order::Greater) <==> other.comp_lt(*self),
    ;

    /// Returns a component equal to `self`.
    fn duplicate(&self) -> (r: Self)
        ensures
            r == *self,
    ;
}

/// Derived facts: asymmetry of the component order.
pub proof fn lemma_comp_asym<C: Component>(a: C, b: C)
    ensures
        a.comp_lt(b) ==> !b.comp_lt(a),
        a.comp_lt(b) ==> a != b,
{
    C::lemma_strict_total_order();
    if a.comp_lt(b) && b.comp_lt(a) {
        assert(a.comp_lt(a));
    }
}

/// Strict lexicographic order on keys: a proper prefix sorts first, otherwise the
/// first differing component decides.
pub open spec fn key_lt<C: Component>(a: Seq<C>, b: Seq<C>) -> bool
    decreases a.len(),
{
    if b.len() == 0 {
        false
    } else if a.len() == 0 {
        true
    } else if a[0] == b[0] {
        key_lt(a.drop_first(), b.drop_first())
    } else {
        a[0].comp_lt(b[0])
    }
}

/// Non-strict lexicographic order on keys.
pub open spec fn key_le<C: Component>(a: Seq<C>, b: Seq<C>) -> bool {
    a == b || key_lt(a, b)
}

pub proof fn lemma_key_lt_irreflexive<C: Component>(a: Seq<C>)
    ensures
        !key_lt(a, a),
    decreases a.len(),
{
    if a.len() > 0 {
        lemma_key_lt_irreflexive(a.drop_first());
    }
}

pub proof fn lemma_key_lt_transitive<C: Component>(a: Seq<C>, b: Seq<C>, c: Seq<C>)
    requires
        key_lt(a, b),
        key_lt(b, c),
    ensures
        key_lt(a, c),
    decreases a.len(),
{
    C::lemma_strict_total_order();
    if a.len() > 0 && b.len() > 0 && c.len() > 0 {
        if a[0] == b[0] && b[0] == c[0] {
            lemma_key_lt_transitive(a.drop_first(), b.drop_first(), c.drop_first());
        }
    }
}

pub proof fn lemma_key_lt_total<C: Component>(a: Seq<C>, b: Seq<C>)
    requires
        a != b,
    ensures
        key_lt(a, b) || key_lt(b, a),
    decreases a.len(),
{
    C::lemma_strict_total_order();
    if a.len() == 0 {
        if b.len() == 0 {
            assert(a =~= b);
        }
    } else if b.len() == 0 {
    } else if a[0] == b[0] {
        assert(a.drop_first() != b.drop_first()) by {
            if a.drop_first() == b.drop_first() {
                assert(a =~= seq![a[0]] + a.drop_first());
                assert(b =~= seq![b[0]] + b.drop_first());
            }
        }
        lemma_key_lt_total(a.drop_first(), b.drop_first());
    }
}

pub proof fn lemma_key_lt_asym<C: Component>(a: Seq<C>, b: Seq<C>)
    ensures
        key_lt(a, b) ==> !key_lt(b, a),
{
    if key_lt(a, b) && key_lt(b, a) {
        lemma_key_lt_transitive(a, b, a);
        lemma_key_lt_irreflexive(a);
    }
}

/// A shared prefix does not change the order.
pub proof fn lemma_key_lt_prefix<C: Component>(p: Seq<C>, a: Seq<C>, b: Seq<C>)
    ensures
        key_lt(p + a, p + b) == key_lt(a, b),
    decreases p.len(),
{
    if p.len() > 0 {
        assert((p + a).drop_first() =~= p.drop_first() + a);
        assert((p + b).drop_first() =~= p.drop_first() + b);
        lemma_key_lt_prefix(p.drop_first(), a, b);
    } else {
        assert(p + a =~= a);
        assert(p + b =~= b);
    }
}

/// Keys whose first components differ are ordered by those components.
pub proof fn lemma_key_lt_first<C: Component>(a: Seq<C>, b: Seq<C>)
    requires
        a.len() > 0,
        b.len() > 0,
        a[0] != b[0],
    ensures
        key_lt(a, b) == a[0].comp_lt(b[0]),
{
}

/// A proper prefix sorts before every key it prefixes.
pub proof fn lemma_key_lt_proper_prefix<C: Component>(a: Seq<C>, b: Seq<C>)
    requires
        a.is_prefix_of(b),
        a.len() < b.len(),
    ensures
        key_lt(a, b),
    decreases a.len(),
{
    if a.len() > 0 {
        assert(a[0] == b[0]);
        assert(a.drop_first().is_prefix_of(b.drop_first())) by {
            assert(forall|i: int| 0 <= i < a.drop_first().len() ==> a.drop_first()[i] == a[i + 1]);
        }
        lemma_key_lt_proper_prefix(a.drop_first(), b.drop_first());
    }
}

/// Compares two keys in the lexicographic order `key_lt`.
pub fn compare_keys<C: Component>(a: &[C], b: &[C]) -> (r: Order)
    ensures
        (r == Order::Less) <==> key_lt(a@, b@),
        (r == Order::Equal) <==> a@ == b@,
        (r == Order::Greater) <==> key_lt(b@, a@),
{
    let mut i: usize = 0;
    proof {
        assert(a@.skip(0) =~= a@);
        assert(b@.skip(0) =~= b@);
    }
    while i < a.len() && i < b.len()
        invariant
            i <= a@.len(),
            i <= b@.len(),
            a@.take(i as int) == b@.take(i as int),
            key_lt(a@, b@) == key_lt(a@.skip(i as int), b@.skip(i as int)),
            key_lt(b@, a@) == key_lt(b@.skip(i as int), a@.skip(i as int)),
            (a@ == b@) == (a@.skip(i as int) == b@.skip(i as int)),
        decreases a@.len() - i,
    {
        let ghost sa = a@.skip(i as int);
        let ghost sb = b@.skip(i as int);
        match a[i].compare(&b[i]) {
            Order::Equal => {
                proof {
                    assert(sa.drop_first() =~= a@.skip(i + 1));
                    assert(sb.drop_first() =~= b@.skip(i + 1));
                    assert(a@.take(i + 1) =~= a@.take(i as int).push(a@[i as int]));
                    assert(b@.take(i + 1) =~= b@.take(i as int).push(b@[i as int]));
                    if sa.drop_first() == sb.drop_first() {
                        assert(sa =~= sb) by {
                            assert(sa =~= seq![sa[0]] + sa.drop_first());
                            assert(sb =~= seq![sb[0]] + sb.drop_first());
                        }
                    }
                }
                i = i + 1;
            },
            Order::Less => {
                proof {
                    lemma_comp_asym(a@[i as int], b@[i as int]);
                    assert(sa != sb) by {
                        assert(sa[0] != sb[0]);
                    }
                }
                return Order::Less;
            },
            Order::Greater => {
                proof {
                    lemma_comp_asym(b@[i as int], a@[i as int]);
                    assert(sa != sb) by {
                        assert(sa[0] != sb[0]);
                    }
                }
                return Order::Greater;
            },
        }
    }
    proof {
        let sa = a@.skip(i as int);
        let sb = b@.skip(i as int);
        if i == a.len() && i == b.len() {
            assert(sa =~= sb);
        } else {
            assert(sa != sb) by {
                assert(sa.len() != sb.len());
            }
        }
    }
    if a.len() < b.len() {
        Order::Less
    } else if a.len() == b.len() {
        Order::Equal
    } else {
        Order::Greater
    }
}

impl Component for u8 {
    open spec fn comp_lt(self, other: Self) -> bool {
        self < other
    }

    proof fn lemma_strict_total_order() {
    }

    fn compare(&self, other: &Self) -> (c: Order) {
        if *self < *other {
            Order::Less
        } else if *self == *other {
            Order::Equal
        } else {
            Order::Greater
        }
    }

    fn duplicate(&self) -> (r: Self) {
        *self
    }
}

impl Component for u16 {
    open spec fn comp_lt(self, other: Self) -> bool {
        self < other
    }

    proof fn lemma_strict_total_order() {
    }

    fn compare(&self, other: &Self) -> (c: Order) {
        if *self < *other {
            Order::Less
        } else if *self == *other {
            Order::Equal
        } else {
            Order::Greater
        }
    }

    fn duplicate(&self) -> (r: Self) {
        *self
    }
}

impl Component for u32 {
    open spec fn comp_lt(self, other: Self) -> bool {
        self < other
    }

    proof fn lemma_strict_total_order() {
    }

    fn compare(&self, other: &Self) -> (c: Order) {
        if *self < *other {
            Order::Less
        } else if *self == *other {
            Order::Equal
        } else {
            Order::Greater
        }
    }

    fn duplicate(&self) -> (r: Self) {
        *self
    }
}

impl Component for u64 {
    open spec fn comp_lt(self, other: Self) -> bool {
        self < other
    }

    proof fn lemma_strict_total_order() {
    }

    fn compare(&self, other: &Self) -> (c: Order) {
        if *self < *other {
            Order::Less
        } else if *self == *other {
            Order::Equal
        } else {
            Order::Greater
        }
    }

    fn duplicate(&self) -> (r: Self) {
        *self
    }
}

impl Component for u128 {
    open spec fn comp_lt(self, other: Self) -> bool {
        self < other
    }

    proof fn lemma_strict_total_order() {
    }

    fn compare(&self, other: &Self) -> (c: Order) {
        if *self < *other {
            Order::Less
        } else if *self == *other {
            Order::Equal
        } else {
            Order::Greater
        }
    }

    fn duplicate(&self) -> (r: Self) {
        *self
    }
}

impl Component for char {
    open spec fn comp_lt(self, other: Self) -> bool {
        self < other
    }

    proof fn lemma_strict_total_order() {
    }

    fn compare(&self, other: &Self) -> (c: Order) {
        if *self < *other {
            Order::Less
        } else if *self == *other {
            Order::Equal
        } else {
            Order::Greater
        }
    }

    fn duplicate(&self) -> (r: Self) {
        *self
    }
}

} // verus!
