//! What holds across the operations of a trie, stated over the models its
//! operations' contracts use: the key/value map (`@`) and the ascending entries.

use vstd::prelude::*;
use crate::iter::{Bound, in_range};
use crate::key::{RadixKey, be};
use crate::node::{
    below, last_value, lemma_longest_prefix, lemma_prefix_entries_filter, longest_prefix_value, prefix_entries,
    prefix_of, sorted, values_of,
};
use crate::order::{Component, key_le, key_lt, lemma_key_lt_asym, lemma_key_lt_irreflexive, lemma_key_lt_proper_prefix, lemma_key_lt_transitive};
use crate::root::key_set;
use crate::seek::under;
use crate::unsync::Radix;

verus! {

/// A read gives back what the last write at that key stored, and a write leaves
/// every other key as it was.
pub proof fn law_get_after_insert<C, V>(m: Map<Seq<C>, V>, k: Seq<C>, v: V, other: Seq<C>)
    ensures
        m.insert(k, v).get(k) == Some(v),
        other != k ==> m.insert(k, v).get(other) == m.get(other),
{
}

/// Writing a key twice keeps only the second value.
pub proof fn law_insert_overwrites<C, V>(m: Map<Seq<C>, V>, k: Seq<C>, v1: V, v2: V)
    ensures
        m.insert(k, v1).insert(k, v2) == m.insert(k, v2),
{
    assert(m.insert(k, v1).insert(k, v2) =~= m.insert(k, v2));
}

/// Removing a key that a write just added to a trie without it gives back the
/// trie as it was.
pub proof fn law_remove_undoes_insert<C, V>(m: Map<Seq<C>, V>, k: Seq<C>, v: V)
    requires
        !m.contains_key(k),
    ensures
        m.insert(k, v).remove(k) == m,
{
    assert(m.insert(k, v).remove(k) =~= m);
}

/// After a removal the key is absent, and every other key is as it was.
pub proof fn law_get_after_remove<C, V>(m: Map<Seq<C>, V>, k: Seq<C>, other: Seq<C>)
    ensures
        m.remove(k).get(k) is None,
        other != k ==> m.remove(k).get(other) == m.get(other),
{
}

/// A write adds one value exactly when the key was absent.
pub proof fn law_len_after_insert<C, V>(m: Map<Seq<C>, V>, k: Seq<C>, v: V)
    requires
        m.dom().finite(),
    ensures
        m.insert(k, v).len() == if m.contains_key(k) {
            m.len()
        } else {
            m.len() + 1
        },
{
    if m.contains_key(k) {
        assert(m.insert(k, v).dom() =~= m.dom());
    }
}

/// Removing the values under a key and then the value at it is removing the
/// whole prefix: `delete_prefix` is `remove_descendants` followed by `remove`.
pub proof fn law_delete_prefix_splits<C, V>(m: Map<Seq<C>, V>, k: Seq<C>)
    ensures
        m.remove_keys(key_set(k, true)) == m.remove_keys(key_set(k, false)).remove(k),
{
    assert forall|x: Seq<C>| #[trigger] key_set(k, true).contains(x) == (key_set(k, false).contains(x) || x == k) by {
        if k.is_prefix_of(x) && x.len() == k.len() {
            assert(x =~= k);
        }
    }
    assert(m.remove_keys(key_set(k, true)) =~= m.remove_keys(key_set(k, false)).remove(k));
}

/// Removing the values strictly under a key keeps the value at the key.
pub proof fn law_remove_descendants_keeps_key<C, V>(m: Map<Seq<C>, V>, k: Seq<C>)
    ensures
        m.remove_keys(key_set(k, false)).get(k) == m.get(k),
{
    assert(!key_set(k, false).contains(k));
}

/// The longest-prefix match counts an exact match as its own ancestor: it is the
/// value at the key when there is one, and the strict ancestor's otherwise.
pub proof fn law_ancestor_inclusive<C, V>(m: Map<Seq<C>, V>, k: Seq<C>)
    ensures
        last_value(prefix_entries(m, k, k.len() + 1)) == if m.contains_key(k) {
            Some(m[k])
        } else {
            last_value(prefix_entries(m, k, k.len()))
        },
{
    let j = (k.len() + 1) as nat;
    assert(k.take(k.len() as int) =~= k);
    let prev = prefix_entries(m, k, (j - 1) as nat);
    if m.contains_key(k) {
        assert(prefix_entries(m, k, j) == prev + seq![(k, m[k])]);
        assert((prev + seq![(k, m[k])]).last() == (k, m[k]));
    } else {
        assert(prefix_entries(m, k, j) =~= prev);
    }
}

/// The entries with exactly the key `k`.
pub open spec fn at_key<C, V>(k: Seq<C>) -> spec_fn((Seq<C>, V)) -> bool {
    |e: (Seq<C>, V)| e.0 == k
}

/// In ascending order, the entry at `k` (if any) comes before the entries strictly
/// under `k`, and together they are the entries at or under `k`.
pub proof fn lemma_under_inclusive<C: Component, V>(s: Seq<(Seq<C>, V)>, k: Seq<C>)
    requires
        sorted(s),
    ensures
        s.filter(under::<C, V>(k, true)) == s.filter(at_key::<C, V>(k)) + s.filter(under::<C, V>(k, false)),
    decreases s.len(),
{
    reveal(Seq::filter);
    let inc = under::<C, V>(k, true);
    let exact = at_key::<C, V>(k);
    let strict = under::<C, V>(k, false);
    if s.len() == 0 {
        assert(s.filter(inc) =~= s.filter(exact) + s.filter(strict));
    } else {
        let d = s.drop_last();
        let e = s.last();
        assert(sorted(d)) by {
            assert forall|i: int, j: int| 0 <= i < j < d.len() implies key_lt(#[trigger] d[i].0, #[trigger] d[j].0) by {
                assert(d[i] == s[i]);
                assert(d[j] == s[j]);
            }
        }
        lemma_under_inclusive(d, k);
        if e.0 == k {
            assert forall|i: int| 0 <= i < d.len() implies !inc(#[trigger] d[i]) by {
                assert(d[i] == s[i]);
                assert(key_lt(s[i].0, s[s.len() - 1].0));
                if k.is_prefix_of(d[i].0) {
                    if d[i].0.len() == k.len() {
                        assert(d[i].0 =~= k);
                        lemma_key_lt_irreflexive(k);
                    } else {
                        lemma_key_lt_proper_prefix(k, d[i].0);
                        lemma_key_lt_asym(k, d[i].0);
                    }
                }
            }
            crate::node::lemma_filter_none(d, inc);
            assert forall|i: int| 0 <= i < d.len() implies !exact(#[trigger] d[i]) && !strict(d[i]) by {
                assert(!inc(d[i]));
            }
            crate::node::lemma_filter_none(d, exact);
            crate::node::lemma_filter_none(d, strict);
            assert(s.filter(inc) =~= s.filter(exact) + s.filter(strict));
        } else if strict(e) {
            assert(s.filter(inc) == d.filter(inc).push(e));
            assert(s.filter(strict) == d.filter(strict).push(e));
            assert(s.filter(exact) == d.filter(exact));
            assert(s.filter(inc) =~= s.filter(exact) + s.filter(strict));
        } else {
            assert(!inc(e)) by {
                if k.is_prefix_of(e.0) && e.0.len() == k.len() {
                    assert(e.0 =~= k);
                }
            }
            assert(s.filter(inc) == d.filter(inc));
            assert(s.filter(strict) == d.filter(strict));
            assert(s.filter(exact) == d.filter(exact));
        }
    }
}

/// The entries of a sorted sequence at one key are at most one.
pub proof fn lemma_at_key<C: Component, V>(s: Seq<(Seq<C>, V)>, k: Seq<C>, m: Map<Seq<C>, V>)
    requires
        sorted(s),
        forall|x: Seq<C>, v: V| m.contains_key(x) && m[x] == v <==> #[trigger] s.contains((x, v)),
    ensures
        values_of(s.filter(at_key::<C, V>(k))) == if m.contains_key(k) {
            seq![m[k]]
        } else {
            Seq::<V>::empty()
        },
{
    let f = at_key::<C, V>(k);
    let t = s.filter(f);
    broadcast use Seq::lemma_filter_contains_rev;
    assert forall|i: int| 0 <= i < t.len() implies #[trigger] t[i] == (k, m[k]) && m.contains_key(k) by {
        s.lemma_filter_pred(f, i);
        assert(t.contains(t[i]));
        assert(s.contains(t[i]));
    }
    crate::iter::lemma_sorted_filter(s, f);
    if t.len() > 1 {
        assert(t[0] == t[1]);
        assert(key_lt(t[0].0, t[1].0));
        lemma_key_lt_irreflexive(k);
    }
    if m.contains_key(k) {
        assert(s.contains((k, m[k])));
        let i = choose|i: int| 0 <= i < s.len() && s[i] == (k, m[k]);
        s.lemma_filter_contains(f, i);
        assert(t.len() > 0);
        assert(values_of(t) =~= seq![m[k]]);
    } else {
        if t.len() > 0 {
            assert(t[0] == (k, m[k]));
        }
        assert(values_of(t) =~= Seq::<V>::empty());
    }
}

/// The values at or under a key are the value at the key, if any, followed by the
/// values strictly under it: what `drain_prefix` returns is the value at the key
/// first, then what `drain_descendants` would return.
pub proof fn law_prefix_is_key_then_descendants<C: Component, V>(t: &Radix<C, V>, k: Seq<C>)
    requires
        t.wf(),
    ensures
        values_of(t.entries().filter(under::<C, V>(k, true))) == (if t@.contains_key(k) {
            seq![t@[k]]
        } else {
            Seq::<V>::empty()
        }) + values_of(t.entries().filter(under::<C, V>(k, false))),
{
    t.lemma_model();
    lemma_under_inclusive(t.entries(), k);
    lemma_at_key(t.entries(), k, t@);
    crate::iter::lemma_values_of_add(
        t.entries().filter(at_key::<C, V>(k)),
        t.entries().filter(under::<C, V>(k, false)),
    );
}

/// The smallest entry's key is at or below every stored key.
pub proof fn law_minimum_is_least<C: Component, V>(t: &Radix<C, V>, k: Seq<C>)
    requires
        t.wf(),
        t@.contains_key(k),
    ensures
        t.entries().len() > 0,
        key_le(t.entries()[0].0, k),
{
    t.lemma_model();
    assert(t.entries().contains((k, t@[k])));
    let i = choose|i: int| 0 <= i < t.entries().len() && t.entries()[i] == (k, t@[k]);
    if i > 0 {
        assert(key_lt(t.entries()[0].0, t.entries()[i].0));
    }
}

/// The largest entry's key is at or above every stored key.
pub proof fn law_maximum_is_greatest<C: Component, V>(t: &Radix<C, V>, k: Seq<C>)
    requires
        t.wf(),
        t@.contains_key(k),
    ensures
        t.entries().len() > 0,
        key_le(k, t.entries().last().0),
{
    t.lemma_model();
    assert(t.entries().contains((k, t@[k])));
    let i = choose|i: int| 0 <= i < t.entries().len() && t.entries()[i] == (k, t@[k]);
    let n = t.entries().len() - 1;
    if i < n {
        assert(key_lt(t.entries()[i].0, t.entries()[n].0));
    }
}

/// A range whose lower end lies above its upper end holds nothing.
pub proof fn law_inverted_range_is_empty<C: Component, V>(s: Seq<(Seq<C>, V)>, lo: Seq<C>, hi: Seq<C>)
    requires
        key_lt(hi, lo),
    ensures
        s.filter(in_range::<C, V>(Bound::Included(lo), Bound::Included(hi))) == Seq::<(Seq<C>, V)>::empty(),
{
    let f = in_range::<C, V>(Bound::Included(lo), Bound::Included(hi));
    assert forall|i: int| 0 <= i < s.len() implies !f(#[trigger] s[i]) by {
        let k = s[i].0;
        if key_le(lo, k) && key_le(k, hi) {
            if lo == k {
                lemma_key_lt_asym(hi, k);
            } else if k == hi {
                lemma_key_lt_asym(hi, lo);
            } else {
                lemma_key_lt_transitive(lo, k, hi);
                lemma_key_lt_asym(hi, lo);
            }
        }
    }
    crate::node::lemma_filter_none(s, f);
}

/// A `str` key and a `Vec<char>` key over the same characters address the same
/// entry.
pub proof fn law_str_aliases_chars(s: &str, v: &Vec<char>)
    requires
        s@ == v@,
    ensures
        s.key_view() == v.key_view(),
{
}

/// Comparing keys that extend two equal-length keys by one component each: the
/// longer keys compare as the shorter ones do, or by the last components when
/// those are equal.
pub proof fn lemma_key_lt_push<C: Component>(a: Seq<C>, b: Seq<C>, p: C, q: C)
    requires
        a.len() == b.len(),
    ensures
        key_lt(a.push(p), b.push(q)) == (key_lt(a, b) || (a == b && p.comp_lt(q))),
    decreases a.len(),
{
    C::lemma_strict_total_order();
    let ap = a.push(p);
    let bq = b.push(q);
    assert(ap.len() > 0 && bq.len() > 0);
    if a.len() == 0 {
        assert(a =~= b);
        assert(ap[0] == p && bq[0] == q);
        assert(ap.drop_first() =~= Seq::<C>::empty());
        assert(bq.drop_first() =~= Seq::<C>::empty());
        assert(!key_lt(Seq::<C>::empty(), Seq::<C>::empty()));
        assert(!key_lt(a, b));
    } else {
        assert(ap[0] == a[0] && bq[0] == b[0]);
        assert(ap.drop_first() =~= a.drop_first().push(p));
        assert(bq.drop_first() =~= b.drop_first().push(q));
        lemma_key_lt_push(a.drop_first(), b.drop_first(), p, q);
        if a[0] == b[0] && a.drop_first() == b.drop_first() {
            assert(a =~= b) by {
                assert(a =~= seq![a[0]] + a.drop_first());
                assert(b =~= seq![b[0]] + b.drop_first());
            }
        }
        if a == b {
            assert(a.drop_first() == b.drop_first());
        }
    }
}

/// Integer keys: over `n` big-endian bytes, key order is numeric order and the
/// encoding is injective, for every value that fits in `n` bytes.
pub proof fn law_be_order(x: nat, y: nat, n: nat)
    ensures
        be(x, n).len() == n,
        x < y && y < vstd::arithmetic::power::pow(256, n) ==> key_lt(be(x, n), be(y, n)),
        x < vstd::arithmetic::power::pow(256, n) && y < vstd::arithmetic::power::pow(256, n) ==> (be(x, n)
            == be(y, n) <==> x == y),
    decreases n,
{
    vstd::arithmetic::power::lemma_pow_positive(256, n);
    if n == 0 {
        vstd::arithmetic::power::lemma_pow0(256);
    }
    if n > 0 {
        let qx = x / 256;
        let qy = y / 256;
        let rx = x % 256;
        let ry = y % 256;
        law_be_order(qx, qy, (n - 1) as nat);
        law_be_order(qy, qx, (n - 1) as nat);
        let p = vstd::arithmetic::power::pow(256, (n - 1) as nat);
        assert(vstd::arithmetic::power::pow(256, n) == 256 * p) by {
            vstd::arithmetic::power::lemma_pow_adds(256, 1, (n - 1) as nat);
            vstd::arithmetic::power::lemma_pow1(256);
        }
        assert(x == 256 * qx + rx && 0 <= rx < 256) by (nonlinear_arith)
            requires
                qx == x / 256,
                rx == x % 256,
        ;
        assert(y == 256 * qy + ry && 0 <= ry < 256) by (nonlinear_arith)
            requires
                qy == y / 256,
                ry == y % 256,
        ;
        assert(x < 256 * p ==> qx < p) by (nonlinear_arith)
            requires
                x == 256 * qx + rx,
                0 <= rx < 256,
        ;
        assert(y < 256 * p ==> qy < p) by (nonlinear_arith)
            requires
                y == 256 * qy + ry,
                0 <= ry < 256,
        ;
        assert((rx as u8) as nat == rx);
        assert((ry as u8) as nat == ry);
        assert(be(x, n) == be(qx, (n - 1) as nat).push(rx as u8));
        assert(be(y, n) == be(qy, (n - 1) as nat).push(ry as u8));
        lemma_key_lt_push(be(qx, (n - 1) as nat), be(qy, (n - 1) as nat), rx as u8, ry as u8);
        if x < y && y < vstd::arithmetic::power::pow(256, n) {
            assert(qy < p);
            assert(qx < qy || (qx == qy && rx < ry)) by (nonlinear_arith)
                requires
                    x == 256 * qx + rx,
                    y == 256 * qy + ry,
                    0 <= rx < 256,
                    0 <= ry < 256,
                    x < y,
            ;
            if qx < qy {
                assert(key_lt(be(qx, (n - 1) as nat), be(qy, (n - 1) as nat)));
            } else {
                assert((rx as u8).comp_lt(ry as u8));
            }
            assert(key_lt(be(x, n), be(y, n)));
        }
        if be(x, n) == be(y, n) && x < 256 * p && y < 256 * p {
            assert(be(x, n).drop_last() == be(qx, (n - 1) as nat));
            assert(be(y, n).drop_last() == be(qy, (n - 1) as nat));
            assert(be(x, n).last() == rx as u8);
            assert(be(y, n).last() == ry as u8);
            assert(qx == qy);
            assert(rx == ry);
            assert(x == y);
        }
    }
}

/// `ancestors` and `walk_path` list every stored key that `k` starts with, `k`
/// itself included, in ascending key order: exactly the stored entries, in order,
/// whose key is a prefix of `k`.
pub proof fn law_ancestors_are_stored_prefixes<C: Component, V>(t: &Radix<C, V>, k: Seq<C>)
    requires
        t.wf(),
    ensures
        prefix_entries(t@, k, k.len() + 1) == t.entries().filter(prefix_of::<C, V>(k)),
{
    t.lemma_model();
    assert forall|x: (Seq<C>, V)| #[trigger] t.entries().contains(x) <==> (t@.contains_key(x.0) && t@[x.0] == x.1) by {
        assert(t.entries().contains((x.0, x.1)) == t.entries().contains(x));
    }
    lemma_prefix_entries_filter(t@, t.entries(), k);
}

/// The inclusive (`j == k.len() + 1`) or strict (`j == k.len()`) ancestor match is
/// the value of the longest stored key, shorter than `j`, that `k` starts with, and
/// there is none exactly when no stored key shorter than `j` is a prefix of `k`.
pub proof fn law_ancestor_is_longest_prefix<C, V>(m: Map<Seq<C>, V>, k: Seq<C>, j: nat)
    requires
        j <= k.len() + 1,
    ensures
        longest_prefix_value(m, k, j, last_value(prefix_entries(m, k, j))),
{
    lemma_longest_prefix(m, k, j);
}

/// Byte components are ordered numerically.
pub proof fn law_u8_component_order(a: u8, b: u8)
    ensures
        a.comp_lt(b) <==> a < b,
{
}

/// `u16` components are ordered numerically.
pub proof fn law_u16_component_order(a: u16, b: u16)
    ensures
        a.comp_lt(b) <==> a < b,
{
}

/// `u32` components are ordered numerically.
pub proof fn law_u32_component_order(a: u32, b: u32)
    ensures
        a.comp_lt(b) <==> a < b,
{
}

/// `u64` components are ordered numerically.
pub proof fn law_u64_component_order(a: u64, b: u64)
    ensures
        a.comp_lt(b) <==> a < b,
{
}

/// `u128` components are ordered numerically.
pub proof fn law_u128_component_order(a: u128, b: u128)
    ensures
        a.comp_lt(b) <==> a < b,
{
}

/// `char` components are ordered as `char`s are: by code point.
pub proof fn law_char_component_order(a: char, b: char)
    ensures
        a.comp_lt(b) <==> a < b,
        a.comp_lt(b) <==> (a as u32) < (b as u32),
{
}

/// Over `char` components, key order is the ordinary lexicographic order of
/// strings: the first differing character decides, and a proper prefix comes
/// first.
pub proof fn law_char_keys_lexicographic(a: Seq<char>, b: Seq<char>, i: int)
    requires
        0 <= i < a.len(),
        i < b.len(),
        a.take(i) == b.take(i),
        a[i] < b[i],
    ensures
        key_lt(a, b),
        !key_lt(b, a),
    decreases i,
{
    if i > 0 {
        assert(a[0] == a.take(i)[0] && b[0] == b.take(i)[0]);
        assert(a.drop_first().take(i - 1) =~= a.take(i).drop_first());
        assert(b.drop_first().take(i - 1) =~= b.take(i).drop_first());
        law_char_keys_lexicographic(a.drop_first(), b.drop_first(), i - 1);
    }
    lemma_key_lt_asym(a, b);
}

/// The powers of 256 that integer keys span.
proof fn lemma_byte_ranges()
    ensures
        vstd::arithmetic::power::pow(256, 1) == 0x100,
        vstd::arithmetic::power::pow(256, 2) == 0x1_0000,
        vstd::arithmetic::power::pow(256, 4) == 0x1_0000_0000,
        vstd::arithmetic::power::pow(256, 8) == 0x1_0000_0000_0000_0000,
        vstd::arithmetic::power::pow(256, 16) == 0x1_0000_0000_0000_0000_0000_0000_0000_0000,
{
    reveal_with_fuel(vstd::arithmetic::power::pow, 17);
}

/// `u8` keys: one byte each; numeric order is key order, and distinct values are
/// distinct keys.
pub proof fn law_u8_key(x: u8, y: u8)
    ensures
        x.key_view().len() == 1,
        x < y ==> key_lt(x.key_view(), y.key_view()),
        x.key_view() == y.key_view() ==> x == y,
{
    lemma_byte_ranges();
    law_be_order(x as nat, y as nat, 1);
}

/// `u16` keys: two bytes each; numeric order is key order, and distinct values are
/// distinct keys.
pub proof fn law_u16_key(x: u16, y: u16)
    ensures
        x.key_view().len() == 2,
        x < y ==> key_lt(x.key_view(), y.key_view()),
        x.key_view() == y.key_view() ==> x == y,
{
    lemma_byte_ranges();
    law_be_order(x as nat, y as nat, 2);
}

/// `u32` keys: four bytes each; numeric order is key order, and distinct values are
/// distinct keys.
pub proof fn law_u32_key(x: u32, y: u32)
    ensures
        x.key_view().len() == 4,
        x < y ==> key_lt(x.key_view(), y.key_view()),
        x.key_view() == y.key_view() ==> x == y,
{
    lemma_byte_ranges();
    law_be_order(x as nat, y as nat, 4);
}

/// `u64` keys: eight bytes each; numeric order is key order, and distinct values
/// are distinct keys.
pub proof fn law_u64_key(x: u64, y: u64)
    ensures
        x.key_view().len() == 8,
        x < y ==> key_lt(x.key_view(), y.key_view()),
        x.key_view() == y.key_view() ==> x == y,
{
    lemma_byte_ranges();
    law_be_order(x as nat, y as nat, 8);
}

/// `u128` keys: sixteen bytes each; numeric order is key order, and distinct values
/// are distinct keys.
pub proof fn law_u128_key(x: u128, y: u128)
    ensures
        x.key_view().len() == 16,
        x < y ==> key_lt(x.key_view(), y.key_view()),
        x.key_view() == y.key_view() ==> x == y,
{
    lemma_byte_ranges();
    law_be_order(x as nat, y as nat, 16);
}

/// `i8` keys: one byte each; numeric order (negatives first) is key order, and
/// distinct values are distinct keys.
pub proof fn law_i8_key(x: i8, y: i8)
    ensures
        x.key_view().len() == 1,
        x < y ==> key_lt(x.key_view(), y.key_view()),
        x.key_view() == y.key_view() ==> x == y,
{
    lemma_byte_ranges();
    law_be_order((x + 0x80) as nat, (y + 0x80) as nat, 1);
}

/// `i16` keys: two bytes each; numeric order (negatives first) is key order, and
/// distinct values are distinct keys.
pub proof fn law_i16_key(x: i16, y: i16)
    ensures
        x.key_view().len() == 2,
        x < y ==> key_lt(x.key_view(), y.key_view()),
        x.key_view() == y.key_view() ==> x == y,
{
    lemma_byte_ranges();
    law_be_order((x + 0x8000) as nat, (y + 0x8000) as nat, 2);
}

/// `i32` keys: four bytes each; numeric order (negatives first) is key order, and
/// distinct values are distinct keys.
pub proof fn law_i32_key(x: i32, y: i32)
    ensures
        x.key_view().len() == 4,
        x < y ==> key_lt(x.key_view(), y.key_view()),
        x.key_view() == y.key_view() ==> x == y,
{
    lemma_byte_ranges();
    law_be_order((x + 0x8000_0000) as nat, (y + 0x8000_0000) as nat, 4);
}

/// `i64` keys: eight bytes each; numeric order (negatives first) is key order, and
/// distinct values are distinct keys.
pub proof fn law_i64_key(x: i64, y: i64)
    ensures
        x.key_view().len() == 8,
        x < y ==> key_lt(x.key_view(), y.key_view()),
        x.key_view() == y.key_view() ==> x == y,
{
    lemma_byte_ranges();
    law_be_order((x + 0x8000_0000_0000_0000) as nat, (y + 0x8000_0000_0000_0000) as nat, 8);
}

/// `i128` keys: sixteen bytes each; numeric order (negatives first) is key order,
/// and distinct values are distinct keys.
pub proof fn law_i128_key(x: i128, y: i128)
    ensures
        x.key_view().len() == 16,
        x < y ==> key_lt(x.key_view(), y.key_view()),
        x.key_view() == y.key_view() ==> x == y,
{
    lemma_byte_ranges();
    law_be_order(
        (x + 0x8000_0000_0000_0000_0000_0000_0000_0000) as nat,
        (y + 0x8000_0000_0000_0000_0000_0000_0000_0000) as nat,
        16,
    );
}

/// Slice-like keys address their elements, in order: a slice, a vector, an array
/// and a boxed slice holding the same elements are the same key.
pub proof fn law_sequence_keys<C: Component, const N: usize>(s: &[C], v: &Vec<C>, a: &[C; N], b: &Box<[C]>)
    requires
        v@ == s@,
        a@ == s@,
        (**b)@ == s@,
    ensures
        s.key_view() == s@,
        v.key_view() == s.key_view(),
        a.key_view() == s.key_view(),
        b.key_view() == s.key_view(),
{
}

/// String keys address their characters, in order: a `str`, a `String` and a
/// `Vec<char>` over the same characters are the same key.
pub proof fn law_string_keys(s: &str, t: &String, v: &Vec<char>)
    requires
        t@ == s@,
        v@ == s@,
    ensures
        s.key_view() == s@,
        t.key_view() == s.key_view(),
        v.key_view() == s.key_view(),
{
}

} // verus!
