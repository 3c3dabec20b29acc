use event_listener::Event;
use iradix::cursor::{Range, Values};
use iradix::key::{be_bytes, key_components, KeyComponents, RadixKey};
use iradix::sync;
use iradix::sync::concurrent::{publish_outcome, Conflict};
use iradix::sync::Watch;
use iradix::unsync::Radix;
use iradix::util::Cow;
use iradix::Bound::{Excluded, Included, Unbounded};
use std::collections::BTreeMap;
use std::sync::Arc;
use std::time::Duration;

type Trie = Radix<u8, u32>;

fn values<C: iradix::order::Component, V: Clone>(mut it: Values<'_, C, V>) -> Vec<V> {
    let mut out = Vec::new();
    while let Some(v) = it.next() {
        out.push(v.clone());
    }
    out
}

fn entries<V: Clone>(mut it: Range<'_, u8, V>) -> Vec<(Vec<u8>, V)> {
    let mut out = Vec::new();
    while let Some((k, v)) = it.next() {
        out.push((k, v.clone()));
    }
    out
}

fn all(t: &Trie) -> Vec<(Vec<u8>, u32)> {
    entries(t.range::<[u8]>((Unbounded, Unbounded)))
}

fn build(keys: &[(&[u8], u32)]) -> Trie {
    let mut t = Radix::new();
    for (k, v) in keys {
        t.insert(*k, *v);
    }
    t
}

// ----- laws on concrete values ---------------------------------------------

#[test]
fn get_after_insert_leaves_other_keys() {
    let mut t = build(&[(b"a", 1), (b"ab", 2), (b"b", 3)]);
    t.insert(b"ab".as_slice(), 20);
    assert_eq!(t.get(b"ab".as_slice()), Some(&20));
    assert_eq!(t.get(b"a".as_slice()), Some(&1));
    assert_eq!(t.get(b"b".as_slice()), Some(&3));
    assert_eq!(t.len(), 3);
}

#[test]
fn remove_undoes_insert_of_new_key() {
    let base = build(&[(b"car", 1), (b"cart", 2), (b"cat", 3)]);
    let mut t = base.clone();
    assert_eq!(t.insert(b"ca".as_slice(), 9), None);
    assert_eq!(t.len(), 4);
    assert_eq!(t.remove(b"ca".as_slice()), Some(9));
    assert_eq!(all(&t), all(&base));
    assert_eq!(t.len(), base.len());
    assert!(t.is_canonical());
}

#[test]
fn delete_prefix_is_remove_descendants_then_remove() {
    let keys: &[(&[u8], u32)] = &[(b"a", 1), (b"ab", 2), (b"abc", 3), (b"abd", 4), (b"b", 5)];
    let mut one = build(keys);
    let mut two = build(keys);
    assert_eq!(one.delete_prefix(b"ab".as_slice()), 3);
    assert_eq!(two.remove_descendants(b"ab".as_slice()), 2);
    assert_eq!(two.get(b"ab".as_slice()), Some(&2));
    assert_eq!(two.remove(b"ab".as_slice()), Some(2));
    assert_eq!(all(&one), all(&two));
    assert_eq!(all(&one), vec![(b"a".to_vec(), 1), (b"b".to_vec(), 5)]);
}

#[test]
fn ancestor_is_inclusive_then_strict() {
    let t = build(&[(b"", 0), (b"ab", 2), (b"abcd", 4)]);
    assert_eq!(t.get_ancestor(b"abcd".as_slice()), Some(&4));
    assert_eq!(t.strict_ancestor(b"abcd".as_slice()), Some(&2));
    assert_eq!(t.get_ancestor(b"abc".as_slice()), Some(&2));
    assert_eq!(t.get_ancestor(b"x".as_slice()), Some(&0));
    assert_eq!(t.strict_ancestor(b"".as_slice()), None);
}

#[test]
fn prefix_walk_is_key_then_descendants() {
    let t = build(&[(b"a", 1), (b"ab", 2), (b"abc", 3), (b"abd", 4), (b"b", 5)]);
    let walk = entries(t.walk_prefix(b"ab".as_slice()));
    let strict = entries(t.walk_prefix_strict(b"ab".as_slice()));
    assert_eq!(walk[0], (b"ab".to_vec(), 2));
    assert_eq!(walk[1..].to_vec(), strict);
    assert_eq!(strict, vec![(b"abc".to_vec(), 3), (b"abd".to_vec(), 4)]);
}

#[test]
fn minimum_and_maximum_bound_every_key() {
    let t = build(&[(b"m", 1), (b"a", 2), (b"zz", 3), (b"ab", 4)]);
    let (lo, lv) = t.minimum().unwrap();
    let (hi, hv) = t.maximum().unwrap();
    assert_eq!((lo.clone(), *lv), (b"a".to_vec(), 2));
    assert_eq!((hi.clone(), *hv), (b"zz".to_vec(), 3));
    for (k, _) in all(&t) {
        assert!(lo <= k && k <= hi);
    }
}

#[test]
fn inverted_range_is_empty() {
    let t = build(&[(b"a", 1), (b"b", 2), (b"c", 3)]);
    let lo: &[u8] = b"c";
    let hi: &[u8] = b"a";
    assert!(entries(t.range((Included(lo), Included(hi)))).is_empty());
    assert!(entries(t.range((Excluded(lo), Excluded(hi)))).is_empty());
}

#[test]
fn range_bounds_are_exact() {
    let t = build(&[(b"a", 1), (b"b", 2), (b"ba", 3), (b"c", 4)]);
    let lo: &[u8] = b"b";
    let hi: &[u8] = b"c";
    assert_eq!(
        entries(t.range((Included(lo), Excluded(hi)))),
        vec![(b"b".to_vec(), 2), (b"ba".to_vec(), 3)]
    );
    assert_eq!(
        entries(t.range((Excluded(lo), Included(hi)))),
        vec![(b"ba".to_vec(), 3), (b"c".to_vec(), 4)]
    );
}

// ----- keys ----------------------------------------------------------------

#[test]
fn unsigned_integer_keys_sort_numerically() {
    let mut t: Radix<u8, u32> = Radix::new();
    for x in [256u32, 1, 65536, 2, 0] {
        t.insert(&x, x);
    }
    assert_eq!(values(t.values()), vec![0, 1, 2, 256, 65536]);
    assert_eq!(t.get(&256u32), Some(&256));
    assert_eq!(t.get(&257u32), None);
}

#[test]
fn signed_integer_keys_sort_numerically() {
    let mut t: Radix<u8, i8> = Radix::new();
    for x in [1i8, -1, 0, i8::MIN, i8::MAX] {
        t.insert(&x, x);
    }
    assert_eq!(values(t.values()), vec![i8::MIN, -1, 0, 1, i8::MAX]);
    let mut w: Radix<u8, i64> = Radix::new();
    for x in [5i64, -5, i64::MIN, 0] {
        w.insert(&x, x);
    }
    assert_eq!(values(w.values()), vec![i64::MIN, -5, 0, 5]);
}

#[test]
fn integer_key_components_are_big_endian() {
    assert_eq!(0x0102u16.components(), vec![1, 2]);
    assert_eq!(0x01020304u32.components(), vec![1, 2, 3, 4]);
    assert_eq!((-1i8).components(), vec![0x7f]);
    assert_eq!(0i16.components(), vec![0x80, 0]);
    assert_eq!(be_bytes(0x0a0b, 3), vec![0, 0x0a, 0x0b]);
    assert_eq!(be_bytes(7, 0), Vec::<u8>::new());
}

#[test]
fn string_and_char_vector_keys_alias() {
    let mut t: Radix<char, u32> = Radix::new();
    t.insert("héllo", 1);
    let v: Vec<char> = "héllo".chars().collect();
    assert_eq!(t.get(&v), Some(&1));
    assert_eq!(t.get(&String::from("héllo")), Some(&1));
    assert_eq!(t.get("hello"), None);
}

// ----- structure -----------------------------------------------------------

#[test]
fn remove_merges_single_child_chain() {
    let mut t = build(&[(&[1, 2], 10), (&[1, 2, 3], 20)]);
    assert_eq!(t.remove([1u8, 2].as_slice()), Some(10));
    assert_eq!(t.get([1u8, 2, 3].as_slice()), Some(&20));
    assert_eq!(t.get([1u8, 2].as_slice()), None);
    assert_eq!(t.len(), 1);
    assert_eq!(t.count_values(), 1);
    assert_eq!(t.root_child_count(), 1);
    assert!(t.is_canonical());
}

#[test]
fn remove_descendants_prunes_and_merges() {
    let mut t = build(&[(&[1], 1), (&[1, 2, 3, 30], 30), (&[1, 2, 3, 31], 31), (&[1, 2, 4], 4)]);
    assert_eq!(t.remove_descendants([1u8, 2, 3].as_slice()), 2);
    assert_eq!(t.len(), 2);
    assert_eq!(t.count_values(), 2);
    assert_eq!(t.get([1u8].as_slice()), Some(&1));
    assert_eq!(t.get([1u8, 2, 4].as_slice()), Some(&4));
    assert_eq!(t.get([1u8, 2, 3, 30].as_slice()), None);
    assert!(t.is_canonical());
}

#[test]
fn drain_descendants_returns_values_in_key_order() {
    let mut t = build(&[(&[1], 1), (&[1, 2, 3, 31], 31), (&[1, 2, 3, 30], 30), (&[1, 2, 4], 4)]);
    assert_eq!(t.drain_descendants([1u8, 2, 3].as_slice()), vec![30, 31]);
    assert_eq!(t.len(), 2);
    assert!(t.is_canonical());
}

#[test]
fn root_value_and_children_are_reported() {
    let mut t = build(&[(b"a", 1), (b"b", 2)]);
    assert!(!t.root_has_value());
    assert_eq!(t.root_child_count(), 2);
    t.insert(b"".as_slice(), 0);
    assert!(t.root_has_value());
    assert_eq!(t.root_child_count(), 2);
    assert_eq!(t.len(), 3);
}

#[test]
fn agrees_with_an_ordered_map_model() {
    let mut t: Trie = Radix::new();
    let mut model: BTreeMap<Vec<u8>, u32> = BTreeMap::new();
    let mut x: u64 = 12345;
    for step in 0..2000u32 {
        x = x.wrapping_mul(6364136223846793005).wrapping_add(1442695040888963407);
        let len = ((x >> 60) % 4) as usize;
        let key: Vec<u8> = (0..len).map(|i| b'a' + ((x >> (8 * i + 8)) % 3) as u8).collect();
        match (x >> 40) % 5 {
            0 | 1 => {
                assert_eq!(t.insert(&key, step), model.insert(key.clone(), step));
            }
            2 => {
                assert_eq!(t.remove(&key), model.remove(&key));
            }
            3 => {
                let gone: Vec<Vec<u8>> =
                    model.keys().filter(|k| k.starts_with(&key) && k.len() > key.len()).cloned().collect();
                for k in &gone {
                    model.remove(k);
                }
                assert_eq!(t.remove_descendants(&key), gone.len());
            }
            _ => {
                let gone: Vec<Vec<u8>> = model.keys().filter(|k| k.starts_with(&key)).cloned().collect();
                let expect: Vec<u32> = gone.iter().map(|k| model[k]).collect();
                for k in &gone {
                    model.remove(k);
                }
                assert_eq!(t.drain_prefix(&key), expect);
            }
        }
        let want: Vec<(Vec<u8>, u32)> = model.iter().map(|(k, v)| (k.clone(), *v)).collect();
        assert_eq!(all(&t), want, "after step {step}");
        assert_eq!(t.len(), model.len());
    }
    assert!(t.is_canonical());
}

// ----- transactions ----------------------------------------------------------

#[test]
fn commit_publishes_and_snapshot_stays() {
    let base: sync::Radix<u8, u32> = sync::Radix::from_pairs(vec![(b"a".to_vec(), 1), (b"b".to_vec(), 2)]);
    let mut txn = base.txn();
    txn.insert(b"c".as_slice(), 3);
    txn.remove(b"a".as_slice());
    assert_eq!(txn.len(), 2);
    let next = txn.commit();
    assert_eq!(base.get(b"a".as_slice()), Some(&1));
    assert_eq!(base.get(b"c".as_slice()), None);
    assert_eq!(next.get(b"a".as_slice()), None);
    assert_eq!(next.get(b"c".as_slice()), Some(&3));
    assert_eq!(next.len(), 2);
    assert!(next.is_canonical());
}

#[test]
fn from_pairs_keeps_the_last_value_per_key() {
    let t: sync::Radix<u8, u32> = sync::Radix::from_pairs(vec![
        (b"k".to_vec(), 1),
        (b"j".to_vec(), 2),
        (b"k".to_vec(), 3),
    ]);
    assert_eq!(t.len(), 2);
    assert_eq!(t.get(b"k".as_slice()), Some(&3));
    assert_eq!(t.get(b"j".as_slice()), Some(&2));
    assert_eq!(t.count_values(), 2);
}

#[test]
fn txn_clear_empties_only_the_working_copy() {
    let base: sync::Radix<u8, u32> = sync::Radix::from_pairs(vec![(b"a".to_vec(), 1)]);
    let mut txn = base.txn();
    txn.clear();
    assert!(txn.is_empty());
    let next = txn.commit();
    assert!(next.is_empty());
    assert_eq!(base.len(), 1);
}

// ----- small types -----------------------------------------------------------

#[test]
fn conflict_describes_itself() {
    assert_eq!(
        Conflict.as_str(),
        "iradix commit conflict: the holder was updated since the transaction began"
    );
    assert_eq!(Conflict::default(), Conflict);
}

#[test]
fn publish_succeeds_only_from_the_current_version() {
    assert_eq!(publish_outcome(true), Ok(()));
    assert_eq!(publish_outcome(false), Err(Conflict));
}

#[test]
fn cow_to_borrowed_shares_or_clones() {
    let shared = Arc::new(vec![1, 2]);
    let b: Cow<Vec<i32>> = Cow::Borrowed(shared.clone());
    match b.to_borrowed() {
        Cow::Borrowed(a) => assert!(Arc::ptr_eq(&a, &shared)),
        Cow::Owned(_) => panic!("a shared value stays shared"),
    }
    let o: Cow<Vec<i32>> = Cow::Owned(vec![3]);
    match o.to_borrowed() {
        Cow::Borrowed(a) => assert_eq!(*a, vec![3]),
        Cow::Owned(_) => panic!("to_borrowed always shares"),
    }
    assert_eq!(*o.get(), vec![3]);
}

#[test]
fn cow_to_mut_detaches_a_shared_value() {
    let shared = Arc::new(vec![1, 2]);
    let mut c: Cow<Vec<i32>> = Cow::Borrowed(shared.clone());
    c.to_mut().push(3);
    assert_eq!(*shared, vec![1, 2]);
    assert_eq!(*c.get(), vec![1, 2, 3]);
    assert!(matches!(c, Cow::Owned(_)));
    let d: Cow<Vec<i32>> = Cow::default();
    assert!(matches!(d, Cow::Owned(ref v) if v.is_empty()));
}

#[test]
fn resolved_watch_returns_at_once() {
    assert!(Watch::new(None).block_wait_timeout(Duration::from_millis(1)));
    Watch::new(None).block_wait();
    assert!(Watch::new(None).changed().into_listener().is_none());
}

#[test]
fn pending_watch_waits_for_a_notification() {
    let event = Event::new();
    let quiet = Watch::new(Some(event.listen()));
    assert!(!quiet.block_wait_timeout(Duration::from_millis(10)));

    let watch = Watch::new(Some(event.listen()));
    event.notify(usize::MAX);
    assert!(watch.block_wait_timeout(Duration::from_secs(5)));

    let watch = Watch::new(Some(event.listen()));
    event.notify(usize::MAX);
    watch.block_wait();

    let pending = Watch::new(Some(event.listen()));
    assert!(pending.changed().into_listener().is_some());
}

// ----- ordered queries against an ordered-map model --------------------------

struct Lcg(u64);

impl Lcg {
    fn next(&mut self) -> u64 {
        self.0 = self.0.wrapping_mul(6364136223846793005).wrapping_add(1442695040888963407);
        self.0 >> 33
    }

    fn key(&mut self) -> Vec<u8> {
        let len = (self.next() % 6) as usize;
        (0..len).map(|_| (self.next() % 6) as u8).collect()
    }
}

fn model_range(
    model: &BTreeMap<Vec<u8>, u32>,
    lo: iradix::Bound<&[u8]>,
    hi: iradix::Bound<&[u8]>,
) -> Vec<(Vec<u8>, u32)> {
    model
        .iter()
        .filter(|(k, _)| {
            let k = k.as_slice();
            let lo_ok = match lo {
                Unbounded => true,
                Included(b) => k >= b,
                Excluded(b) => k > b,
            };
            let hi_ok = match hi {
                Unbounded => true,
                Included(b) => k <= b,
                Excluded(b) => k < b,
            };
            lo_ok && hi_ok
        })
        .map(|(k, v)| (k.clone(), *v))
        .collect()
}

fn rev_entries<V: Clone>(mut it: iradix::cursor::RevRange<'_, u8, V>) -> Vec<(Vec<u8>, V)> {
    let mut out = Vec::new();
    while let Some((k, v)) = it.next() {
        out.push((k, v.clone()));
    }
    out
}

fn rev_values<V: Clone>(mut it: iradix::cursor::RevValues<'_, u8, V>) -> Vec<V> {
    let mut out = Vec::new();
    while let Some(v) = it.next() {
        out.push(v.clone());
    }
    out
}

fn desc<V: Clone>(mut it: iradix::cursor::Descendants<'_, u8, V>) -> Vec<V> {
    let mut out = Vec::new();
    while let Some(v) = it.next() {
        out.push(v.clone());
    }
    out
}

fn rev_desc<V: Clone>(mut it: iradix::cursor::RevDescendants<'_, u8, V>) -> Vec<V> {
    let mut out = Vec::new();
    while let Some(v) = it.next() {
        out.push(v.clone());
    }
    out
}

fn anc<V: Clone>(mut it: iradix::cursor::Ancestors<'_, V>) -> Vec<V> {
    let mut out = Vec::new();
    while let Some(v) = it.next() {
        out.push(v.clone());
    }
    out
}

#[test]
fn ordered_queries_agree_with_an_ordered_map() {
    let mut rng = Lcg(7);
    for _case in 0..200 {
        let mut trie: Trie = Radix::new();
        let mut model: BTreeMap<Vec<u8>, u32> = BTreeMap::new();
        let n = rng.next() % 40;
        for _ in 0..n {
            let k = rng.key();
            let v = (rng.next() % 1000) as u32;
            trie.insert(&k, v);
            model.insert(k, v);
        }
        let lo_k = rng.key();
        let hi_k = rng.key();
        let del = rng.key();

        assert_eq!(trie.minimum().map(|(k, v)| (k, *v)), model.iter().next().map(|(k, v)| (k.clone(), *v)));
        assert_eq!(
            trie.maximum().map(|(k, v)| (k, *v)),
            model.iter().next_back().map(|(k, v)| (k.clone(), *v))
        );

        let model_vals: Vec<u32> = model.values().copied().collect();
        assert_eq!(values(trie.values()), model_vals);
        let mut want_rev = model_vals.clone();
        want_rev.reverse();
        assert_eq!(rev_values(trie.values_rev()), want_rev);

        let los = [Unbounded, Included(lo_k.as_slice()), Excluded(lo_k.as_slice())];
        let his = [Unbounded, Included(hi_k.as_slice()), Excluded(hi_k.as_slice())];
        for &lo in &los {
            for &hi in &his {
                let want = model_range(&model, lo, hi);
                assert_eq!(entries(trie.range((lo, hi))), want);
                let mut want_rev = want.clone();
                want_rev.reverse();
                assert_eq!(rev_entries(trie.range_rev((lo, hi))), want_rev);
            }
        }

        assert_eq!(
            entries(trie.seek_lower_bound(del.as_slice())),
            model_range(&model, Included(del.as_slice()), Unbounded)
        );
        let mut rseek = model_range(&model, Unbounded, Included(del.as_slice()));
        rseek.reverse();
        assert_eq!(rev_entries(trie.seek_reverse_lower_bound(del.as_slice())), rseek);

        let strict: Vec<(Vec<u8>, u32)> = model
            .iter()
            .filter(|(k, _)| k.len() > del.len() && k.starts_with(&del))
            .map(|(k, v)| (k.clone(), *v))
            .collect();
        let inclusive: Vec<(Vec<u8>, u32)> = model
            .iter()
            .filter(|(k, _)| k.starts_with(&del))
            .map(|(k, v)| (k.clone(), *v))
            .collect();
        let strict_vals: Vec<u32> = strict.iter().map(|e| e.1).collect();
        let mut strict_vals_rev = strict_vals.clone();
        strict_vals_rev.reverse();
        assert_eq!(desc(trie.descendants(del.as_slice())), strict_vals);
        assert_eq!(rev_desc(trie.descendants_rev(del.as_slice())), strict_vals_rev);
        assert_eq!(
            desc(trie.descendants_inclusive(del.as_slice())),
            inclusive.iter().map(|e| e.1).collect::<Vec<u32>>()
        );
        assert_eq!(entries(trie.walk_prefix(del.as_slice())), inclusive);
        assert_eq!(entries(trie.walk_prefix_strict(del.as_slice())), strict);

        let path: Vec<(Vec<u8>, u32)> = model
            .iter()
            .filter(|(k, _)| del.starts_with(k.as_slice()))
            .map(|(k, v)| (k.clone(), *v))
            .collect();
        assert_eq!(anc(trie.ancestors(del.as_slice())), path.iter().map(|e| e.1).collect::<Vec<u32>>());

        let mut cut = trie.clone();
        assert_eq!(cut.delete_prefix(del.as_slice()), inclusive.len());
        assert_eq!(cut.len(), model.len() - inclusive.len());
        assert!(cut.is_canonical());
        assert_eq!(trie.len(), model.len());
    }
}

#[test]
fn edge_child_is_the_subtree_behind_the_edge() {
    let t = build(&[(b"ab", 1), (b"ac", 2), (b"b", 3)]);
    let a = t.edge_child(&b'a').expect("an edge starts with a");
    assert!(a.value.is_none());
    assert_eq!(a.children.len(), 2);
    let b = t.edge_child(&b'b').expect("an edge starts with b");
    assert_eq!(b.value.as_deref(), Some(&3));
    assert!(t.edge_child(&b'c').is_none());
}

#[test]
fn collect_remaining_drains_a_cursor() {
    let t = build(&[(b"a", 1), (b"ab", 2), (b"b", 3)]);
    let mut vals = t.values();
    assert_eq!(vals.next(), Some(&1));
    let rest: Vec<u32> = vals.collect_remaining().into_iter().copied().collect();
    assert_eq!(rest, vec![2, 3]);
    assert_eq!(vals.next(), None);
    let mut r = t.range::<[u8]>((Unbounded, Unbounded));
    let all: Vec<(Vec<u8>, u32)> = r.collect_remaining().into_iter().map(|(k, v)| (k, *v)).collect();
    assert_eq!(all, vec![(b"a".to_vec(), 1), (b"ab".to_vec(), 2), (b"b".to_vec(), 3)]);
    assert!(r.next().is_none());
    let mut anc = t.ancestors(b"abc".as_slice());
    let got: Vec<u32> = anc.collect_remaining().into_iter().copied().collect();
    assert_eq!(got, vec![1, 2]);
    assert_eq!(anc.next(), None);
}

#[test]
fn slice_backed_keys_are_walked_in_place() {
    let v: Vec<u8> = b"abc".to_vec();
    match key_components(&v) {
        KeyComponents::Borrowed(s) => assert!(std::ptr::eq(s.as_ptr(), v.as_ptr())),
        KeyComponents::Owned(_) => panic!("a vector key is borrowed"),
    }
    let a: [u8; 2] = [1, 2];
    assert!(matches!(key_components(&a), KeyComponents::Borrowed(_)));
    match key_components("ab") {
        KeyComponents::Owned(c) => assert_eq!(c, vec!['a', 'b']),
        KeyComponents::Borrowed(_) => panic!("a string yields its chars"),
    }
    assert_eq!(key_components(&0x0102u16).as_slice(), &[1u8, 2][..]);
}
