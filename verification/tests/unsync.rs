use iradix::cursor::{Ancestors, Descendants, Path, Range, RevDescendants, RevRange, RevValues, Values};
use iradix::unsync::Radix;
use iradix::Bound;
use iradix::Bound::{Excluded, Included, Unbounded};
use std::sync::Arc;

type Trie = Radix<u8, u32>;

fn bytes(s: &[u8]) -> Vec<u8> {
    s.to_vec()
}

fn values<V: Clone>(mut it: Values<'_, u8, V>) -> Vec<V> {
    let mut out = Vec::new();
    while let Some(v) = it.next() {
        out.push(v.clone());
    }
    out
}

fn descendants<V: Clone>(mut it: Descendants<'_, u8, V>) -> Vec<V> {
    let mut out = Vec::new();
    while let Some(v) = it.next() {
        out.push(v.clone());
    }
    out
}

fn rev_values<V: Clone>(mut it: RevValues<'_, u8, V>) -> Vec<V> {
    let mut out = Vec::new();
    while let Some(v) = it.next() {
        out.push(v.clone());
    }
    out
}

fn rev_descendants<V: Clone>(mut it: RevDescendants<'_, u8, V>) -> Vec<V> {
    let mut out = Vec::new();
    while let Some(v) = it.next() {
        out.push(v.clone());
    }
    out
}

fn ancestors<V: Clone>(mut it: Ancestors<'_, V>) -> Vec<V> {
    let mut out = Vec::new();
    while let Some(v) = it.next() {
        out.push(v.clone());
    }
    out
}

fn entries<V: Clone>(mut it: Range<'_, u8, V>) -> Vec<(Vec<u8>, V)> {
    let mut out = Vec::new();
    while let Some((k, v)) = it.next() {
        out.push((k, v.clone()));
    }
    out
}

fn rev_entries<V: Clone>(mut it: RevRange<'_, u8, V>) -> Vec<(Vec<u8>, V)> {
    let mut out = Vec::new();
    while let Some((k, v)) = it.next() {
        out.push((k, v.clone()));
    }
    out
}

fn path_entries<V: Clone>(mut it: Path<'_, u8, V>) -> Vec<(Vec<u8>, V)> {
    let mut out = Vec::new();
    while let Some((k, v)) = it.next() {
        out.push((k, v.clone()));
    }
    out
}

#[test]
fn unsync_radix_is_not_send() {
    fn _confined<T>() {}
    _confined::<Trie>();
}

#[test]
fn tests_new_is_empty() {
    let t: Trie = Radix::new();
    assert!(t.is_empty());
    assert_eq!(t.len(), 0);
    assert_eq!(t.get(b"x".as_slice()), None);
}

#[test]
fn tests_empty_trie_reads_are_safe() {
    let t: Trie = Radix::new();
    assert_eq!(t.get(b"x".as_slice()), None);
    assert_eq!(t.get_ancestor(b"x".as_slice()), None);
    assert_eq!(t.strict_ancestor(b"x".as_slice()), None);
    assert!(!t.has_ancestor(b"x".as_slice()));
    assert_eq!(values(t.values()).len(), 0);
    assert_eq!(ancestors(t.ancestors(b"x".as_slice())).len(), 0);
    assert_eq!(descendants(t.descendants(b"x".as_slice())).len(), 0);
}

#[test]
fn tests_remove_and_drain_on_empty_trie() {
    let mut t: Trie = Radix::new();
    assert_eq!(t.remove(b"x".as_slice()), None);
    assert_eq!(t.remove_descendants(b"x".as_slice()), 0);
    assert!(t.drain_descendants(b"x".as_slice()).is_empty());
    assert!(t.is_empty());
}

#[test]
fn tests_insert_get_roundtrip() {
    let mut t: Trie = Radix::new();
    assert_eq!(t.insert(&bytes(b"abc"), 1), None);
    assert_eq!(t.insert(&bytes(b"abd"), 2), None);
    assert_eq!(t.insert(&bytes(b"ab"), 3), None);
    assert_eq!(t.get(b"abc".as_slice()), Some(&1));
    assert_eq!(t.get(b"abd".as_slice()), Some(&2));
    assert_eq!(t.get(b"ab".as_slice()), Some(&3));
    assert_eq!(t.get(b"a".as_slice()), None);
    assert_eq!(t.len(), 3);
}

#[test]
fn tests_insert_overwrites_returns_old() {
    let mut t: Trie = Radix::new();
    assert_eq!(t.insert(&bytes(b"k"), 1), None);
    assert_eq!(t.insert(&bytes(b"k"), 2), Some(1));
    assert_eq!(t.get(b"k".as_slice()), Some(&2));
    assert_eq!(t.len(), 1);
}

#[test]
fn tests_empty_key_insert_get() {
    let mut t: Trie = Radix::new();
    assert_eq!(t.insert(&bytes(b""), 7), None);
    assert_eq!(t.get(b"".as_slice()), Some(&7));
    assert!(t.contains(b"".as_slice()));
    assert_eq!(t.len(), 1);
}

#[test]
fn tests_common_prefix_split() {
    let mut t: Trie = Radix::new();
    t.insert(&bytes(b"abc"), 1);
    t.insert(&bytes(b"abd"), 2);
    assert_eq!(t.get(b"abc".as_slice()), Some(&1));
    assert_eq!(t.get(b"abd".as_slice()), Some(&2));
    assert_eq!(t.get(b"ab".as_slice()), None);
}

#[test]
fn tests_split_with_key_as_prefix_of_existing() {
    let mut t: Trie = Radix::new();
    t.insert(&bytes(b"abc"), 1);
    t.insert(&bytes(b"a"), 2);
    assert_eq!(t.get(b"abc".as_slice()), Some(&1));
    assert_eq!(t.get(b"a".as_slice()), Some(&2));
    assert_eq!(t.get(b"ab".as_slice()), None);
}

#[test]
fn tests_single_child_merge_on_remove() {
    let mut t: Trie = Radix::new();
    t.insert(&bytes(b"ab"), 1);
    t.insert(&bytes(b"abc"), 2);
    assert_eq!(t.remove(b"ab".as_slice()), Some(1));
    assert_eq!(t.get(b"abc".as_slice()), Some(&2));
    assert_eq!(t.get(b"ab".as_slice()), None);
    assert_eq!(t.len(), 1);
    assert_eq!(t.root_child_count(), 1);
}

#[test]
fn tests_root_is_never_merged() {
    let mut t: Trie = Radix::new();
    t.insert(&bytes(b"abc"), 1);
    assert_eq!(t.root_child_count(), 1);
    assert!(!t.root_has_value());
}

#[test]
fn tests_remove_prunes_and_merges_chain() {
    let mut t: Trie = Radix::new();
    t.insert(&bytes(b"a"), 1);
    t.insert(&bytes(b"ab"), 2);
    t.insert(&bytes(b"abc"), 3);
    assert_eq!(t.remove(b"ab".as_slice()), Some(2));
    assert_eq!(t.get(b"a".as_slice()), Some(&1));
    assert_eq!(t.get(b"abc".as_slice()), Some(&3));
    assert_eq!(t.len(), 2);
}

#[test]
fn tests_remove_nonexistent_is_none() {
    let mut t: Trie = Radix::new();
    t.insert(&bytes(b"abc"), 1);
    assert_eq!(t.remove(b"abd".as_slice()), None);
    assert_eq!(t.remove(b"ab".as_slice()), None);
    assert_eq!(t.remove(b"abcd".as_slice()), None);
    assert_eq!(t.len(), 1);
}

#[test]
fn tests_get_ancestor_is_inclusive() {
    let mut t: Trie = Radix::new();
    t.insert(&bytes(b"a"), 1);
    t.insert(&bytes(b"abc"), 3);
    assert_eq!(t.get_ancestor(b"abc".as_slice()), Some(&3));
    assert_eq!(t.get_ancestor(b"abcd".as_slice()), Some(&3));
    assert_eq!(t.get_ancestor(b"ab".as_slice()), Some(&1));
    assert_eq!(t.get_ancestor(b"a".as_slice()), Some(&1));
    assert_eq!(t.get_ancestor(b"x".as_slice()), None);
}

#[test]
fn tests_strict_ancestor_excludes_exact() {
    let mut t: Trie = Radix::new();
    t.insert(&bytes(b"a"), 1);
    t.insert(&bytes(b"abc"), 3);
    assert_eq!(t.strict_ancestor(b"abc".as_slice()), Some(&1));
    assert_eq!(t.strict_ancestor(b"abcd".as_slice()), Some(&3));
    assert_eq!(t.strict_ancestor(b"a".as_slice()), None);
}

#[test]
fn tests_has_ancestor() {
    let mut t: Trie = Radix::new();
    t.insert(&bytes(b"a"), 1);
    assert!(t.has_ancestor(b"abc".as_slice()));
    assert!(t.has_ancestor(b"a".as_slice()));
    assert!(!t.has_ancestor(b"x".as_slice()));
}

#[test]
fn remove_descendants_keeps_self() {
    let mut t: Trie = Radix::new();
    t.insert(&bytes(b"a"), 1);
    t.insert(&bytes(b"ab"), 2);
    t.insert(&bytes(b"ac"), 3);
    t.insert(&bytes(b"b"), 4);
    let removed = t.remove_descendants(b"a".as_slice());
    assert_eq!(removed, 2);
    assert_eq!(t.get(b"a".as_slice()), Some(&1));
    assert_eq!(t.get(b"ab".as_slice()), None);
    assert_eq!(t.get(b"ac".as_slice()), None);
    assert_eq!(t.get(b"b".as_slice()), Some(&4));
    assert_eq!(t.len(), 2);
}

#[test]
fn drain_shared_subtree_clones_not_moves() {
    let mut t: Trie = Radix::new();
    t.insert(&bytes(b"a"), 1);
    t.insert(&bytes(b"a/b"), 2);
    t.insert(&bytes(b"a/b/c"), 3);
    let snap = t.clone();

    let mut drained = t.drain_descendants(b"a".as_slice());
    drained.sort_unstable();
    assert_eq!(drained, vec![2, 3]);
    assert_eq!(t.get(b"a".as_slice()), Some(&1));
    assert_eq!(t.get(b"a/b".as_slice()), None);

    assert_eq!(snap.get(b"a".as_slice()), Some(&1));
    assert_eq!(snap.get(b"a/b".as_slice()), Some(&2));
    assert_eq!(snap.get(b"a/b/c".as_slice()), Some(&3));
    assert_eq!(snap.len(), 3);
}

#[test]
fn tests_drain_descendants_returns_values() {
    let mut t: Trie = Radix::new();
    t.insert(&bytes(b"a"), 1);
    t.insert(&bytes(b"ab"), 2);
    t.insert(&bytes(b"abc"), 3);
    let mut drained = t.drain_descendants(b"a".as_slice());
    drained.sort_unstable();
    assert_eq!(drained, vec![2, 3]);
    assert_eq!(t.get(b"a".as_slice()), Some(&1));
    assert_eq!(t.len(), 1);
}

#[test]
fn tests_descendants_of_nonexistent_prefix() {
    let mut t: Trie = Radix::new();
    t.insert(&bytes(b"abc"), 1);
    assert_eq!(t.remove_descendants(b"x".as_slice()), 0);
    assert_eq!(t.remove_descendants(b"ab".as_slice()), 1);
    assert_eq!(t.get(b"abc".as_slice()), None);
}

#[test]
fn tests_values_and_ancestors_descendants_iter() {
    let mut t: Trie = Radix::new();
    t.insert(&bytes(b"a"), 1);
    t.insert(&bytes(b"ab"), 2);
    t.insert(&bytes(b"abc"), 3);
    t.insert(&bytes(b"b"), 4);

    let mut all: Vec<u32> = values(t.values());
    all.sort_unstable();
    assert_eq!(all, vec![1, 2, 3, 4]);

    let mut anc: Vec<u32> = ancestors(t.ancestors(b"abc".as_slice()));
    anc.sort_unstable();
    assert_eq!(anc, vec![1, 2, 3]);

    let mut desc: Vec<u32> = descendants(t.descendants(b"a".as_slice()));
    desc.sort_unstable();
    assert_eq!(desc, vec![2, 3]);
}

#[test]
fn tests_clear_empties() {
    let mut t: Trie = Radix::new();
    t.insert(&bytes(b"a"), 1);
    t.insert(&bytes(b"ab"), 2);
    t.clear();
    assert!(t.is_empty());
    assert_eq!(t.get(b"a".as_slice()), None);
}

#[test]
fn tests_str_and_vec_char_keys_alias() {
    let mut t: Radix<char, u32> = Radix::new();
    t.insert("héllo", 1);
    let v: Vec<char> = "héllo".chars().collect();
    assert_eq!(t.get(&v), Some(&1));
    let mut t2: Radix<char, u32> = Radix::new();
    let key: Vec<char> = "ab".chars().collect();
    t2.insert(&key, 5);
    assert_eq!(t2.get("ab"), Some(&5));
}

#[test]
fn clone_is_snapshot_isolated() {
    let mut t: Trie = Radix::new();
    t.insert(&bytes(b"k"), 1);
    let snap = t.clone();
    t.insert(&bytes(b"k"), 2);
    t.insert(&bytes(b"k2"), 3);
    assert_eq!(snap.get(b"k".as_slice()), Some(&1));
    assert_eq!(snap.get(b"k2".as_slice()), None);
    assert_eq!(t.get(b"k".as_slice()), Some(&2));
}

#[test]
fn unchanged_subtree_is_shared() {
    let mut t: Trie = Radix::new();
    t.insert(&bytes(b"a/x"), 1);
    t.insert(&bytes(b"b/y"), 2);
    let snap = t.clone();
    t.insert(&bytes(b"a/z"), 3);

    let snap_b = snap.edge_child(&b'b').expect("b edge");
    let t_b = t.edge_child(&b'b').expect("b edge");
    assert!(Arc::ptr_eq(&snap_b, &t_b), "the untouched b subtree must be shared");
    let snap_a = snap.edge_child(&b'a').expect("a edge");
    let t_a = t.edge_child(&b'a').expect("a edge");
    assert!(!Arc::ptr_eq(&snap_a, &t_a));
}

#[test]
fn tests_noop_remove_preserves_sharing() {
    let mut t: Trie = Radix::new();
    t.insert(&bytes(b"a/x"), 1);
    t.insert(&bytes(b"b/y"), 2);
    let snap = t.clone();

    assert_eq!(t.remove(b"a/zzz".as_slice()), None);
    assert_eq!(t.remove(b"nope".as_slice()), None);

    for first in *b"ab" {
        let s = snap.edge_child(&first).expect("edge");
        let l = t.edge_child(&first).expect("edge");
        assert!(Arc::ptr_eq(&s, &l), "no-op remove must not break sharing");
    }
}

#[test]
fn tests_noop_drain_preserves_sharing() {
    let mut t: Trie = Radix::new();
    t.insert(&bytes(b"a/x"), 1);
    t.insert(&bytes(b"b/y"), 2);
    let snap = t.clone();

    assert_eq!(t.remove_descendants(b"a/x".as_slice()), 0);
    assert_eq!(t.remove_descendants(b"zzz".as_slice()), 0);

    for first in *b"ab" {
        let s = snap.edge_child(&first).expect("edge");
        let l = t.edge_child(&first).expect("edge");
        assert!(Arc::ptr_eq(&s, &l), "no-op drain must not break sharing");
    }
}

#[test]
fn batched_edits_are_isolated_from_snapshot() {
    let mut t: Trie = Radix::new();
    t.insert(&bytes(b"a"), 1);
    let snap = t.clone();
    t.insert(&bytes(b"a/b"), 2);
    t.insert(&bytes(b"a/c"), 3);
    t.remove_descendants(b"a".as_slice());
    t.insert(&bytes(b"a"), 9);
    assert_eq!(snap.get(b"a".as_slice()), Some(&1));
    assert_eq!(snap.get(b"a/b".as_slice()), None);
    assert_eq!(t.get(b"a".as_slice()), Some(&9));
    assert_eq!(t.get(b"a/b".as_slice()), None);
    assert_eq!(t.len(), 1);
}

#[test]
fn drain_prefix_on_shared_trie_returns_values_without_corrupting_snapshot() {
    let mut t: Radix<u8, u32> = Radix::new();
    t.insert(&bytes(b"a"), 1);
    t.insert(&bytes(b"ab"), 2);
    t.insert(&bytes(b"ac"), 3);
    let snap = t.clone();

    let mut drained = t.drain_prefix(b"a".as_slice());
    drained.sort_unstable();
    assert_eq!(drained, vec![1, 2, 3], "node-inclusive: a, ab, ac");
    assert_eq!(t.len(), 0);
    assert_eq!(snap.len(), 3);
    assert_eq!(snap.get(b"a".as_slice()), Some(&1));
    assert_eq!(snap.get(b"ac".as_slice()), Some(&3));
}

#[test]
fn min_max_on_empty() {
    let t: Trie = Radix::new();
    assert_eq!(t.minimum(), None);
    assert_eq!(t.maximum(), None);
}

#[test]
fn min_max_populated() {
    let mut t: Trie = Radix::new();
    t.insert(&bytes(b"a"), 1);
    t.insert(&bytes(b"abc"), 2);
    t.insert(&bytes(b"abd"), 3);
    t.insert(&bytes(b"b"), 4);
    assert_eq!(t.minimum(), Some((bytes(b"a"), &1)));
    assert_eq!(t.maximum(), Some((bytes(b"b"), &4)));
}

#[test]
fn min_max_with_empty_key_and_single() {
    let mut t: Trie = Radix::new();
    t.insert(&bytes(b""), 9);
    t.insert(&bytes(b"z"), 5);
    assert_eq!(t.minimum(), Some((bytes(b""), &9)));
    assert_eq!(t.maximum(), Some((bytes(b"z"), &5)));

    let mut one: Trie = Radix::new();
    one.insert(&bytes(b"solo"), 7);
    assert_eq!(one.minimum(), Some((bytes(b"solo"), &7)));
    assert_eq!(one.maximum(), Some((bytes(b"solo"), &7)));
}

#[test]
fn delete_prefix_is_node_inclusive() {
    let mut t: Trie = Radix::new();
    t.insert(&bytes(b"a"), 1);
    t.insert(&bytes(b"ab"), 2);
    t.insert(&bytes(b"ac"), 3);
    t.insert(&bytes(b"b"), 4);
    assert_eq!(t.delete_prefix(b"a".as_slice()), 3);
    assert_eq!(t.get(b"a".as_slice()), None);
    assert_eq!(t.get(b"ab".as_slice()), None);
    assert_eq!(t.get(b"ac".as_slice()), None);
    assert_eq!(t.get(b"b".as_slice()), Some(&4));
    assert_eq!(t.len(), 1);
    assert!(t.is_canonical());
}

#[test]
fn delete_prefix_vs_remove_descendants() {
    let mut keep: Trie = Radix::new();
    let mut nuke: Trie = Radix::new();
    for t in [&mut keep, &mut nuke] {
        t.insert(&bytes(b"x"), 1);
        t.insert(&bytes(b"x/y"), 2);
        t.insert(&bytes(b"x/y/z"), 3);
    }
    assert_eq!(keep.remove_descendants(b"x".as_slice()), 2);
    assert_eq!(keep.get(b"x".as_slice()), Some(&1));
    assert_eq!(keep.len(), 1);

    assert_eq!(nuke.delete_prefix(b"x".as_slice()), 3);
    assert_eq!(nuke.get(b"x".as_slice()), None);
    assert!(nuke.is_empty());
}

#[test]
fn delete_prefix_mid_edge_absent_and_empty() {
    let mut t: Trie = Radix::new();
    t.insert(&bytes(b"abc"), 1);
    t.insert(&bytes(b"abd"), 2);
    assert_eq!(t.delete_prefix(b"ab".as_slice()), 2);
    assert!(t.is_empty());

    t.insert(&bytes(b"z"), 5);
    assert_eq!(t.delete_prefix(b"q".as_slice()), 0);
    assert_eq!(t.len(), 1);

    t.insert(&bytes(b"a"), 1);
    t.insert(&bytes(b""), 0);
    assert_eq!(t.delete_prefix(b"".as_slice()), 3);
    assert!(t.is_empty());
}

#[test]
fn delete_prefix_noop_preserves_sharing() {
    let mut t: Trie = Radix::new();
    t.insert(&bytes(b"a/x"), 1);
    t.insert(&bytes(b"b/y"), 2);
    let snap = t.clone();
    assert_eq!(t.delete_prefix(b"zzz".as_slice()), 0);
    for first in *b"ab" {
        let s = snap.edge_child(&first).expect("edge");
        let l = t.edge_child(&first).expect("edge");
        assert!(Arc::ptr_eq(&s, &l), "a no-op delete_prefix must not break sharing");
    }
}

#[test]
fn drain_prefix_returns_values_ascending() {
    let mut t: Trie = Radix::new();
    t.insert(&bytes(b"a"), 1);
    t.insert(&bytes(b"ab"), 2);
    t.insert(&bytes(b"ac"), 3);
    t.insert(&bytes(b"b"), 4);
    assert_eq!(t.drain_prefix(b"a".as_slice()), vec![1, 2, 3]);
    assert_eq!(t.get(b"b".as_slice()), Some(&4));
    assert_eq!(t.len(), 1);
}

#[test]
fn drain_prefix_shared_subtree_clones_not_moves() {
    let mut t: Trie = Radix::new();
    t.insert(&bytes(b"a"), 1);
    t.insert(&bytes(b"a/b"), 2);
    t.insert(&bytes(b"a/b/c"), 3);
    let snap = t.clone();

    assert_eq!(t.drain_prefix(b"a".as_slice()), vec![1, 2, 3]);
    assert!(t.is_empty());
    assert_eq!(snap.get(b"a".as_slice()), Some(&1));
    assert_eq!(snap.get(b"a/b".as_slice()), Some(&2));
    assert_eq!(snap.get(b"a/b/c".as_slice()), Some(&3));
    assert_eq!(snap.len(), 3);
}

#[test]
fn values_rev_is_reverse_of_values() {
    let mut t: Trie = Radix::new();
    t.insert(&bytes(b"a"), 1);
    t.insert(&bytes(b"ab"), 2);
    t.insert(&bytes(b"abc"), 3);
    t.insert(&bytes(b"b"), 4);
    let fwd: Vec<u32> = values(t.values());
    assert_eq!(fwd, vec![1, 2, 3, 4]);
    let rev: Vec<u32> = rev_values(t.values_rev());
    assert_eq!(rev, vec![4, 3, 2, 1]);
}

#[test]
fn descendants_rev_is_reverse_strict() {
    let mut t: Trie = Radix::new();
    t.insert(&bytes(b"a"), 0);
    t.insert(&bytes(b"a/x"), 1);
    t.insert(&bytes(b"a/y"), 2);
    t.insert(&bytes(b"a/z"), 3);
    let fwd: Vec<u32> = descendants(t.descendants(b"a".as_slice()));
    assert_eq!(fwd, vec![1, 2, 3]);
    let rev: Vec<u32> = rev_descendants(t.descendants_rev(b"a".as_slice()));
    assert_eq!(rev, vec![3, 2, 1]);
}

#[test]
fn rev_iters_empty() {
    let t: Trie = Radix::new();
    assert_eq!(rev_values(t.values_rev()).len(), 0);
    assert_eq!(rev_descendants(t.descendants_rev(b"x".as_slice())).len(), 0);
}

fn rng(t: &Trie, lo: Bound<&[u8]>, hi: Bound<&[u8]>) -> Vec<(Vec<u8>, u32)> {
    entries(t.range::<[u8]>((lo, hi)))
}

#[test]
fn range_all_bound_combinations() {

    let mut t: Trie = Radix::new();
    t.insert(&bytes(b"a"), 1);
    t.insert(&bytes(b"b"), 2);
    t.insert(&bytes(b"c"), 3);
    t.insert(&bytes(b"d"), 4);
    let all = vec![(bytes(b"a"), 1), (bytes(b"b"), 2), (bytes(b"c"), 3), (bytes(b"d"), 4)];

    assert_eq!(rng(&t, Unbounded, Unbounded), all);
    assert_eq!(
        rng(&t, Included(b"b"), Unbounded),
        vec![(bytes(b"b"), 2), (bytes(b"c"), 3), (bytes(b"d"), 4)]
    );
    assert_eq!(rng(&t, Excluded(b"b"), Unbounded), vec![(bytes(b"c"), 3), (bytes(b"d"), 4)]);
    assert_eq!(
        rng(&t, Unbounded, Included(b"c")),
        vec![(bytes(b"a"), 1), (bytes(b"b"), 2), (bytes(b"c"), 3)]
    );
    assert_eq!(rng(&t, Unbounded, Excluded(b"c")), vec![(bytes(b"a"), 1), (bytes(b"b"), 2)]);
    assert_eq!(rng(&t, Included(b"b"), Included(b"c")), vec![(bytes(b"b"), 2), (bytes(b"c"), 3)]);
    assert_eq!(rng(&t, Included(b"b"), Excluded(b"c")), vec![(bytes(b"b"), 2)]);
    assert_eq!(rng(&t, Excluded(b"b"), Included(b"c")), vec![(bytes(b"c"), 3)]);
    assert_eq!(rng(&t, Excluded(b"b"), Excluded(b"c")), vec![]);
    assert_eq!(rng(&t, Included(b"b"), Included(b"b")), vec![(bytes(b"b"), 2)]);
    assert_eq!(rng(&t, Included(b"c"), Excluded(b"c")), vec![]);
    assert_eq!(rng(&t, Excluded(b"c"), Included(b"c")), vec![]);
    assert_eq!(rng(&t, Included(b"d"), Included(b"a")), vec![]);
    assert_eq!(rng(&t, Excluded(b"a"), Excluded(b"d")), vec![(bytes(b"b"), 2), (bytes(b"c"), 3)]);
}

#[test]
fn range_prefix_spanning() {

    let mut t: Trie = Radix::new();
    t.insert(&bytes(b"a"), 1);
    t.insert(&bytes(b"ab"), 2);
    t.insert(&bytes(b"abc"), 3);
    t.insert(&bytes(b"b"), 4);
    assert_eq!(
        rng(&t, Included(b"a"), Excluded(b"b")),
        vec![(bytes(b"a"), 1), (bytes(b"ab"), 2), (bytes(b"abc"), 3)]
    );
    assert_eq!(
        rng(&t, Excluded(b"a"), Unbounded),
        vec![(bytes(b"ab"), 2), (bytes(b"abc"), 3), (bytes(b"b"), 4)]
    );
    assert_eq!(
        rng(&t, Included(b"aa"), Unbounded),
        vec![(bytes(b"ab"), 2), (bytes(b"abc"), 3), (bytes(b"b"), 4)]
    );
    assert_eq!(rng(&t, Included(b"ac"), Unbounded), vec![(bytes(b"b"), 4)]);
}

#[test]
fn seek_lower_bound_positions() {
    let mut t: Trie = Radix::new();
    t.insert(&bytes(b"a"), 1);
    t.insert(&bytes(b"c"), 3);
    t.insert(&bytes(b"e"), 5);
    let seek = |k: &[u8]| -> Vec<u32> { entries(t.seek_lower_bound(k)).into_iter().map(|(_, v)| v).collect() };
    assert_eq!(seek(b"c"), vec![3, 5]);
    assert_eq!(seek(b"b"), vec![3, 5]);
    assert_eq!(seek(b""), vec![1, 3, 5]);
    assert_eq!(seek(b"a"), vec![1, 3, 5]);
    assert_eq!(seek(b"f"), vec![]);
    assert_eq!(seek(b"z"), vec![]);
    assert_eq!(seek(b"e"), vec![5]);
}

#[test]
fn reverse_seek_lower_bound_positions() {
    let mut t: Trie = Radix::new();
    t.insert(&bytes(b"a"), 1);
    t.insert(&bytes(b"c"), 3);
    t.insert(&bytes(b"e"), 5);
    let rseek = |k: &[u8]| -> Vec<u32> {
        rev_entries(t.seek_reverse_lower_bound(k)).into_iter().map(|(_, v)| v).collect()
    };
    assert_eq!(rseek(b"c"), vec![3, 1]);
    assert_eq!(rseek(b"d"), vec![3, 1]);
    assert_eq!(rseek(b"e"), vec![5, 3, 1]);
    assert_eq!(rseek(b"z"), vec![5, 3, 1]);
    assert_eq!(rseek(b"a"), vec![1]);
    assert_eq!(rseek(b""), vec![]);
    assert_eq!(rseek(b"`"), vec![]);

    let mut m: Trie = Radix::new();
    for (i, k) in [b"a1".as_slice(), b"abc", b"barbazboo", b"f", b"foo", b"found", b"zap", b"zip"]
        .into_iter()
        .enumerate()
    {
        m.insert(k, i as u32);
    }
    let keys = |k: &[u8]| -> Vec<Vec<u8>> {
        rev_entries(m.seek_reverse_lower_bound(k)).into_iter().map(|(k, _)| k).collect()
    };
    assert_eq!(
        keys(b"foo"),
        vec![b"foo".to_vec(), b"f".to_vec(), b"barbazboo".to_vec(), b"abc".to_vec(), b"a1".to_vec()]
    );
    assert_eq!(keys(b"fom"), vec![b"f".to_vec(), b"barbazboo".to_vec(), b"abc".to_vec(), b"a1".to_vec()]);
    assert_eq!(
        keys(b"zzz"),
        vec![
            b"zip".to_vec(),
            b"zap".to_vec(),
            b"found".to_vec(),
            b"foo".to_vec(),
            b"f".to_vec(),
            b"barbazboo".to_vec(),
            b"abc".to_vec(),
            b"a1".to_vec()
        ]
    );
}

#[test]
fn range_rev_descending_with_bounds() {
    let mut t: Trie = Radix::new();
    for (k, v) in [(b"a".as_slice(), 1u32), (b"b", 2), (b"c", 3), (b"d", 4)] {
        t.insert(k, v);
    }
    let rr = |r: (Bound<&[u8]>, Bound<&[u8]>)| -> Vec<(Vec<u8>, u32)> { rev_entries(t.range_rev::<[u8]>(r)) };
    assert_eq!(
        rr((Bound::Unbounded, Bound::Unbounded)),
        vec![(b"d".to_vec(), 4), (b"c".to_vec(), 3), (b"b".to_vec(), 2), (b"a".to_vec(), 1)]
    );
    assert_eq!(
        rr((Bound::Included(b"b".as_slice()), Bound::Included(b"c".as_slice()))),
        vec![(b"c".to_vec(), 3), (b"b".to_vec(), 2)]
    );
    assert_eq!(
        rr((Bound::Excluded(b"a".as_slice()), Bound::Excluded(b"d".as_slice()))),
        vec![(b"c".to_vec(), 3), (b"b".to_vec(), 2)]
    );
}

#[test]
fn descendants_inclusive_includes_prefix_key() {
    let mut t: Trie = Radix::new();
    t.insert(&bytes(b"a"), 1);
    t.insert(&bytes(b"ab"), 2);
    t.insert(&bytes(b"abc"), 3);
    t.insert(&bytes(b"b"), 9);
    assert_eq!(descendants(t.descendants(b"a".as_slice())), vec![2, 3]);
    assert_eq!(descendants(t.descendants_inclusive(b"a".as_slice())), vec![1, 2, 3]);
    let mut t2: Trie = Radix::new();
    t2.insert(&bytes(b"xy"), 1);
    t2.insert(&bytes(b"xz"), 2);
    assert_eq!(descendants(t2.descendants_inclusive(b"x".as_slice())), vec![1, 2]);
    assert_eq!(descendants(t.descendants_inclusive(b"zzz".as_slice())), Vec::<u32>::new());
}

#[test]
fn clone_fork_is_bidirectionally_isolated() {
    let mut base: Trie = Radix::new();
    base.insert(&bytes(b"shared"), 0);
    let mut a = base.clone();
    let mut b = base.clone();
    a.insert(&bytes(b"a-only"), 1);
    b.insert(&bytes(b"b-only"), 2);
    assert_eq!(a.get(b"a-only".as_slice()), Some(&1));
    assert_eq!(a.get(b"b-only".as_slice()), None);
    assert_eq!(b.get(b"b-only".as_slice()), Some(&2));
    assert_eq!(b.get(b"a-only".as_slice()), None);
    assert_eq!(base.len(), 1);
    assert!(base.get(b"a-only".as_slice()).is_none());
    assert!(base.get(b"b-only".as_slice()).is_none());
}

#[test]
fn walk_prefix_and_path_yield_keys() {
    let mut t: Trie = Radix::new();
    t.insert(&bytes(b"a"), 1);
    t.insert(&bytes(b"a/b"), 2);
    t.insert(&bytes(b"a/b/c"), 3);
    t.insert(&bytes(b"b"), 9);
    assert_eq!(
        entries(t.walk_prefix(b"a".as_slice())),
        vec![(bytes(b"a"), 1), (bytes(b"a/b"), 2), (bytes(b"a/b/c"), 3)]
    );
    assert_eq!(entries(t.walk_prefix_strict(b"a".as_slice())), vec![(bytes(b"a/b"), 2), (bytes(b"a/b/c"), 3)]);
    assert_eq!(
        rev_entries(t.walk_prefix_rev(b"a".as_slice())),
        vec![(bytes(b"a/b/c"), 3), (bytes(b"a/b"), 2), (bytes(b"a"), 1)]
    );
    assert_eq!(
        path_entries(t.walk_path(b"a/b/c".as_slice())),
        vec![(bytes(b"a"), 1), (bytes(b"a/b"), 2), (bytes(b"a/b/c"), 3)]
    );
    assert_eq!(
        path_entries(t.walk_path_rev(b"a/b/c".as_slice())),
        vec![(bytes(b"a/b/c"), 3), (bytes(b"a/b"), 2), (bytes(b"a"), 1)]
    );
}
