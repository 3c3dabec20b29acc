use iradix::cursor::{Ancestors, Descendants, Range, RevDescendants, RevValues, Values};
use iradix::sync::{Radix, Txn};
use iradix::Bound;
use iradix::Bound::{Excluded, Included, Unbounded};
use std::sync::Arc;

type Trie = Radix<u8, u32>;

fn bytes(s: &[u8]) -> Vec<u8> {
    s.to_vec()
}

fn build<const N: usize>(entries: [(&[u8], u32); N]) -> Trie {
    let mut t = Radix::new().txn();
    for (k, v) in entries {
        t.insert(k, v);
    }
    t.commit()
}

fn one_insert(t: &Trie, key: &[u8], value: u32) -> (Trie, Option<u32>) {
    let mut txn = t.txn();
    let prev = txn.insert(key, value);
    (txn.commit(), prev)
}

fn one_remove(t: &Trie, key: &[u8]) -> (Trie, Option<u32>) {
    let mut txn = t.txn();
    let prev = txn.remove(key);
    (txn.commit(), prev)
}

fn one_remove_descendants(t: &Trie, key: &[u8]) -> (Trie, usize) {
    let mut txn = t.txn();
    let n = txn.remove_descendants(key);
    (txn.commit(), n)
}

fn one_delete_prefix(t: &Trie, key: &[u8]) -> (Trie, usize) {
    let mut txn = t.txn();
    let n = txn.delete_prefix(key);
    (txn.commit(), n)
}

fn one_drain_descendants(t: &Trie, key: &[u8]) -> (Trie, Vec<u32>) {
    let mut txn = t.txn();
    let drained = txn.drain_descendants(key);
    (txn.commit(), drained)
}

fn one_drain_prefix(t: &Trie, key: &[u8]) -> (Trie, Vec<u32>) {
    let mut txn = t.txn();
    let drained = txn.drain_prefix(key);
    (txn.commit(), drained)
}

fn values(mut it: Values<'_, u8, u32>) -> Vec<u32> {
    let mut out = Vec::new();
    while let Some(v) = it.next() {
        out.push(*v);
    }
    out
}

fn descendants(mut it: Descendants<'_, u8, u32>) -> Vec<u32> {
    let mut out = Vec::new();
    while let Some(v) = it.next() {
        out.push(*v);
    }
    out
}

fn rev_values(mut it: RevValues<'_, u8, u32>) -> Vec<u32> {
    let mut out = Vec::new();
    while let Some(v) = it.next() {
        out.push(*v);
    }
    out
}

fn rev_descendants(mut it: RevDescendants<'_, u8, u32>) -> Vec<u32> {
    let mut out = Vec::new();
    while let Some(v) = it.next() {
        out.push(*v);
    }
    out
}

fn ancestors(mut it: Ancestors<'_, u32>) -> Vec<u32> {
    let mut out = Vec::new();
    while let Some(v) = it.next() {
        out.push(*v);
    }
    out
}

fn entries(mut it: Range<'_, u8, u32>) -> Vec<(Vec<u8>, u32)> {
    let mut out = Vec::new();
    while let Some((k, v)) = it.next() {
        out.push((k, *v));
    }
    out
}

const fn assert_send<T: Send>() {}
const fn assert_sync<T: Sync>() {}

#[test]
fn tests_sync_radix_is_send_sync() {
    assert_send::<Trie>();
    assert_sync::<Trie>();
    assert_send::<Radix<char, std::string::String>>();
    assert_sync::<Radix<char, std::string::String>>();
    assert_send::<Txn<u8, u32>>();
    assert_sync::<Txn<u8, u32>>();
}

#[test]
fn new_is_empty_and_const() {
    let empty: Trie = Radix::new();
    assert!(empty.is_empty());

    let (t, prev) = one_insert(&empty, b"abc", 1);
    assert_eq!(prev, None);
    let (t, prev) = one_insert(&t, b"abd", 2);
    assert_eq!(prev, None);
    assert_eq!(t.get(b"abc".as_slice()), Some(&1));
    assert_eq!(t.get(b"abd".as_slice()), Some(&2));
    assert_eq!(t.get(b"ab".as_slice()), None);
    assert_eq!(t.len(), 2);
}

#[test]
fn committed_insert_leaves_source_unchanged() {
    let base = build([(b"a", 1), (b"b", 2)]);
    let (next, prev) = one_insert(&base, b"a", 100);
    assert_eq!(prev, Some(1));
    assert_eq!(base.get(b"a".as_slice()), Some(&1));
    assert_eq!(base.len(), 2);
    assert_eq!(next.get(b"a".as_slice()), Some(&100));
    assert_eq!(next.len(), 2);
}

#[test]
fn committed_remove_persists() {
    let base = build([(b"a", 1), (b"ab", 2), (b"b", 3)]);
    let (after_remove, removed) = one_remove(&base, b"a");
    assert_eq!(removed, Some(1));
    assert_eq!(base.get(b"a".as_slice()), Some(&1));
    assert_eq!(after_remove.get(b"a".as_slice()), None);
    assert_eq!(after_remove.len(), 2);
    assert_eq!(base.len(), 3);
}

#[test]
fn committed_prefix_ops_persist() {
    let base = build([(b"x", 1), (b"x/y", 2), (b"x/y/z", 3), (b"y", 9)]);

    let (kept, n) = one_remove_descendants(&base, b"x");
    assert_eq!(n, 2);
    assert_eq!(kept.get(b"x".as_slice()), Some(&1));
    assert_eq!(kept.len(), 2);
    assert!(kept.is_canonical());

    let (nuked, n) = one_delete_prefix(&base, b"x");
    assert_eq!(n, 3);
    assert_eq!(nuked.get(b"x".as_slice()), None);
    assert_eq!(nuked.get(b"y".as_slice()), Some(&9));
    assert_eq!(nuked.len(), 1);
    assert!(nuked.is_canonical());

    assert_eq!(base.len(), 4);
    assert_eq!(base.get(b"x".as_slice()), Some(&1));
}

#[test]
fn committed_drain_returns_values_and_persists() {
    let base = build([(b"a", 1), (b"a/b", 2), (b"a/b/c", 3)]);

    let (after, mut drained) = one_drain_descendants(&base, b"a");
    drained.sort_unstable();
    assert_eq!(drained, vec![2, 3]);
    assert_eq!(after.get(b"a".as_slice()), Some(&1));
    assert_eq!(after.get(b"a/b".as_slice()), None);
    assert_eq!(base.len(), 3);
    assert_eq!(base.get(b"a/b/c".as_slice()), Some(&3));

    let (after_prefix, drained) = one_drain_prefix(&base, b"a");
    assert_eq!(drained, vec![1, 2, 3]);
    assert!(after_prefix.is_empty());
    assert_eq!(base.len(), 3);
}

#[test]
fn ancestors_inclusive_and_strict() {
    let t = build([(b"a", 1), (b"abc", 3)]);
    assert_eq!(t.get_ancestor(b"abc".as_slice()), Some(&3));
    assert_eq!(t.get_ancestor(b"abcd".as_slice()), Some(&3));
    assert_eq!(t.strict_ancestor(b"abc".as_slice()), Some(&1));
    assert!(t.has_ancestor(b"abc".as_slice()));
    assert!(!t.has_ancestor(b"x".as_slice()));
}

#[test]
fn iterators_over_arc_face() {
    let t = build([(b"a", 1), (b"ab", 2), (b"abc", 3), (b"b", 4)]);

    let mut all: Vec<u32> = values(t.values());
    all.sort_unstable();
    assert_eq!(all, vec![1, 2, 3, 4]);

    let mut anc: Vec<u32> = ancestors(t.ancestors(b"abc".as_slice()));
    anc.sort_unstable();
    assert_eq!(anc, vec![1, 2, 3]);

    let mut desc: Vec<u32> = descendants(t.descendants(b"a".as_slice()));
    desc.sort_unstable();
    assert_eq!(desc, vec![2, 3]);
}

#[test]
fn txn_batches_then_commits() {
    let base: Trie = Radix::new();
    let mut txn = base.txn();
    assert_eq!(txn.insert(&bytes(b"a"), 1), None);
    assert_eq!(txn.insert(&bytes(b"ab"), 2), None);
    assert_eq!(txn.insert(&bytes(b"a"), 10), Some(1));
    assert_eq!(txn.len(), 2);
    let committed = txn.commit();

    assert_eq!(committed.len(), 2);
    assert_eq!(committed.get(b"a".as_slice()), Some(&10));
    assert_eq!(base.len(), 0);
}

#[test]
fn txn_read_your_writes() {
    let base = build([(b"a", 1)]);
    let mut txn = base.txn();
    assert_eq!(txn.get(b"a".as_slice()), Some(&1));
    txn.insert(&bytes(b"ab"), 2);
    txn.insert(&bytes(b"b"), 3);
    assert_eq!(txn.get(b"ab".as_slice()), Some(&2));
    assert!(txn.contains(b"b".as_slice()));
    assert_eq!(txn.get_ancestor(b"abc".as_slice()), Some(&2));
    assert_eq!(txn.strict_ancestor(b"ab".as_slice()), Some(&1));
    assert!(txn.has_ancestor(b"abc".as_slice()));

    let mut anc: Vec<u32> = ancestors(txn.ancestors(b"ab".as_slice()));
    anc.sort_unstable();
    assert_eq!(anc, vec![1, 2]);
    let mut all: Vec<u32> = values(txn.values());
    all.sort_unstable();
    assert_eq!(all, vec![1, 2, 3]);
    let mut desc: Vec<u32> = descendants(txn.descendants(b"a".as_slice()));
    desc.sort_unstable();
    assert_eq!(desc, vec![2]);

    assert_eq!(base.len(), 1);
}

#[test]
fn txn_dropped_without_commit_discards_edits() {
    let base = build([(b"a", 1)]);
    {
        let mut txn = base.txn();
        txn.insert(&bytes(b"b"), 2);
        txn.clear();
        txn.insert(&bytes(b"c"), 3);
    }
    assert_eq!(base.len(), 1);
    assert_eq!(base.get(b"a".as_slice()), Some(&1));
    assert_eq!(base.get(b"c".as_slice()), None);
}

#[test]
fn txn_clear_then_commit() {
    let base = build([(b"a", 1), (b"b", 2)]);
    let mut txn = base.txn();
    txn.clear();
    assert!(txn.is_empty());
    txn.insert(&bytes(b"z"), 9);
    let committed = txn.commit();
    assert_eq!(committed.len(), 1);
    assert_eq!(committed.get(b"z".as_slice()), Some(&9));
    assert_eq!(base.len(), 2);
}

#[test]
fn from_iterator_builds_tree() {
    let t: Trie = Radix::from_pairs(vec![(bytes(b"a"), 1u32), (bytes(b"ab"), 2), (bytes(b"a"), 10), (bytes(b"b"), 3)]);
    assert_eq!(t.len(), 3);
    assert_eq!(t.get(b"a".as_slice()), Some(&10));
    assert_eq!(t.get(b"ab".as_slice()), Some(&2));
    assert_eq!(t.get(b"b".as_slice()), Some(&3));
    assert!(t.is_canonical());
}

#[test]
fn tests_clone_is_snapshot_isolated() {
    let snap = build([(b"k", 1)]);
    let (live, _) = one_insert(&snap, b"k", 2);
    let (live, _) = one_insert(&live, b"k2", 3);
    assert_eq!(snap.get(b"k".as_slice()), Some(&1));
    assert_eq!(snap.get(b"k2".as_slice()), None);
    assert_eq!(live.get(b"k".as_slice()), Some(&2));
}

#[test]
fn tests_unchanged_subtree_is_shared() {
    let snap = build([(b"a/x", 1), (b"b/y", 2)]);
    let (live, _) = one_insert(&snap, b"a/z", 3);

    let snap_b = snap.edge_child(&b'b').expect("b edge");
    let t_b = live.edge_child(&b'b').expect("b edge");
    assert!(Arc::ptr_eq(&snap_b, &t_b), "the untouched b subtree must be shared");
    let snap_a = snap.edge_child(&b'a').expect("a edge");
    let t_a = live.edge_child(&b'a').expect("a edge");
    assert!(!Arc::ptr_eq(&snap_a, &t_a));
}

#[test]
fn txn_unchanged_subtree_is_shared_after_commit() {
    let snap = build([(b"a/x", 1), (b"b/y", 2)]);
    let mut txn = snap.txn();
    txn.insert(&bytes(b"a/z"), 3);
    let live = txn.commit();

    let snap_b = snap.edge_child(&b'b').expect("b edge");
    let t_b = live.edge_child(&b'b').expect("b edge");
    assert!(Arc::ptr_eq(&snap_b, &t_b), "an untouched subtree must stay shared across a txn commit");
}

#[test]
fn tests_drain_shared_subtree_clones_not_moves() {
    let snap = build([(b"a", 1), (b"a/b", 2), (b"a/b/c", 3)]);

    let (live, mut drained) = one_drain_descendants(&snap, b"a");
    drained.sort_unstable();
    assert_eq!(drained, vec![2, 3]);
    assert_eq!(live.get(b"a".as_slice()), Some(&1));
    assert_eq!(live.get(b"a/b".as_slice()), None);

    assert_eq!(snap.get(b"a".as_slice()), Some(&1));
    assert_eq!(snap.get(b"a/b".as_slice()), Some(&2));
    assert_eq!(snap.get(b"a/b/c".as_slice()), Some(&3));
    assert_eq!(snap.len(), 3);
}

#[test]
fn tests_remove_descendants_keeps_self() {
    let base = build([(b"a", 1), (b"ab", 2), (b"ac", 3), (b"b", 4)]);
    let (t, n) = one_remove_descendants(&base, b"a");
    assert_eq!(n, 2);
    assert_eq!(t.get(b"a".as_slice()), Some(&1));
    assert_eq!(t.get(b"b".as_slice()), Some(&4));
    assert_eq!(t.len(), 2);
    assert!(t.is_canonical());
}

#[test]
fn committed_insert_preserves_each_prior_version() {
    let v0: Trie = Radix::new();
    let (v1, _) = one_insert(&v0, b"a", 1);
    let (v2, _) = one_insert(&v1, b"b", 2);
    let (v3, _) = one_insert(&v2, b"c", 3);

    assert_eq!(v0.len(), 0);
    assert_eq!(v1.len(), 1);
    assert_eq!(v2.len(), 2);
    assert_eq!(v3.len(), 3);
    assert_eq!(v1.get(b"b".as_slice()), None);
    assert_eq!(v2.get(b"c".as_slice()), None);
    assert_eq!(v3.get(b"a".as_slice()), Some(&1));
}

#[test]
fn min_max_empty_and_populated() {
    let empty: Trie = Radix::new();
    assert_eq!(empty.minimum(), None);
    assert_eq!(empty.maximum(), None);

    let t = build([(b"a", 1), (b"abc", 2), (b"abd", 3), (b"b", 4)]);
    assert_eq!(t.minimum(), Some((bytes(b"a"), &1)));
    assert_eq!(t.maximum(), Some((bytes(b"b"), &4)));
}

#[test]
fn delete_prefix_is_node_inclusive_and_vs_remove_descendants() {
    let base = build([(b"x", 1), (b"x/y", 2), (b"x/y/z", 3), (b"y", 9)]);

    let (keep, n) = one_remove_descendants(&base, b"x");
    assert_eq!(n, 2);
    assert_eq!(keep.get(b"x".as_slice()), Some(&1));
    assert_eq!(keep.len(), 2);
    assert!(keep.is_canonical());

    let (nuke, n) = one_delete_prefix(&base, b"x");
    assert_eq!(n, 3);
    assert_eq!(nuke.get(b"x".as_slice()), None);
    assert_eq!(nuke.get(b"y".as_slice()), Some(&9));
    assert_eq!(nuke.len(), 1);
    assert!(nuke.is_canonical());
}

#[test]
fn drain_prefix_ascending_and_shared_clones() {
    let snap = build([(b"a", 1), (b"a/b", 2), (b"a/c", 3)]);
    let (live, drained) = one_drain_prefix(&snap, b"a");
    assert_eq!(drained, vec![1, 2, 3]);
    assert!(live.is_empty());
    assert_eq!(snap.get(b"a".as_slice()), Some(&1));
    assert_eq!(snap.get(b"a/b".as_slice()), Some(&2));
    assert_eq!(snap.get(b"a/c".as_slice()), Some(&3));
    assert_eq!(snap.len(), 3);
}

#[test]
fn reverse_iteration() {
    let t = build([(b"a", 1), (b"ab", 2), (b"abc", 3), (b"b", 4)]);
    let rev: Vec<u32> = rev_values(t.values_rev());
    assert_eq!(rev, vec![4, 3, 2, 1]);
    let drev: Vec<u32> = rev_descendants(t.descendants_rev(b"a".as_slice()));
    assert_eq!(drev, vec![3, 2]);
}

fn rng(t: &Trie, lo: Bound<&[u8]>, hi: Bound<&[u8]>) -> Vec<(Vec<u8>, u32)> {
    entries(t.range::<[u8]>((lo, hi)))
}

#[test]
fn range_bound_combinations_and_seek() {

    let t = build([(b"a", 1), (b"b", 2), (b"c", 3), (b"d", 4)]);

    assert_eq!(rng(&t, Unbounded, Unbounded).len(), 4);
    assert_eq!(rng(&t, Included(b"b"), Excluded(b"d")), vec![(bytes(b"b"), 2), (bytes(b"c"), 3)]);
    assert_eq!(rng(&t, Excluded(b"b"), Included(b"c")), vec![(bytes(b"c"), 3)]);
    assert_eq!(rng(&t, Excluded(b"b"), Excluded(b"c")), vec![]);
    assert_eq!(rng(&t, Included(b"c"), Included(b"c")), vec![(bytes(b"c"), 3)]);
    assert_eq!(rng(&t, Included(b"d"), Included(b"a")), vec![]);

    let seek = |k: &[u8]| -> Vec<u32> { entries(t.seek_lower_bound(k)).into_iter().map(|(_, v)| v).collect() };
    assert_eq!(seek(b""), vec![1, 2, 3, 4]);
    assert_eq!(seek(b"b"), vec![2, 3, 4]);
    assert_eq!(seek(b"bb"), vec![3, 4]);
    assert_eq!(seek(b"z"), vec![]);
}
