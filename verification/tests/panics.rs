use iradix::unsync::Radix;
use std::sync::atomic::{AtomicIsize, Ordering};

/// Value clones left before the next one panics; negative when disarmed. Each
/// test runs in its own process, so one counter serves them all.
static VAL_FUSE: AtomicIsize = AtomicIsize::new(-1);

fn arm(after: isize) {
    VAL_FUSE.store(after, Ordering::SeqCst);
}

fn disarm() {
    VAL_FUSE.store(-1, Ordering::SeqCst);
}

/// A value whose `Clone` panics on an armed invocation.
#[derive(PartialEq, Eq, Debug)]
struct ValBomb(u32);

impl Clone for ValBomb {
    fn clone(&self) -> Self {
        let left = VAL_FUSE.load(Ordering::SeqCst);
        if left == 0 {
            disarm();
            panic!("armed clone fuse fired");
        }
        if left > 0 {
            VAL_FUSE.store(left - 1, Ordering::SeqCst);
        }
        ValBomb(self.0)
    }
}

fn key(bytes: &[u8]) -> Vec<u8> {
    bytes.to_vec()
}

fn three() -> Radix<u8, ValBomb> {
    let mut t: Radix<u8, ValBomb> = Radix::new();
    t.insert(&key(&[1]), ValBomb(1));
    t.insert(&key(&[1, 2]), ValBomb(2));
    t.insert(&key(&[1, 2, 3]), ValBomb(3));
    t
}

#[test]
fn remove_descendants_never_clones_values() {
    let mut t = three();
    assert_eq!(t.len(), 3);
    // Any value clone from here on panics and fails the test.
    arm(0);
    let removed = t.remove_descendants(key(&[1]).as_slice());
    disarm();
    assert_eq!(removed, 2, "remove_descendants must not clone any value");
    assert_eq!(t.len(), 1);
    assert_eq!(t.count_values(), 1);
    assert_eq!(t.get(key(&[1]).as_slice()), Some(&ValBomb(1)));
}

#[test]
fn delete_prefix_on_shared_trie_never_clones_removed_values() {
    let mut t: Radix<u8, ValBomb> = Radix::new();
    t.insert(&key(&[1]), ValBomb(1));
    t.insert(&key(&[1, 2]), ValBomb(2));
    t.insert(&key(&[1, 3]), ValBomb(3));
    let snap = t.clone();
    assert_eq!(t.len(), 3);
    // Any value clone from here on panics and fails the test.
    arm(0);
    let removed = t.delete_prefix(key(&[1]).as_slice());
    disarm();
    assert_eq!(removed, 3, "delete_prefix must not clone any removed value, even on a shared trie");
    assert_eq!(t.len(), 0);
    assert_eq!(t.count_values(), 0);
    assert_eq!(snap.len(), 3);
    assert_eq!(snap.get(key(&[1, 2]).as_slice()), Some(&ValBomb(2)));
}

#[test]
fn remove_on_shared_trie_returns_a_clone_and_keeps_the_snapshot() {
    let mut t = three();
    let snap = t.clone();
    assert_eq!(t.remove(key(&[1, 2]).as_slice()), Some(ValBomb(2)));
    assert_eq!(snap.get(key(&[1, 2]).as_slice()), Some(&ValBomb(2)));
    assert_eq!(t.len(), 2);
    assert_eq!(snap.len(), 3);
}
