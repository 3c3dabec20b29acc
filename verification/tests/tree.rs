use iradix::cursor::{Path, Range};
use iradix::sync;
use iradix::unsync::Radix;
use iradix::Bound::Unbounded;
use std::collections::HashMap;

/// Number of entries the write cache of a transaction was sized for.
const MODIFIED_CACHE: usize = 8192;

/// A bijection on `u64` with good bit mixing (splitmix64's finaliser), so that
/// distinct seeds give distinct, well-spread keys.
fn mix(seed: u64) -> u64 {
    let mut z = seed.wrapping_add(0x9e37_79b9_7f4a_7c15);
    z = (z ^ (z >> 30)).wrapping_mul(0xbf58_476d_1ce4_e5b9);
    z = (z ^ (z >> 27)).wrapping_mul(0x94d0_49bb_1331_11eb);
    z ^ (z >> 31)
}

/// A 16-byte key, distinct for distinct `i`, standing in for a random UUID.
fn id16(i: u64) -> [u8; 16] {
    let mut out = [0u8; 16];
    out[..8].copy_from_slice(&mix(i).to_be_bytes());
    out[8..].copy_from_slice(&mix(i ^ 0x5555_5555_5555_5555).to_be_bytes());
    out
}

fn range_keys<V>(mut it: Range<'_, u8, V>) -> Vec<Vec<u8>> {
    let mut out = Vec::new();
    while let Some((k, _)) = it.next() {
        out.push(k);
    }
    out
}

fn last_on_path<V: Clone>(mut it: Path<'_, u8, V>) -> Option<Vec<u8>> {
    let mut last = None;
    while let Some((k, _)) = it.next() {
        last = Some(k);
    }
    last
}

#[test]
fn test_radix_huge_txn() {
    let r: sync::Radix<u8, usize> = sync::Radix::new();
    let mut txn = r.txn();
    let mut expect = Vec::new();
    for i in 0..MODIFIED_CACHE * 100 {
        let gen = id16(i as u64);
        txn.insert(&gen[..], i);
        expect.push(gen.to_vec());
    }
    let r = txn.commit();
    expect.sort();

    let out = range_keys(r.range::<[u8]>((Unbounded, Unbounded)));
    assert_eq!(out.len(), expect.len(), "length mis-match");
    for i in 0..out.len() {
        assert_eq!(out[i], expect[i], "mis-match at index {}", i);
    }
}

#[test]
fn test_radix() {
    let mut inp: HashMap<Vec<u8>, usize> = HashMap::with_capacity(1000);
    let mut min: Option<Vec<u8>> = None;
    let mut max: Option<Vec<u8>> = None;
    for i in 0..1000 {
        let gen = id16(1_000_000 + i as u64).to_vec();
        inp.insert(gen.clone(), i);
        if min.as_ref().map_or(true, |m| gen < *m) {
            min = Some(gen.clone());
        }
        if max.as_ref().map_or(true, |m| gen > *m) {
            max = Some(gen.clone());
        }
    }
    let min = min.unwrap();
    let max = max.unwrap();

    let mut r: Radix<u8, usize> = Radix::new();
    for (k, v) in inp.iter() {
        r.insert(k.as_slice(), *v);
    }
    assert_eq!(r.len(), inp.len(), "bad length");

    for (k, v) in inp.iter() {
        match r.get(k.as_slice()) {
            None => panic!("missing key {:?}", k),
            Some(out) => assert_eq!(out, v, "value mis-match. exp: {} got: {}", *v, *out),
        }
    }

    let (out_min, _) = r.minimum().unwrap();
    assert_eq!(out_min, min, "bad minimum");
    let (out_max, _) = r.maximum().unwrap();
    assert_eq!(out_max, max, "bad maximum");

    // A copy of the full tree taken before the deletes.
    let orig = r.clone();

    for (k, v) in inp.iter() {
        let out = r.remove(k.as_slice());
        assert_eq!(out.unwrap(), *v, "bad remove value");
    }
    assert_eq!(r.len(), 0, "bad length");
    assert_eq!(orig.len(), inp.len(), "the copy was disturbed");
}

#[test]
fn test_len_txn() {
    const KEYS: &[&str] = &[
        "foo/bar/baz",
        "foo/baz/bar",
        "foo/zip/zap",
        "foobar",
        "nochange",
    ];
    let mut r: sync::Radix<u8, ()> = sync::Radix::new();

    let mut txn = r.txn();
    for k in KEYS {
        txn.insert(k.as_bytes(), ());
    }
    r = txn.commit();
    assert_eq!(r.len(), KEYS.len());

    let mut txn = r.txn();
    for k in KEYS {
        txn.remove(k.as_bytes());
    }
    r = txn.commit();
    assert!(r.is_empty());
}

#[test]
fn test_longest_prefix() {
    const KEYS: &[&str] = &["", "foo", "foobar", "foobarbaz", "foobarbazzip", "foozip"];
    let mut r: Radix<u8, ()> = Radix::new();
    for k in KEYS {
        r.insert(k.as_bytes(), ());
    }
    assert_eq!(r.len(), KEYS.len(), "bad len {} {}", r.len(), KEYS.len());

    const CASES: &[(&str, &str)] = &[
        ("a", ""),
        ("abc", ""),
        ("fo", ""),
        ("foo", "foo"),
        ("foob", "foo"),
        ("foobar", "foobar"),
        ("foobarba", "foobar"),
        ("foobarbaz", "foobarbaz"),
        ("foobarbazzi", "foobarbaz"),
        ("foobarbazzip", "foobarbazzip"),
        ("foozi", "foo"),
        ("foozip", "foozip"),
        ("foozipzap", "foozip"),
    ];
    for (inp, out) in CASES {
        match last_on_path(r.walk_path(inp.as_bytes())) {
            None => panic!("no match for input {inp}"),
            Some(m) => assert_eq!(m, out.as_bytes(), "bad match for input {inp}"),
        }
    }
}

#[test]
fn test_minimum() {
    const KEYS: &[&str] = &[
        "foo/bar/baz",
        "foo/baz/bar",
        "foo/zip/zap",
        "foobar",
        "nochange",
    ];
    let mut r: Radix<u8, usize> = Radix::new();
    for (idx, k) in KEYS.iter().enumerate() {
        r.insert(k.as_bytes(), idx);
    }
    let (min, v) = r.minimum().unwrap();
    assert_eq!(min, KEYS[0].as_bytes());
    assert_eq!(*v, 0);
}

#[test]
fn test_maximum() {
    const KEYS: &[&str] = &[
        "foo/bar/baz",
        "foo/baz/bar",
        "foo/zip/zap",
        "foobar",
        "nochange",
    ];
    let mut r: Radix<u8, usize> = Radix::new();
    for (idx, k) in KEYS.iter().enumerate() {
        r.insert(k.as_bytes(), idx);
    }
    let (max, v) = r.maximum().unwrap();
    assert_eq!(max, KEYS[4].as_bytes());
    assert_eq!(*v, 4);
}
