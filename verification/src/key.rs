//! Keys that decompose into sequences of components.

use vstd::prelude::*;
use crate::order::Component;
use crate::node::copy_label;
use crate::iter::{Bound, bound_view};

verus! {

/// A key that decomposes into a sequence of components.
///
/// A trie is generic over its stored component type; any key whose components are
/// of that type can be looked up and stored. Two keys with the same components
/// address the same entry (a `str` and a `Vec<char>` over the same characters, for
/// example).
///
/// `components` must return the same sequence on every call: it is specified by
/// [`key_view`](RadixKey::key_view).
pub trait RadixKey {
    /// The component type the trie stores for this key.
    type Owned: Component;

    /// The key's components, in order.
    spec fn key_view(&self) -> Seq<Self::Owned>;

    /// Returns the key's components, in order.
    fn components(&self) -> (r: Vec<Self::Owned>)
        ensures
            r@ == self.key_view(),
    ;

    /// The key's components as a slice it already holds, when it holds one: a walk
    /// over such a key borrows them and copies nothing.
    fn component_slice(&self) -> (r: Option<&[Self::Owned]>)
        ensures
            r matches Some(s) ==> s@ == self.key_view(),
    {
        None
    }
}

/// A key's components: borrowed from the key when it holds them as a slice, and
/// collected otherwise.
pub enum KeyComponents<'a, C> {
    Borrowed(&'a [C]),
    Owned(Vec<C>),
}

impl<'a, C> View for KeyComponents<'a, C> {
    type V = Seq<C>;

    open spec fn view(&self) -> Seq<C> {
        match self {
            KeyComponents::Borrowed(s) => s@,
            KeyComponents::Owned(v) => v@,
        }
    }
}

impl<'a, C> KeyComponents<'a, C> {
    /// The components, as a slice.
    pub fn as_slice(&self) -> (r: &[C])
        ensures
            r@ == self@,
    {
        match self {
            KeyComponents::Borrowed(s) => s,
            KeyComponents::Owned(v) => v.as_slice(),
        }
    }
}

/// The components of `key`, borrowed where the key holds them as a slice (slices,
/// vectors, arrays, boxed slices) and collected otherwise.
pub fn key_components<K: RadixKey + ?Sized>(key: &K) -> (r: KeyComponents<'_, K::Owned>)
    ensures
        r@ == key.key_view(),
{
    match key.component_slice() {
        Some(s) => KeyComponents::Borrowed(s),
        None => KeyComponents::Owned(key.components()),
    }
}

impl<C: Component> RadixKey for [C] {
    type Owned = C;

    open spec fn key_view(&self) -> Seq<C> {
        self@
    }

    fn components(&self) -> (r: Vec<C>) {
        copy_label(self)
    }

    fn component_slice(&self) -> (r: Option<&[C]>) {
        Some(self)
    }
}

impl<C: Component> RadixKey for Vec<C> {
    type Owned = C;

    open spec fn key_view(&self) -> Seq<C> {
        self@
    }

    fn components(&self) -> (r: Vec<C>) {
        copy_label(self.as_slice())
    }

    fn component_slice(&self) -> (r: Option<&[C]>) {
        Some(self.as_slice())
    }
}

impl<C: Component, const N: usize> RadixKey for [C; N] {
    type Owned = C;

    open spec fn key_view(&self) -> Seq<C> {
        self@
    }

    fn components(&self) -> (r: Vec<C>) {
        copy_label(self.as_slice())
    }

    fn component_slice(&self) -> (r: Option<&[C]>) {
        Some(self.as_slice())
    }
}

impl<C: Component> RadixKey for Box<[C]> {
    type Owned = C;

    open spec fn key_view(&self) -> Seq<C> {
        (**self)@
    }

    fn components(&self) -> (r: Vec<C>) {
        copy_label(&**self)
    }

    fn component_slice(&self) -> (r: Option<&[C]>) {
        Some(&**self)
    }
}

/// A string is character-addressed: its components are its `char`s, so a `str`
/// and a `Vec<char>` over the same characters address the same entry.
impl RadixKey for str {
    type Owned = char;

    open spec fn key_view(&self) -> Seq<char> {
        self@
    }

    fn components(&self) -> (r: Vec<char>) {
        let mut r: Vec<char> = Vec::new();
        broadcast use vstd::string::axiom_spec_iter;
        for c in it: self.chars()
            invariant
                r@ == it.seq().take(it.index() as int),
                it.seq() == self@,
        {
            r.push(c);
        }
        r
    }
}


/// `String` is character-addressed, exactly like `str`.
impl RadixKey for String {
    type Owned = char;

    open spec fn key_view(&self) -> Seq<char> {
        self@
    }

    fn components(&self) -> (r: Vec<char>) {
        self.as_str().components()
    }
}

/// The `n` low-order base-256 digits of `x`, most significant first.
pub open spec fn be(x: nat, n: nat) -> Seq<u8>
    decreases n,
{
    if n == 0 {
        Seq::empty()
    } else {
        be(x / 256, (n - 1) as nat).push((x % 256) as u8)
    }
}

/// Returns `be(x, n)`.
pub fn be_bytes(x: u128, n: usize) -> (r: Vec<u8>)
    ensures
        r@ == be(x as nat, n as nat),
    decreases n,
{
    if n == 0 {
        Vec::new()
    } else {
        let mut r = be_bytes(x / 256, n - 1);
        r.push((x % 256) as u8);
        r
    }
}

/// Keys on its 1 big-endian byte.
impl RadixKey for u8 {
    type Owned = u8;

    open spec fn key_view(&self) -> Seq<u8> {
        be(*self as nat, 1)
    }

    fn components(&self) -> (r: Vec<u8>) {
        be_bytes(*self as u128, 1)
    }
}

/// Keys on its 2 big-endian bytes.
impl RadixKey for u16 {
    type Owned = u8;

    open spec fn key_view(&self) -> Seq<u8> {
        be(*self as nat, 2)
    }

    fn components(&self) -> (r: Vec<u8>) {
        be_bytes(*self as u128, 2)
    }
}

/// Keys on its 4 big-endian bytes.
impl RadixKey for u32 {
    type Owned = u8;

    open spec fn key_view(&self) -> Seq<u8> {
        be(*self as nat, 4)
    }

    fn components(&self) -> (r: Vec<u8>) {
        be_bytes(*self as u128, 4)
    }
}

/// Keys on its 8 big-endian bytes.
impl RadixKey for u64 {
    type Owned = u8;

    open spec fn key_view(&self) -> Seq<u8> {
        be(*self as nat, 8)
    }

    fn components(&self) -> (r: Vec<u8>) {
        be_bytes(*self as u128, 8)
    }
}

/// Keys on its 16 big-endian bytes.
impl RadixKey for u128 {
    type Owned = u8;

    open spec fn key_view(&self) -> Seq<u8> {
        be(*self as nat, 16)
    }

    fn components(&self) -> (r: Vec<u8>) {
        be_bytes(*self as u128, 16)
    }
}

/// Keys on the 1 big-endian byte of the value with its sign bit flipped (the value
/// plus 0x80), so negatives sort below non-negatives.
impl RadixKey for i8 {
    type Owned = u8;

    open spec fn key_view(&self) -> Seq<u8> {
        be((*self + 0x80) as nat, 1)
    }

    fn components(&self) -> (r: Vec<u8>) {
        let x = *self;
        let u: u8 = if x >= 0 {
            (x as u8) + 0x80
        } else {
            ((x + i8::MAX) + 1) as u8
        };
        be_bytes(u as u128, 1)
    }
}

/// Keys on the 2 big-endian bytes of the value with its sign bit flipped (the value
/// plus 0x8000), so negatives sort below non-negatives.
impl RadixKey for i16 {
    type Owned = u8;

    open spec fn key_view(&self) -> Seq<u8> {
        be((*self + 0x8000) as nat, 2)
    }

    fn components(&self) -> (r: Vec<u8>) {
        let x = *self;
        let u: u16 = if x >= 0 {
            (x as u16) + 0x8000
        } else {
            ((x + i16::MAX) + 1) as u16
        };
        be_bytes(u as u128, 2)
    }
}

/// Keys on the 4 big-endian bytes of the value with its sign bit flipped (the value
/// plus 0x8000_0000), so negatives sort below non-negatives.
impl RadixKey for i32 {
    type Owned = u8;

    open spec fn key_view(&self) -> Seq<u8> {
        be((*self + 0x8000_0000) as nat, 4)
    }

    fn components(&self) -> (r: Vec<u8>) {
        let x = *self;
        let u: u32 = if x >= 0 {
            (x as u32) + 0x8000_0000
        } else {
            ((x + i32::MAX) + 1) as u32
        };
        be_bytes(u as u128, 4)
    }
}

/// Keys on the 8 big-endian bytes of the value with its sign bit flipped (the value
/// plus 0x8000_0000_0000_0000), so negatives sort below non-negatives.
impl RadixKey for i64 {
    type Owned = u8;

    open spec fn key_view(&self) -> Seq<u8> {
        be((*self + 0x8000_0000_0000_0000) as nat, 8)
    }

    fn components(&self) -> (r: Vec<u8>) {
        let x = *self;
        let u: u64 = if x >= 0 {
            (x as u64) + 0x8000_0000_0000_0000
        } else {
            ((x + i64::MAX) + 1) as u64
        };
        be_bytes(u as u128, 8)
    }
}

/// Keys on the 16 big-endian bytes of the value with its sign bit flipped (the value
/// plus 0x8000_0000_0000_0000_0000_0000_0000_0000), so negatives sort below non-negatives.
impl RadixKey for i128 {
    type Owned = u8;

    open spec fn key_view(&self) -> Seq<u8> {
        be((*self + 0x8000_0000_0000_0000_0000_0000_0000_0000) as nat, 16)
    }

    fn components(&self) -> (r: Vec<u8>) {
        let x = *self;
        let u: u128 = if x >= 0 {
            (x as u128) + 0x8000_0000_0000_0000_0000_0000_0000_0000
        } else {
            ((x + i128::MAX) + 1) as u128
        };
        be_bytes(u as u128, 16)
    }
}

/// The components of the key at one end of a range.
pub open spec fn key_bound<K: RadixKey + ?Sized>(b: Bound<&K>) -> Bound<Seq<K::Owned>> {
    match b {
        Bound::Included(k) => Bound::Included(k.key_view()),
        Bound::Excluded(k) => Bound::Excluded(k.key_view()),
        Bound::Unbounded => Bound::Unbounded,
    }
}

/// Decomposes the key at one end of a range into its components.
pub fn materialize_bound<K: RadixKey + ?Sized>(b: Bound<&K>) -> (r: Bound<Vec<K::Owned>>)
    ensures
        bound_view(r) == key_bound(b),
{
    match b {
        Bound::Included(k) => Bound::Included(k.components()),
        Bound::Excluded(k) => Bound::Excluded(k.components()),
        Bound::Unbounded => Bound::Unbounded,
    }
}

} // verus!
