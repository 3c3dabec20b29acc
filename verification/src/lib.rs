//! A persistent (copy-on-write) radix trie keyed by sequences of components.

pub mod order;
pub mod node;
pub mod root;
pub mod key;
pub mod iter;
pub mod seek;
pub mod cursor;

pub use key::RadixKey;
pub use iter::Bound;
pub mod unsync;
pub mod sync;
pub mod util;
pub mod laws;
