//! Vectors that stay sorted by a key derived from each item.
//!
//! A [`SortedVec`] gives lookups in logarithmic time at the price of
//! insertions and removals in linear time. It is simpler than a hash map
//! and takes less memory, and suits small tables that are read often and
//! changed rarely.
//!
//! ```
//! use sortedvec::{ByValue, SortedVec};
//!
//! let unsorted = vec![3u32, 5, 0, 10, 7, 1];
//! let sorted = SortedVec::<u32, ByValue>::from(unsorted);
//!
//! assert!(sorted.find(&6).is_none());
//! assert_eq!(sorted.find(&5), Some(&5));
//! ```
//!
//! What the items are sorted by is said by a type that implements
//! [`KeyFn`]:
//!
//! ```
//! use sortedvec::{KeyFn, SortedVec};
//!
//! struct Entry {
//!     name: String,
//!     prio: u64,
//! }
//!
//! struct ByNameAndPrio;
//!
//! impl KeyFn<Entry> for ByNameAndPrio {
//!     type Key = (String, u64);
//!
//!     fn derive_key(entry: &Entry) -> (String, u64) {
//!         (entry.name.clone(), entry.prio)
//!     }
//! }
//!
//! let mut entries = SortedVec::<Entry, ByNameAndPrio>::default();
//! entries.insert(Entry { name: "test".to_owned(), prio: 0 });
//! assert!(entries.contains(&("test".to_owned(), 0)));
//! ```
//!
//! A [`SliceKeySortedVec`] does the same for keys that are slices, such as
//! the bytes of a string. Its searches remember how much of the key they
//! have matched already, and do not compare that part again.

pub mod byte_prefix;
pub mod dedup;
pub mod example;
pub mod keys;
pub mod lexical;
pub mod order;
pub mod slice_key;
pub mod slice_ord;
pub mod sort;
pub mod sorted_vec;
pub mod vecs;

pub use byte_prefix::{simd_common_prefix_len, usize_common_prefix_len};
pub use example::{ExampleKey, ExampleSortedVec, K, T};
pub use keys::{ByValue, StringBytes, VecElements};
pub use order::{Comparison, TotalOrder};
pub use slice_key::{SliceKeyFn, SliceKeySortedVec};
pub use slice_ord::{ByteChunks, ElementWise, SliceOrd};
pub use sorted_vec::{KeyFn, SortedVec};
