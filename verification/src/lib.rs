//! A fixed-capacity key-value cache with least-recently-used eviction.
//!
//! - [`cache`] holds [`LruCache`], the public structure: lookup, insertion and
//!   removal by key, each in constant expected time.
//! - [`graph`] holds the node arena under it: a doubly linked list in recency
//!   order whose nodes are named by integer ids and stored in a hash map.
//! - [`order`] says what the operations do to the list of entries, and proves
//!   what follows for a single operation.
//! - [`history`] proves what holds after any sequence of operations: the
//!   capacity bound, and the order of the entries by their last use.

pub mod cache;
pub mod graph;
pub mod history;
pub mod order;

pub use cache::LruCache;
