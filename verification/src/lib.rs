//! A self-balancing (AVL) ordered map.
//!
//! `Tree<K, V>` stores key/value pairs in a binary search tree that
//! rebalances itself on every mutation, so lookup, insertion, update and
//! deletion all take time proportional to the height of the tree, which is
//! kept logarithmic in the number of stored keys.
//!
//! Keys must implement [`TotalOrder`], a verified three-way
//! comparison that respects the key's abstract view; implementations are
//! provided for the common integer types and for `String`.

mod laws;
mod node;
mod order;
mod tree;

pub use laws::{
    lemma_delete_get_consistency, lemma_insert_get, lemma_other_keys_preserved,
    lemma_update_after_insert,
};
pub use node::ShowEntry;
pub use order::{chars_lt, Cmp, TotalOrder};
pub use tree::Tree;
