//! The tree facade: the public map operations.

use crate::node::TreeNode;
use crate::order::TotalOrder;
use vstd::prelude::*;

verus! {

/// A self-balancing ordered map from keys to values.
///
/// Viewed abstractly (`tree@`) it is a `Map` from key views to values.
/// `size` is the number of keys currently stored.
pub struct Tree<K: TotalOrder, V> {
    pub(crate) root: Option<Box<TreeNode<K, V>>>,
    pub size: usize,
}

impl<K: TotalOrder, V> Tree<K, V> {
    pub closed spec fn as_map(self) -> Map<K::V, V> {
        TreeNode::opt_as_map(self.root)
    }

    /// The invariant every public operation preserves: the root subtree
    /// is an AVL search tree with correct cached heights, and `size`
    /// counts its nodes.
    pub closed spec fn well_formed(self) -> bool {
        &&& TreeNode::opt_wf(self.root)
        &&& self.size as nat == TreeNode::opt_count(self.root)
    }

    /// The keys and values in tree order, leftmost first.
    pub closed spec fn in_order(self) -> Seq<(K, V)> {
        TreeNode::opt_in_order(self.root)
    }

    /// The true height of the tree: -1 when empty, 0 for a single node.
    pub closed spec fn tree_height(self) -> int {
        TreeNode::opt_ht(self.root)
    }

    /// The stored element count, as contracts speak of it.
    pub closed spec fn spec_size(self) -> nat {
        self.size as nat
    }
}

impl<K: TotalOrder, V> View for Tree<K, V> {
    type V = Map<K::V, V>;

    open spec fn view(&self) -> Map<K::V, V> {
        self.as_map()
    }
}

impl<K: TotalOrder, V> Tree<K, V> {
    /// An empty tree.
    pub fn new() -> (t: Self)
        ensures
            t.well_formed(),
            t@ == Map::<K::V, V>::empty(),
            t.spec_size() == 0,
    {
        Tree { root: None, size: 0 }
    }

    /// Insert-if-absent: on a fresh key the pair is added, the tree
    /// rebalances, and the count grows by one; on a key already present
    /// nothing changes at all (the stored value is not overwritten).
    pub fn insert(&mut self, key: K, value: V) -> (res: Option<()>)
        requires
            old(self).well_formed(),
            old(self).spec_size() < usize::MAX,
        ensures
            final(self).well_formed(),
            match res {
                Some(_) => !old(self)@.dom().contains(key@) && final(self)@ == old(
                    self,
                )@.insert(key@, value) && final(self).spec_size() == old(self).spec_size() + 1,
                None => old(self)@.dom().contains(key@) && *final(self) == *old(self),
            },
    {
        match self.root.take() {
            Some(mut i) => {
                let result = (&mut *i).insert(key, value);
                if result.is_some() {
                    self.size = self.size + 1;
                }
                i.fix_height();
                self.root = Some(TreeNode::fix_balance(i));
                result
            },
            None => {
                self.root = Some(Box::new(TreeNode::new(key, value)));
                self.size = self.size + 1;
                proof {
                    assert(self@ =~= Map::<K::V, V>::empty().insert(key@, value));
                }
                Some(())
            },
        }
    }
}

impl<K: TotalOrder, V: Clone> Tree<K, V> {
    /// Pure lookup: a clone of the value stored under `key`, or `None`
    /// when the key is absent.  No mutation, no side effects.
    pub fn get(&self, key: K) -> (r: Option<V>)
        requires
            self.well_formed(),
        ensures
            match r {
                Some(v) => self@.dom().contains(key@) && vstd::pervasive::cloned::<V>(
                    self@[key@],
                    v,
                ),
                None => !self@.dom().contains(key@),
            },
    {
        match self.root.as_ref() {
            Some(i) => i.get(key),
            None => None,
        }
    }

    /// Replace the value stored under `key` and hand back a clone of the
    /// previous one, or `None` (touching nothing) when the key is
    /// absent.  Structure, heights and count are unaffected.
    pub fn update(&mut self, key: K, new_value: V) -> (r: Option<V>)
        requires
            old(self).well_formed(),
        ensures
            final(self).well_formed(),
            final(self).spec_size() == old(self).spec_size(),
            match r {
                Some(v) => old(self)@.dom().contains(key@) && vstd::pervasive::cloned::<V>(
                    old(self)@[key@],
                    v,
                ) && final(self)@ == old(self)@.insert(key@, new_value),
                None => !old(self)@.dom().contains(key@) && *final(self) == *old(self),
            },
    {
        match self.root.take() {
            Some(mut i) => {
                let r = (&mut *i).update_value(key, new_value);
                self.root = Some(i);
                r
            },
            None => None,
        }
    }
}

impl<K: TotalOrder, V> Tree<K, V> {
    /// Delete `key`: when present, its pair leaves the tree, the tree
    /// rebalances, the count drops by one and the removed value is
    /// returned; when absent, the tree is left byte-for-byte unchanged.
    pub fn delete(&mut self, key: K) -> (r: Option<V>)
        requires
            old(self).well_formed(),
        ensures
            final(self).well_formed(),
            match r {
                Some(v) => old(self)@.dom().contains(key@) && v == old(self)@[key@]
                    && final(self)@ == old(self)@.remove(key@)
                    && final(self).spec_size() == old(self).spec_size() - 1,
                None => !old(self)@.dom().contains(key@) && *final(self) == *old(self),
            },
    {
        match self.root.take() {
            Some(i) => {
                let (new_root, removed) = TreeNode::delete(i, key);
                self.root = new_root;
                match removed {
                    Some(v) => {
                        self.size = self.size - 1;
                        Some(v)
                    },
                    None => None,
                }
            },
            None => None,
        }
    }
}

impl<K: TotalOrder, V> Tree<K, V> {
    /// The search-tree invariant, observable: reading a well-formed tree
    /// in tree order yields strictly increasing keys, and the listed
    /// entries are exactly the entries of the view.
    pub proof fn lemma_in_order_sorted(self)
        requires
            self.well_formed(),
        ensures
            self.in_order().len() == self.spec_size(),
            forall|i: int, j: int|
                0 <= i < j < self.in_order().len() ==> K::lt(
                    #[trigger] self.in_order()[i].0@,
                    #[trigger] self.in_order()[j].0@,
                ),
            forall|i: int|
                0 <= i < self.in_order().len() ==> self@.dom().contains(
                    #[trigger] self.in_order()[i].0@,
                ) && self@[self.in_order()[i].0@] == self.in_order()[i].1,
    {
        match self.root {
            None => {},
            Some(n) => {
                n.lemma_in_order_props();
            },
        }
    }

    /// The element count agrees with the cardinality of the view: every
    /// node holds one distinct key.
    pub proof fn lemma_size_is_len(self)
        requires
            self.well_formed(),
        ensures
            self@.dom().finite(),
            self.spec_size() == self@.dom().len(),
    {
        match self.root {
            None => {
                assert(self@.dom() =~= Set::empty());
            },
            Some(n) => {
                n.lemma_count_is_len();
            },
        }
    }

    /// The AVL invariant, observable: a well-formed tree of height h
    /// holds at least 2^((h+1)/2) - 1 keys, so the height (and with it
    /// the cost of every operation) is logarithmic in the element count.
    pub proof fn lemma_height_logarithmic(self)
        requires
            self.well_formed(),
        ensures
            vstd::arithmetic::power2::pow2(
                (((self.tree_height() + 1) / 2) as nat),
            ) <= self.spec_size() + 1,
    {
        match self.root {
            None => {},
            Some(n) => {
                assert(n.avl());
            },
        }
        TreeNode::lemma_avl_count_bound(self.root);
    }
}

impl<K: TotalOrder + Clone, V: Clone> Tree<K, V> {
    /// Diagnostic traversal, for debugging only: one row per node in
    /// tree order, carrying each node's balance factor, key, value,
    /// cached height and the key of its parent (the root lists its own
    /// key).  Rendering is the caller's business; beyond the listed
    /// correspondence with `in_order` no output shape is promised.
    pub fn show(&self) -> (rows: Vec<crate::node::ShowEntry<K, V>>)
        requires
            self.well_formed(),
        ensures
            rows@.len() == self.in_order().len(),
            forall|i: int|
                #![trigger rows@[i]]
                0 <= i < rows@.len() ==> vstd::pervasive::cloned::<K>(
                    self.in_order()[i].0,
                    rows@[i].key,
                ) && vstd::pervasive::cloned::<V>(self.in_order()[i].1, rows@[i].value),
    {
        let mut out: Vec<crate::node::ShowEntry<K, V>> = Vec::new();
        if let Some(i) = self.root.as_ref() {
            proof {
                match &self.root {
                    None => {},
                    Some(n) => {
                        n.lemma_in_order_props();
                    },
                }
            }
            i.show(&i.key, &mut out);
        }
        out
    }
}


} // verus!
