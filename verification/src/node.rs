//! The recursive node structure and the structural algorithms.

use crate::order::{Cmp, TotalOrder};
use vstd::pervasive::cloned;
use vstd::prelude::*;

verus! {

/// One node of the tree: a key/value pair, up to two exclusively owned
/// children, and the cached height of the subtree rooted here (0 for a
/// leaf).
pub(crate) struct TreeNode<K: TotalOrder, V> {
    pub(crate) key: K,
    pub(crate) value: V,
    pub(crate) left: Option<Box<TreeNode<K, V>>>,
    pub(crate) right: Option<Box<TreeNode<K, V>>>,
    pub(crate) height: usize,
}

/// Which rebalancing transformation restores the AVL invariant at a
/// node: one of the four classic cases, or none when the node is already
/// within bounds.
pub(crate) enum Rotation {
    LeftLeft,
    LeftRight,
    RightLeft,
    RightRight,
    NoRotation,
}

/// One row of the diagnostic traversal: the node's balance factor, its
/// key and value, its cached height, and the key of its parent (the root
/// reports its own key).
pub struct ShowEntry<K, V> {
    pub factor: isize,
    pub key: K,
    pub value: V,
    pub height: usize,
    pub parent: K,
}

impl<K: TotalOrder, V> TreeNode<K, V> {
    /// The map a possibly absent subtree stands for.
    pub(crate) open spec fn opt_as_map(opt: Option<Box<TreeNode<K, V>>>) -> Map<K::V, V>
        decreases opt,
    {
        match opt {
            None => Map::empty(),
            Some(n) => n.as_map(),
        }
    }

    /// The map this subtree stands for, keyed by key views.
    pub(crate) open spec fn as_map(self) -> Map<K::V, V>
        decreases self,
    {
        Self::opt_as_map(self.left).union_prefer_right(Self::opt_as_map(self.right)).insert(
            self.key@,
            self.value,
        )
    }

    /// Number of nodes in a possibly absent subtree.
    pub(crate) open spec fn opt_count(opt: Option<Box<TreeNode<K, V>>>) -> nat
        decreases opt,
    {
        match opt {
            None => 0,
            Some(n) => n.count(),
        }
    }

    /// Number of nodes in this subtree.
    pub(crate) open spec fn count(self) -> nat
        decreases self,
    {
        1 + Self::opt_count(self.left) + Self::opt_count(self.right)
    }

    /// True height of a possibly absent subtree; an absent child counts
    /// as -1, so a leaf has height 0.
    pub(crate) open spec fn opt_ht(opt: Option<Box<TreeNode<K, V>>>) -> int
        decreases opt,
    {
        match opt {
            None => -1,
            Some(n) => n.ht(),
        }
    }

    /// True height of this subtree.
    pub(crate) open spec fn ht(self) -> int
        decreases self,
    {
        1 + vstd::math::max(Self::opt_ht(self.left), Self::opt_ht(self.right))
    }

    /// Balance factor: height of the right subtree minus height of the
    /// left subtree.
    pub(crate) open spec fn bal(self) -> int {
        Self::opt_ht(self.right) - Self::opt_ht(self.left)
    }

    /// Every key view in `opt` is strictly below `bound`.
    pub(crate) open spec fn opt_keys_lt(opt: Option<Box<TreeNode<K, V>>>, bound: K::V) -> bool {
        forall|k: K::V| #[trigger] Self::opt_as_map(opt).dom().contains(k) ==> K::lt(k, bound)
    }

    /// Every key view in `opt` is strictly above `bound`.
    pub(crate) open spec fn opt_keys_gt(opt: Option<Box<TreeNode<K, V>>>, bound: K::V) -> bool {
        forall|k: K::V| #[trigger] Self::opt_as_map(opt).dom().contains(k) ==> K::lt(bound, k)
    }

    /// Search-tree order: left keys below this node's key, right keys
    /// above, recursively.
    pub(crate) open spec fn bst_ok(self) -> bool
        decreases self,
    {
        &&& Self::opt_keys_lt(self.left, self.key@)
        &&& Self::opt_keys_gt(self.right, self.key@)
        &&& Self::opt_bst_ok(self.left)
        &&& Self::opt_bst_ok(self.right)
    }

    pub(crate) open spec fn opt_bst_ok(opt: Option<Box<TreeNode<K, V>>>) -> bool
        decreases opt,
    {
        match opt {
            None => true,
            Some(n) => n.bst_ok(),
        }
    }

    /// Both children have correct cached heights throughout.
    pub(crate) open spec fn kids_hts_ok(self) -> bool {
        Self::opt_hts_ok(self.left) && Self::opt_hts_ok(self.right)
    }

    /// Cached heights equal true heights throughout this subtree.
    pub(crate) open spec fn hts_ok(self) -> bool
        decreases self,
    {
        &&& Self::opt_hts_ok(self.left)
        &&& Self::opt_hts_ok(self.right)
        &&& self.height as int == self.ht()
    }

    pub(crate) open spec fn opt_hts_ok(opt: Option<Box<TreeNode<K, V>>>) -> bool
        decreases opt,
    {
        match opt {
            None => true,
            Some(n) => n.hts_ok(),
        }
    }

    /// Both children are AVL-balanced throughout.
    pub(crate) open spec fn kids_avl(self) -> bool {
        Self::opt_avl(self.left) && Self::opt_avl(self.right)
    }

    /// AVL balance: every node's balance factor lies in {-1, 0, 1}.
    pub(crate) open spec fn avl(self) -> bool
        decreases self,
    {
        &&& Self::opt_avl(self.left)
        &&& Self::opt_avl(self.right)
        &&& -1 <= self.bal() <= 1
    }

    pub(crate) open spec fn opt_avl(opt: Option<Box<TreeNode<K, V>>>) -> bool
        decreases opt,
    {
        match opt {
            None => true,
            Some(n) => n.avl(),
        }
    }

    /// The full invariant of a subtree.
    pub(crate) open spec fn wf(self) -> bool {
        self.bst_ok() && self.hts_ok() && self.avl()
    }

    pub(crate) open spec fn opt_wf(opt: Option<Box<TreeNode<K, V>>>) -> bool {
        match opt {
            None => true,
            Some(n) => n.wf(),
        }
    }

    /// The in-order listing of this subtree's key/value pairs.
    pub(crate) open spec fn in_order(self) -> Seq<(K, V)>
        decreases self,
    {
        Self::opt_in_order(self.left) + seq![(self.key, self.value)] + Self::opt_in_order(
            self.right,
        )
    }

    pub(crate) open spec fn opt_in_order(opt: Option<Box<TreeNode<K, V>>>) -> Seq<(K, V)>
        decreases opt,
    {
        match opt {
            None => Seq::empty(),
            Some(n) => n.in_order(),
        }
    }
}

impl<K: TotalOrder, V> TreeNode<K, V> {
    /// A subtree's true height is strictly below its node count, so a
    /// bounded count bounds every cached height too.
    pub(crate) proof fn lemma_ht_lt_count(self)
        ensures
            0 <= self.ht() < self.count(),
            -1 <= Self::opt_ht(self.left) < Self::opt_count(self.left),
            -1 <= Self::opt_ht(self.right) < Self::opt_count(self.right),
        decreases self,
    {
        match self.left {
            None => {},
            Some(l) => {
                l.lemma_ht_lt_count();
            },
        }
        match self.right {
            None => {},
            Some(r) => {
                r.lemma_ht_lt_count();
            },
        }
    }

    /// A key strictly below or above a node's key is not that key, and
    /// cannot sit on the other side of it.
    pub(crate) proof fn lemma_key_sides(self, k: K::V)
        requires
            self.bst_ok(),
        ensures
            K::lt(k, self.key@) ==> k != self.key@ && !Self::opt_as_map(self.right).dom().contains(
                k,
            ),
            K::lt(self.key@, k) ==> k != self.key@ && !Self::opt_as_map(self.left).dom().contains(
                k,
            ),
    {
        if K::lt(k, self.key@) {
            K::lemma_asymmetric(k, self.key@);
            if Self::opt_as_map(self.right).dom().contains(k) {
                K::lemma_asymmetric(k, self.key@);
            }
        }
        if K::lt(self.key@, k) {
            K::lemma_asymmetric(self.key@, k);
            if Self::opt_as_map(self.left).dom().contains(k) {
                K::lemma_asymmetric(self.key@, k);
            }
        }
    }

    /// Under search-tree order the node count equals the cardinality of
    /// the map: every node contributes one distinct key.
    pub(crate) proof fn lemma_count_is_len(self)
        requires
            self.bst_ok(),
        ensures
            self.as_map().dom().finite(),
            self.as_map().dom().len() == self.count(),
        decreases self,
    {
        let lm = Self::opt_as_map(self.left);
        let rm = Self::opt_as_map(self.right);
        match self.left {
            None => {
                assert(lm.dom() =~= Set::empty());
            },
            Some(l) => {
                l.lemma_count_is_len();
            },
        }
        match self.right {
            None => {
                assert(rm.dom() =~= Set::empty());
            },
            Some(r) => {
                r.lemma_count_is_len();
            },
        }
        assert forall|k: K::V| !(lm.dom().contains(k) && rm.dom().contains(k)) by {
            if lm.dom().contains(k) && rm.dom().contains(k) {
                K::lemma_asymmetric(k, self.key@);
            }
        }
        assert(lm.dom().disjoint(rm.dom()));
        vstd::set_lib::lemma_set_disjoint_lens(lm.dom(), rm.dom());
        assert(self.as_map().dom() =~= lm.dom().union(rm.dom()).insert(self.key@));
        assert(!lm.dom().union(rm.dom()).contains(self.key@)) by {
            if lm.dom().contains(self.key@) {
                K::lemma_asymmetric(self.key@, self.key@);
            }
            if rm.dom().contains(self.key@) {
                K::lemma_asymmetric(self.key@, self.key@);
            }
        }
    }
}

impl<K: TotalOrder, V> TreeNode<K, V> {
    /// How a node's map decomposes into its parts.
    pub(crate) proof fn lemma_as_map_parts(self)
        ensures
            forall|k: K::V| #[trigger]
                self.as_map().dom().contains(k) <==> (Self::opt_as_map(self.left).dom().contains(k)
                    || Self::opt_as_map(self.right).dom().contains(k) || k == self.key@),
            self.as_map()[self.key@] == self.value,
            forall|k: K::V|
                k != self.key@ && #[trigger] Self::opt_as_map(self.right).dom().contains(k)
                    ==> self.as_map()[k] == Self::opt_as_map(self.right)[k],
            forall|k: K::V|
                k != self.key@ && !Self::opt_as_map(self.right).dom().contains(k) && #[trigger]
                    Self::opt_as_map(self.left).dom().contains(k) ==> self.as_map()[k]
                    == Self::opt_as_map(self.left)[k],
    {
    }
}

impl<K: TotalOrder, V> TreeNode<K, V> {
    /// A fresh leaf holding one pair.
    pub(crate) fn new(key: K, value: V) -> (n: TreeNode<K, V>)
        ensures
            n.key == key,
            n.value == value,
            n.left.is_none(),
            n.right.is_none(),
            n.wf(),
            n.count() == 1,
            n.ht() == 0,
            n.as_map() == Map::<K::V, V>::empty().insert(key@, value),
    {
        let n = TreeNode { key, value, left: None, right: None, height: 0 };
        proof {
            assert(n.as_map() =~= Map::<K::V, V>::empty().insert(key@, value));
        }
        n
    }

    /// The two children's contributions to this node's height: an absent
    /// child contributes 0, a present one its height plus 1.
    pub(crate) fn get_heights(&self) -> (h: (usize, usize))
        requires
            self.kids_hts_ok(),
            self.count() <= usize::MAX,
        ensures
            h.0 as int == Self::opt_ht(self.left) + 1,
            h.1 as int == Self::opt_ht(self.right) + 1,
    {
        proof {
            self.lemma_ht_lt_count();
        }
        let left: usize = match self.left.as_ref() {
            None => 0,
            Some(i) => i.height + 1,
        };
        let right: usize = match self.right.as_ref() {
            None => 0,
            Some(i) => i.height + 1,
        };
        (left, right)
    }

    /// The balance factor, for nodes whose imbalance is at most 2.
    pub(crate) fn get_factor(&self) -> (f: isize)
        requires
            self.kids_hts_ok(),
            self.count() <= usize::MAX,
            -2 <= self.bal() <= 2,
        ensures
            f as int == self.bal(),
    {
        let (left, right) = self.get_heights();
        if right >= left {
            (right - left) as isize
        } else {
            -((left - right) as isize)
        }
    }

    /// Recompute the cached height from the children's cached heights.
    pub(crate) fn fix_height(&mut self)
        requires
            old(self).kids_hts_ok(),
            old(self).count() <= usize::MAX,
        ensures
            final(self).hts_ok(),
            final(self).key == old(self).key,
            final(self).value == old(self).value,
            final(self).left == old(self).left,
            final(self).right == old(self).right,
            old(self).hts_ok() ==> *final(self) == *old(self),
    {
        let (left, right) = self.get_heights();
        self.height = if left >= right {
            left
        } else {
            right
        };
    }

    /// Rotate right: the left child becomes the new subtree root and the
    /// old root becomes its right child; both heights are recomputed
    /// bottom-up before the new root is returned.
    pub(crate) fn right_rotation(base_node: Box<TreeNode<K, V>>) -> (r: Box<TreeNode<K, V>>)
        requires
            base_node.left.is_some(),
            base_node.kids_hts_ok(),
            base_node.bst_ok(),
            base_node.count() <= usize::MAX,
        ensures
            r.bst_ok(),
            r.hts_ok(),
            r.as_map() == base_node.as_map(),
            r.count() == base_node.count(),
            r.key == base_node.left.unwrap().key,
            r.left == base_node.left.unwrap().left,
            r.right.is_some(),
            r.right.unwrap().key == base_node.key,
            r.right.unwrap().left == base_node.left.unwrap().right,
            r.right.unwrap().right == base_node.right,
    {
        let ghost orig = *base_node;
        let ghost l_node = *orig.left.unwrap();
        let mut base = base_node;
        let mut left_node = base.left.take().unwrap();
        let left_right = left_node.right.take();
        base.left = left_right;
        proof {
            assert(orig.count() == 1 + l_node.count() + Self::opt_count(orig.right));
            assert(base.count() <= orig.count());
        }
        base.fix_height();
        left_node.right = Some(base);
        proof {
            assert(l_node.count() == 1 + Self::opt_count(l_node.left) + Self::opt_count(
                l_node.right,
            ));
            assert(left_node.count() == 1 + Self::opt_count(left_node.left) + Self::opt_count(
                left_node.right,
            ));
            assert(left_node.count() == orig.count());
        }
        left_node.fix_height();
        proof {
            Self::lemma_rotation_maps(orig, l_node, *left_node, true);
        }
        left_node
    }

    /// Rotate left: the mirror image of `right_rotation`.
    pub(crate) fn left_rotation(base_node: Box<TreeNode<K, V>>) -> (r: Box<TreeNode<K, V>>)
        requires
            base_node.right.is_some(),
            base_node.kids_hts_ok(),
            base_node.bst_ok(),
            base_node.count() <= usize::MAX,
        ensures
            r.bst_ok(),
            r.hts_ok(),
            r.as_map() == base_node.as_map(),
            r.count() == base_node.count(),
            r.key == base_node.right.unwrap().key,
            r.right == base_node.right.unwrap().right,
            r.left.is_some(),
            r.left.unwrap().key == base_node.key,
            r.left.unwrap().right == base_node.right.unwrap().left,
            r.left.unwrap().left == base_node.left,
    {
        let ghost orig = *base_node;
        let ghost r_node = *orig.right.unwrap();
        let mut base = base_node;
        let mut right_node = base.right.take().unwrap();
        let right_left = right_node.left.take();
        base.right = right_left;
        proof {
            assert(orig.count() == 1 + Self::opt_count(orig.left) + r_node.count());
            assert(base.count() <= orig.count());
        }
        base.fix_height();
        right_node.left = Some(base);
        proof {
            assert(r_node.count() == 1 + Self::opt_count(r_node.left) + Self::opt_count(
                r_node.right,
            ));
            assert(right_node.count() == 1 + Self::opt_count(right_node.left) + Self::opt_count(
                right_node.right,
            ));
            assert(right_node.count() == orig.count());
        }
        right_node.fix_height();
        proof {
            Self::lemma_rotation_maps(orig, r_node, *right_node, false);
        }
        right_node
    }

    /// The semantic content shared by the two rotations: after pivoting
    /// `pivot` (the child of `orig` on the heavy side) to the root, the
    /// rearranged subtree `res` is still a search tree and stands for the
    /// same map with the same node count.
    proof fn lemma_rotation_maps(orig: Self, pivot: Self, res: Self, to_right: bool)
        requires
            orig.bst_ok(),
            if to_right {
                orig.left == Some(Box::new(pivot)) && res.key == pivot.key && res.value
                    == pivot.value && res.left == pivot.left && (res.right matches Some(b)
                    && b.key == orig.key && b.value == orig.value && b.left == pivot.right
                    && b.right == orig.right)
            } else {
                orig.right == Some(Box::new(pivot)) && res.key == pivot.key && res.value
                    == pivot.value && res.right == pivot.right && (res.left matches Some(b)
                    && b.key == orig.key && b.value == orig.value && b.right == pivot.left
                    && b.left == orig.left)
            },
        ensures
            res.bst_ok(),
            res.as_map() == orig.as_map(),
            res.count() == orig.count(),
    {
        let pk = pivot.key@;
        let ok = orig.key@;
        orig.lemma_as_map_parts();
        pivot.lemma_as_map_parts();
        res.lemma_as_map_parts();
        assert(pivot.bst_ok());
        if to_right {
            let b = *res.right.unwrap();
            b.lemma_as_map_parts();
            let llm = Self::opt_as_map(pivot.left);
            let lrm = Self::opt_as_map(pivot.right);
            let rm = Self::opt_as_map(orig.right);
            assert(Self::opt_as_map(orig.left) == pivot.as_map());
            assert(pivot.as_map().dom().contains(pk));
            assert(Self::opt_as_map(orig.left).dom().contains(pk));
            assert(K::lt(pk, ok));
            K::lemma_asymmetric(pk, ok);
            // every key of the reattached right child lies above the new root key
            assert forall|k: K::V| #[trigger] b.as_map().dom().contains(k) implies K::lt(pk, k) by {
                if lrm.dom().contains(k) {
                } else if rm.dom().contains(k) {
                    K::lemma_transitive(pk, ok, k);
                } else {
                    assert(k == ok);
                }
            }
            // every key of the reattached middle subtree lies below the old root key
            assert forall|k: K::V| #[trigger] lrm.dom().contains(k) implies K::lt(k, ok) && k != ok
                && !rm.dom().contains(k) && K::lt(pk, k) && k != pk by {
                assert(pivot.as_map().dom().contains(k));
                K::lemma_asymmetric(k, ok);
                K::lemma_asymmetric(pk, k);
                if rm.dom().contains(k) {
                    K::lemma_asymmetric(k, ok);
                }
            }
            assert forall|k: K::V| #[trigger] llm.dom().contains(k) implies K::lt(k, pk) && k != pk
                && K::lt(k, ok) && k != ok && !rm.dom().contains(k) && !lrm.dom().contains(k) by {
                assert(pivot.as_map().dom().contains(k));
                K::lemma_asymmetric(k, pk);
                K::lemma_transitive(k, pk, ok);
                K::lemma_asymmetric(k, ok);
                if rm.dom().contains(k) {
                    K::lemma_asymmetric(k, ok);
                }
                if lrm.dom().contains(k) {
                    K::lemma_asymmetric(k, pk);
                }
            }
            assert forall|k: K::V| #[trigger] rm.dom().contains(k) implies K::lt(ok, k) && k != ok
                && k != pk by {
                K::lemma_asymmetric(ok, k);
                K::lemma_transitive(pk, ok, k);
                K::lemma_asymmetric(pk, k);
            }
            assert(b.bst_ok());
            assert(res.bst_ok());
            assert(b.count() == 1 + Self::opt_count(b.left) + Self::opt_count(b.right));
            assert(res.count() == 1 + Self::opt_count(res.left) + Self::opt_count(res.right));
            assert(pivot.count() == 1 + Self::opt_count(pivot.left) + Self::opt_count(pivot.right));
            assert(orig.count() == 1 + pivot.count() + Self::opt_count(orig.right));
            assert(res.count() == orig.count());
            assert(res.as_map() =~= orig.as_map()) by {
                assert forall|k: K::V| #[trigger] res.as_map().dom().contains(k) implies
                    orig.as_map().dom().contains(k) && res.as_map()[k] == orig.as_map()[k] by {
                    Self::lemma_rotation_point(orig, pivot, res, true, k);
                }
                assert forall|k: K::V| #[trigger] orig.as_map().dom().contains(k) implies
                    res.as_map().dom().contains(k) by {
                    Self::lemma_rotation_point(orig, pivot, res, true, k);
                }
            }
        } else {
            let b = *res.left.unwrap();
            b.lemma_as_map_parts();
            let rrm = Self::opt_as_map(pivot.right);
            let rlm = Self::opt_as_map(pivot.left);
            let lm = Self::opt_as_map(orig.left);
            assert(Self::opt_as_map(orig.right) == pivot.as_map());
            assert(pivot.as_map().dom().contains(pk));
            assert(Self::opt_as_map(orig.right).dom().contains(pk));
            assert(K::lt(ok, pk));
            K::lemma_asymmetric(ok, pk);
            assert forall|k: K::V| #[trigger] b.as_map().dom().contains(k) implies K::lt(k, pk) by {
                if rlm.dom().contains(k) {
                } else if lm.dom().contains(k) {
                    K::lemma_transitive(k, ok, pk);
                } else {
                    assert(k == ok);
                }
            }
            assert forall|k: K::V| #[trigger] rlm.dom().contains(k) implies K::lt(ok, k) && k != ok
                && !lm.dom().contains(k) && K::lt(k, pk) && k != pk by {
                assert(pivot.as_map().dom().contains(k));
                K::lemma_asymmetric(ok, k);
                K::lemma_asymmetric(k, pk);
                if lm.dom().contains(k) {
                    K::lemma_asymmetric(ok, k);
                }
            }
            assert forall|k: K::V| #[trigger] rrm.dom().contains(k) implies K::lt(pk, k) && k != pk
                && K::lt(ok, k) && k != ok && !lm.dom().contains(k) && !rlm.dom().contains(k) by {
                assert(pivot.as_map().dom().contains(k));
                K::lemma_asymmetric(pk, k);
                K::lemma_transitive(ok, pk, k);
                K::lemma_asymmetric(ok, k);
                if lm.dom().contains(k) {
                    K::lemma_asymmetric(ok, k);
                }
                if rlm.dom().contains(k) {
                    K::lemma_asymmetric(pk, k);
                }
            }
            assert forall|k: K::V| #[trigger] lm.dom().contains(k) implies K::lt(k, ok) && k != ok
                && k != pk by {
                K::lemma_asymmetric(k, ok);
                K::lemma_transitive(k, ok, pk);
                K::lemma_asymmetric(k, pk);
            }
            assert(b.bst_ok());
            assert(res.bst_ok());
            assert(b.count() == 1 + Self::opt_count(b.left) + Self::opt_count(b.right));
            assert(res.count() == 1 + Self::opt_count(res.left) + Self::opt_count(res.right));
            assert(pivot.count() == 1 + Self::opt_count(pivot.left) + Self::opt_count(pivot.right));
            assert(orig.count() == 1 + Self::opt_count(orig.left) + pivot.count());
            assert(res.count() == orig.count());
            assert(res.as_map() =~= orig.as_map()) by {
                assert forall|k: K::V| #[trigger] res.as_map().dom().contains(k) implies
                    orig.as_map().dom().contains(k) && res.as_map()[k] == orig.as_map()[k] by {
                    Self::lemma_rotation_point(orig, pivot, res, false, k);
                }
                assert forall|k: K::V| #[trigger] orig.as_map().dom().contains(k) implies
                    res.as_map().dom().contains(k) by {
                    Self::lemma_rotation_point(orig, pivot, res, false, k);
                }
            }
        }
    }

    /// Pointwise form of `lemma_rotation_maps`: one key's membership and
    /// value agree between the rotated and the original subtree.
    proof fn lemma_rotation_point(orig: Self, pivot: Self, res: Self, to_right: bool, k: K::V)
        requires
            orig.bst_ok(),
            if to_right {
                orig.left == Some(Box::new(pivot)) && res.key == pivot.key && res.value
                    == pivot.value && res.left == pivot.left && (res.right matches Some(b)
                    && b.key == orig.key && b.value == orig.value && b.left == pivot.right
                    && b.right == orig.right)
            } else {
                orig.right == Some(Box::new(pivot)) && res.key == pivot.key && res.value
                    == pivot.value && res.right == pivot.right && (res.left matches Some(b)
                    && b.key == orig.key && b.value == orig.value && b.right == pivot.left
                    && b.left == orig.left)
            },
        ensures
            res.as_map().dom().contains(k) <==> orig.as_map().dom().contains(k),
            res.as_map().dom().contains(k) ==> res.as_map()[k] == orig.as_map()[k],
    {
        let pk = pivot.key@;
        let ok = orig.key@;
        orig.lemma_as_map_parts();
        pivot.lemma_as_map_parts();
        res.lemma_as_map_parts();
        assert(pivot.bst_ok());
        if to_right {
            let b = *res.right.unwrap();
            b.lemma_as_map_parts();
            let llm = Self::opt_as_map(pivot.left);
            let lrm = Self::opt_as_map(pivot.right);
            let rm = Self::opt_as_map(orig.right);
            assert(Self::opt_as_map(orig.left) == pivot.as_map());
            assert(pivot.as_map().dom().contains(pk));
            assert(Self::opt_as_map(orig.left).dom().contains(pk));
            assert(K::lt(pk, ok));
            K::lemma_asymmetric(pk, ok);
            if llm.dom().contains(k) {
                K::lemma_asymmetric(k, pk);
                K::lemma_transitive(k, pk, ok);
                K::lemma_asymmetric(k, ok);
                if rm.dom().contains(k) {
                    K::lemma_asymmetric(k, ok);
                }
                if lrm.dom().contains(k) {
                    K::lemma_asymmetric(k, pk);
                }
            } else if lrm.dom().contains(k) {
                assert(pivot.as_map().dom().contains(k));
                K::lemma_asymmetric(pk, k);
                K::lemma_asymmetric(k, ok);
                if rm.dom().contains(k) {
                    K::lemma_asymmetric(k, ok);
                }
            } else if rm.dom().contains(k) {
                K::lemma_asymmetric(ok, k);
                K::lemma_transitive(pk, ok, k);
                K::lemma_asymmetric(pk, k);
            } else if k == ok {
            } else if k == pk {
            }
        } else {
            let b = *res.left.unwrap();
            b.lemma_as_map_parts();
            let rrm = Self::opt_as_map(pivot.right);
            let rlm = Self::opt_as_map(pivot.left);
            let lm = Self::opt_as_map(orig.left);
            assert(Self::opt_as_map(orig.right) == pivot.as_map());
            assert(pivot.as_map().dom().contains(pk));
            assert(Self::opt_as_map(orig.right).dom().contains(pk));
            assert(K::lt(ok, pk));
            K::lemma_asymmetric(ok, pk);
            if rrm.dom().contains(k) {
                assert(pivot.as_map().dom().contains(k));
                K::lemma_asymmetric(pk, k);
                K::lemma_transitive(ok, pk, k);
                K::lemma_asymmetric(ok, k);
                if lm.dom().contains(k) {
                    K::lemma_asymmetric(ok, k);
                }
                if rlm.dom().contains(k) {
                    K::lemma_asymmetric(pk, k);
                }
            } else if rlm.dom().contains(k) {
                assert(pivot.as_map().dom().contains(k));
                K::lemma_asymmetric(k, pk);
                K::lemma_asymmetric(ok, k);
                if lm.dom().contains(k) {
                    K::lemma_asymmetric(ok, k);
                }
            } else if lm.dom().contains(k) {
                K::lemma_asymmetric(k, ok);
                K::lemma_transitive(k, ok, pk);
                K::lemma_asymmetric(k, pk);
            } else if k == ok {
            } else if k == pk {
            }
        }
    }
}

impl<K: TotalOrder, V> TreeNode<K, V> {
    /// The stateless rotation classifier: inspect the balance factor of
    /// `node` and, when it is out of bounds, the factor of the child on
    /// the heavy side; a child factor of exactly 0 routes to the single
    /// rotation.
    pub(crate) fn new_rotation(node: &TreeNode<K, V>) -> (r: Rotation)
        requires
            node.kids_hts_ok(),
            node.kids_avl(),
            node.count() <= usize::MAX,
            -2 <= node.bal() <= 2,
        ensures
            match r {
                Rotation::NoRotation => -1 <= node.bal() <= 1,
                Rotation::LeftLeft => node.bal() == -2 && node.left.is_some()
                    && node.left.unwrap().bal() <= 0,
                Rotation::LeftRight => node.bal() == -2 && node.left.is_some()
                    && node.left.unwrap().bal() > 0,
                Rotation::RightRight => node.bal() == 2 && node.right.is_some()
                    && node.right.unwrap().bal() >= 0,
                Rotation::RightLeft => node.bal() == 2 && node.right.is_some()
                    && node.right.unwrap().bal() < 0,
            },
    {
        let factor = node.get_factor();
        if factor >= -1 && factor <= 1 {
            return Rotation::NoRotation;
        }
        if factor < -1 {
            proof {
                assert(Self::opt_ht(node.left) >= 1);
                assert(node.left.is_some());
                assert(node.count() == 1 + Self::opt_count(node.left) + Self::opt_count(
                    node.right,
                ));
            }
            let child = node.left.as_ref().unwrap();
            let child_factor = child.get_factor();
            if child_factor <= 0 {
                Rotation::LeftLeft
            } else {
                Rotation::LeftRight
            }
        } else {
            proof {
                assert(Self::opt_ht(node.right) >= 1);
                assert(node.right.is_some());
                assert(node.count() == 1 + Self::opt_count(node.left) + Self::opt_count(
                    node.right,
                ));
            }
            let child = node.right.as_ref().unwrap();
            let child_factor = child.get_factor();
            if child_factor >= 0 {
                Rotation::RightRight
            } else {
                Rotation::RightLeft
            }
        }
    }

    /// Apply whatever rotation the classifier picks, restoring the AVL
    /// invariant at this node.  The subtree keeps its map and node count;
    /// its height shrinks by at most 1 and never grows; a node already in
    /// balance comes back untouched.
    pub(crate) fn fix_balance(node: Box<TreeNode<K, V>>) -> (r: Box<TreeNode<K, V>>)
        requires
            node.bst_ok(),
            node.hts_ok(),
            node.kids_avl(),
            -2 <= node.bal() <= 2,
            node.count() <= usize::MAX,
        ensures
            r.bst_ok(),
            r.hts_ok(),
            r.avl(),
            r.as_map() == node.as_map(),
            r.count() == node.count(),
            node.ht() - 1 <= r.ht() <= node.ht(),
            -1 <= node.bal() <= 1 ==> *r == *node,
    {
        let ghost orig = *node;
        let rotation = Self::new_rotation(&node);
        match rotation {
            Rotation::NoRotation => {
                proof {
                    assert(orig.avl());
                }
                node
            },
            Rotation::LeftLeft => {
                let ghost l = *orig.left.unwrap();
                let r = Self::right_rotation(node);
                proof {
                    let hll = Self::opt_ht(l.left);
                    let hlr = Self::opt_ht(l.right);
                    let hr = Self::opt_ht(orig.right);
                    let b = *r.right.unwrap();
                    assert(l.avl());
                    assert(hlr <= hll && hll - 1 <= hlr);
                    assert(hr == hll - 1);
                    assert(b.ht() == 1 + vstd::math::max(hlr, hr));
                    assert(b.avl());
                    assert(r.avl());
                    assert(orig.ht() - 1 <= r.ht() <= orig.ht());
                }
                r
            },
            Rotation::LeftRight => {
                let ghost l = *orig.left.unwrap();
                let mut node = node;
                proof {
                    assert(l.avl());
                    assert(l.hts_ok());
                    l.lemma_ht_lt_count();
                    assert(Self::opt_ht(l.right) >= 0);
                    assert(l.right.is_some());
                    assert(orig.count() == 1 + l.count() + Self::opt_count(orig.right));
                    assert(l.count() <= orig.count());
                }
                let ghost m = *l.right.unwrap();
                let holder = Self::left_rotation(node.left.take().unwrap());
                node.left = Some(holder);
                proof {
                    assert(node.count() == orig.count());
                    assert(Self::opt_as_map(node.left) == Self::opt_as_map(orig.left));
                    assert(node.as_map() == orig.as_map());
                    assert(node.bst_ok());
                }
                let r = Self::right_rotation(node);
                proof {
                    let hll = Self::opt_ht(l.left);
                    let ha = Self::opt_ht(m.left);
                    let hb = Self::opt_ht(m.right);
                    let hr = Self::opt_ht(orig.right);
                    let b = *r.right.unwrap();
                    let h2 = *r.left.unwrap();
                    assert(m.avl());
                    assert(l.ht() == 1 + vstd::math::max(hll, m.ht()));
                    assert(m.ht() == 1 + vstd::math::max(ha, hb));
                    assert(hr == l.ht() - 2);
                    assert(hll == m.ht() - 1);
                    assert(h2.ht() == 1 + vstd::math::max(hll, ha));
                    assert(b.ht() == 1 + vstd::math::max(hb, hr));
                    assert(h2.avl());
                    assert(b.avl());
                    assert(r.avl());
                    assert(orig.ht() - 1 <= r.ht() <= orig.ht());
                    assert(r.as_map() == orig.as_map());
                    assert(r.count() == orig.count());
                }
                r
            },
            Rotation::RightRight => {
                let ghost rr = *orig.right.unwrap();
                let r = Self::left_rotation(node);
                proof {
                    let hrr = Self::opt_ht(rr.right);
                    let hrl = Self::opt_ht(rr.left);
                    let hl = Self::opt_ht(orig.left);
                    let b = *r.left.unwrap();
                    assert(rr.avl());
                    assert(hrl <= hrr && hrr - 1 <= hrl);
                    assert(hl == hrr - 1);
                    assert(b.ht() == 1 + vstd::math::max(hl, hrl));
                    assert(b.avl());
                    assert(r.avl());
                    assert(orig.ht() - 1 <= r.ht() <= orig.ht());
                }
                r
            },
            Rotation::RightLeft => {
                let ghost rr = *orig.right.unwrap();
                let mut node = node;
                proof {
                    assert(rr.avl());
                    assert(rr.hts_ok());
                    rr.lemma_ht_lt_count();
                    assert(Self::opt_ht(rr.left) >= 0);
                    assert(rr.left.is_some());
                    assert(orig.count() == 1 + Self::opt_count(orig.left) + rr.count());
                    assert(rr.count() <= orig.count());
                }
                let ghost m = *rr.left.unwrap();
                let holder = Self::right_rotation(node.right.take().unwrap());
                node.right = Some(holder);
                proof {
                    assert(node.count() == orig.count());
                    assert(Self::opt_as_map(node.right) == Self::opt_as_map(orig.right));
                    assert(node.as_map() == orig.as_map());
                    assert(node.bst_ok());
                }
                let r = Self::left_rotation(node);
                proof {
                    let hrr = Self::opt_ht(rr.right);
                    let ha = Self::opt_ht(m.left);
                    let hb = Self::opt_ht(m.right);
                    let hl = Self::opt_ht(orig.left);
                    let b = *r.left.unwrap();
                    let h2 = *r.right.unwrap();
                    assert(m.avl());
                    assert(rr.ht() == 1 + vstd::math::max(m.ht(), hrr));
                    assert(m.ht() == 1 + vstd::math::max(ha, hb));
                    assert(hl == rr.ht() - 2);
                    assert(hrr == m.ht() - 1);
                    assert(h2.ht() == 1 + vstd::math::max(hb, hrr));
                    assert(b.ht() == 1 + vstd::math::max(hl, ha));
                    assert(h2.avl());
                    assert(b.avl());
                    assert(r.avl());
                    assert(orig.ht() - 1 <= r.ht() <= orig.ht());
                    assert(r.as_map() == orig.as_map());
                    assert(r.count() == orig.count());
                }
                r
            },
        }
    }
}

impl<K: TotalOrder, V> TreeNode<K, V> {
    /// Insert-if-absent below this node.  On the way back up both
    /// children are rebalanced, so every level below this node is a
    /// proper AVL tree again; this node's own balance may be off by 2
    /// and is corrected by the caller (the facade corrects the root).
    pub(crate) fn insert(&mut self, key: K, value: V) -> (res: Option<()>)
        requires
            old(self).bst_ok(),
            old(self).hts_ok(),
            old(self).avl(),
            old(self).count() < usize::MAX,
        ensures
            final(self).bst_ok(),
            final(self).hts_ok(),
            final(self).kids_avl(),
            -2 <= final(self).bal() <= 2,
            final(self).key == old(self).key,
            final(self).value == old(self).value,
            old(self).ht() <= final(self).ht() <= old(self).ht() + 1,
            final(self).bal() < -1 || final(self).bal() > 1 ==> final(self).ht() == old(
                self,
            ).ht() + 1,
            match res {
                Some(_) => !old(self).as_map().dom().contains(key@) && final(self).as_map() == old(
                    self,
                ).as_map().insert(key@, value) && final(self).count() == old(self).count() + 1,
                None => old(self).as_map().dom().contains(key@) && *final(self) == *old(self),
            },
        decreases old(self).count(),
    {
        let ghost orig = *self;
        proof {
            orig.lemma_as_map_parts();
            orig.lemma_key_sides(key@);
            assert(Self::opt_bst_ok(orig.left));
            assert(Self::opt_hts_ok(orig.left));
            assert(Self::opt_avl(orig.left));
            assert(Self::opt_bst_ok(orig.right));
            assert(Self::opt_hts_ok(orig.right));
            assert(Self::opt_avl(orig.right));
        }
        let result: Option<()>;
        match key.compare(&self.key) {
            Cmp::Equal => {
                return None;
            },
            Cmp::Less => {
                match self.left.take() {
                    Some(mut i) => {
                        proof {
                            assert(orig.count() == 1 + i.count() + Self::opt_count(orig.right));
                        }
                        result = (&mut *i).insert(key, value);
                        self.left = Some(i);
                        self.fix_height();
                    },
                    None => {
                        self.left = Some(Box::new(Self::new(key, value)));
                        self.fix_height();
                        result = Some(());
                    },
                }
                proof {
                    assert(self.right == orig.right);
                }
            },
            Cmp::Greater => {
                match self.right.take() {
                    Some(mut i) => {
                        proof {
                            assert(orig.count() == 1 + Self::opt_count(orig.left) + i.count());
                        }
                        result = (&mut *i).insert(key, value);
                        self.right = Some(i);
                        self.fix_height();
                    },
                    None => {
                        self.right = Some(Box::new(Self::new(key, value)));
                        self.fix_height();
                        result = Some(());
                    },
                }
                proof {
                    assert(self.left == orig.left);
                }
            },
        }
        let ghost mid = *self;
        proof {
            assert(mid.count() <= orig.count() + 1);
            assert(match mid.right {
                None => true,
                Some(n) => n.bst_ok() && n.hts_ok() && n.kids_avl() && -2 <= n.bal() <= 2
                    && n.count() <= usize::MAX,
            });
            assert(match mid.left {
                None => true,
                Some(n) => n.bst_ok() && n.hts_ok() && n.kids_avl() && -2 <= n.bal() <= 2
                    && n.count() <= usize::MAX,
            });
        }
        if let Some(i) = self.right.take() {
            let mut actual = Self::fix_balance(i);
            actual.fix_height();
            self.right = Some(actual);
        }
        if let Some(i) = self.left.take() {
            let mut actual = Self::fix_balance(i);
            actual.fix_height();
            self.left = Some(actual);
        }
        self.fix_height();
        proof {
            self.lemma_as_map_parts();
            assert(Self::opt_bst_ok(self.left));
            assert(Self::opt_bst_ok(self.right));
            assert(Self::opt_avl(self.left));
            assert(Self::opt_avl(self.right));
            assert(Self::opt_ht(orig.left) <= Self::opt_ht(self.left) <= Self::opt_ht(orig.left)
                + 1);
            assert(Self::opt_ht(orig.right) <= Self::opt_ht(self.right) <= Self::opt_ht(
                orig.right,
            ) + 1);
            assert forall|k: K::V| #[trigger]
                Self::opt_as_map(self.left).dom().contains(k) implies K::lt(k, orig.key@) by {
                if k != key@ {
                    assert(Self::opt_as_map(orig.left).dom().contains(k));
                }
            }
            assert forall|k: K::V| #[trigger]
                Self::opt_as_map(self.right).dom().contains(k) implies K::lt(orig.key@, k) by {
                if k != key@ {
                    assert(Self::opt_as_map(orig.right).dom().contains(k));
                }
            }
            assert(self.bst_ok());
            if result.is_some() {
                assert(self.as_map() =~= orig.as_map().insert(key@, value));
            } else {
                assert(*self == orig);
            }
        }
        result
    }
}

impl<K: TotalOrder, V: Clone> TreeNode<K, V> {
    /// Look `key` up below this node.  A clone of the stored value is
    /// handed back; the tree itself is untouched.
    pub(crate) fn get(&self, key: K) -> (r: Option<V>)
        requires
            self.bst_ok(),
        ensures
            match r {
                Some(v) => self.as_map().dom().contains(key@) && cloned::<V>(
                    self.as_map()[key@],
                    v,
                ),
                None => !self.as_map().dom().contains(key@),
            },
        decreases self.count(),
    {
        proof {
            self.lemma_as_map_parts();
            self.lemma_key_sides(key@);
        }
        match key.compare(&self.key) {
            Cmp::Equal => Some(self.value.clone()),
            Cmp::Less => match self.left.as_ref() {
                Some(i) => {
                    proof {
                        assert(self.count() == 1 + i.count() + Self::opt_count(self.right));
                        assert(Self::opt_bst_ok(self.left));
                    }
                    i.get(key)
                },
                None => None,
            },
            Cmp::Greater => match self.right.as_ref() {
                Some(i) => {
                    proof {
                        assert(self.count() == 1 + Self::opt_count(self.left) + i.count());
                        assert(Self::opt_bst_ok(self.right));
                    }
                    i.get(key)
                },
                None => None,
            },
        }
    }

    /// Replace the value stored under `key`, handing back a clone of the
    /// previous one.  The shape of the tree, all keys and all heights are
    /// untouched.
    pub(crate) fn update_value(&mut self, key: K, new_value: V) -> (r: Option<V>)
        requires
            old(self).bst_ok(),
            old(self).hts_ok(),
            old(self).avl(),
        ensures
            final(self).bst_ok(),
            final(self).hts_ok(),
            final(self).avl(),
            final(self).count() == old(self).count(),
            final(self).ht() == old(self).ht(),
            final(self).key == old(self).key,
            match r {
                Some(v) => old(self).as_map().dom().contains(key@) && cloned::<V>(
                    old(self).as_map()[key@],
                    v,
                ) && final(self).as_map() == old(self).as_map().insert(key@, new_value),
                None => !old(self).as_map().dom().contains(key@) && *final(self) == *old(self),
            },
        decreases old(self).count(),
    {
        let ghost orig = *self;
        proof {
            orig.lemma_as_map_parts();
            orig.lemma_key_sides(key@);
            assert(Self::opt_bst_ok(orig.left));
            assert(Self::opt_hts_ok(orig.left));
            assert(Self::opt_avl(orig.left));
            assert(Self::opt_bst_ok(orig.right));
            assert(Self::opt_hts_ok(orig.right));
            assert(Self::opt_avl(orig.right));
        }
        match key.compare(&self.key) {
            Cmp::Equal => {
                let old_value = self.value.clone();
                self.value = new_value;
                proof {
                    assert(self.as_map() =~= orig.as_map().insert(key@, new_value));
                }
                Some(old_value)
            },
            Cmp::Less => {
                match self.left.take() {
                    Some(mut i) => {
                        proof {
                            assert(orig.count() == 1 + i.count() + Self::opt_count(orig.right));
                        }
                        let r = (&mut *i).update_value(key, new_value);
                        self.left = Some(i);
                        proof {
                            (*self).lemma_as_map_parts();
                            if r.is_some() {
                                assert(Self::opt_as_map(self.left).dom() =~= Self::opt_as_map(
                                    orig.left,
                                ).dom());
                                assert(self.as_map() =~= orig.as_map().insert(key@, new_value));
                            } else {
                                assert(*self == orig);
                            }
                        }
                        r
                    },
                    None => None,
                }
            },
            Cmp::Greater => {
                match self.right.take() {
                    Some(mut i) => {
                        proof {
                            assert(orig.count() == 1 + Self::opt_count(orig.left) + i.count());
                        }
                        let r = (&mut *i).update_value(key, new_value);
                        self.right = Some(i);
                        proof {
                            (*self).lemma_as_map_parts();
                            if r.is_some() {
                                assert(Self::opt_as_map(self.right).dom() =~= Self::opt_as_map(
                                    orig.right,
                                ).dom());
                                assert(self.as_map() =~= orig.as_map().insert(key@, new_value));
                            } else {
                                assert(*self == orig);
                            }
                        }
                        r
                    },
                    None => None,
                }
            },
        }
    }
}

impl<K: TotalOrder, V> TreeNode<K, V> {
    /// Detach the node holding the greatest key of this subtree,
    /// rebalancing the path it vacates.  Returns the detached node (made
    /// childless) and what remains of the subtree.
    pub(crate) fn get_greatest(actual_node: Box<TreeNode<K, V>>) -> (r: (
        Box<TreeNode<K, V>>,
        Option<Box<TreeNode<K, V>>>,
    ))
        requires
            actual_node.wf(),
            actual_node.count() <= usize::MAX,
        ensures
            r.0.left.is_none(),
            r.0.right.is_none(),
            actual_node.as_map().dom().contains(r.0.key@),
            r.0.value == actual_node.as_map()[r.0.key@],
            forall|k: K::V| #[trigger]
                actual_node.as_map().dom().contains(k) ==> k == r.0.key@ || K::lt(k, r.0.key@),
            Self::opt_wf(r.1),
            Self::opt_as_map(r.1) == actual_node.as_map().remove(r.0.key@),
            Self::opt_count(r.1) == actual_node.count() - 1,
            actual_node.ht() - 1 <= Self::opt_ht(r.1) <= actual_node.ht(),
        decreases actual_node.count(),
    {
        let ghost orig = *actual_node;
        proof {
            orig.lemma_as_map_parts();
            assert(Self::opt_bst_ok(orig.left));
            assert(Self::opt_hts_ok(orig.left));
            assert(Self::opt_avl(orig.left));
            assert(Self::opt_bst_ok(orig.right));
            assert(Self::opt_hts_ok(orig.right));
            assert(Self::opt_avl(orig.right));
        }
        let mut actual = actual_node;
        match actual.right.take() {
            Some(i) => {
                proof {
                    assert(orig.count() == 1 + Self::opt_count(orig.left) + i.count());
                    assert(i.wf());
                }
                let (greatest, fixed) = Self::get_greatest(i);
                let ghost gk = greatest.key@;
                actual.right = fixed;
                proof {
                    assert(Self::opt_hts_ok(actual.right) && Self::opt_bst_ok(actual.right)
                        && Self::opt_avl(actual.right)) by {
                        assert(Self::opt_wf(actual.right));
                        match actual.right {
                            None => {},
                            Some(n) => {
                                assert(n.wf());
                            },
                        }
                    }
                    assert(actual.count() == orig.count() - 1);
                }
                actual.fix_height();
                let ghost mid = *actual;
                proof {
                    orig.lemma_key_sides(gk);
                    assert(Self::opt_as_map(orig.right).dom().contains(gk));
                    assert(K::lt(orig.key@, gk));
                    K::lemma_asymmetric(orig.key@, gk);
                    assert forall|k: K::V| #[trigger]
                        Self::opt_as_map(mid.right).dom().contains(k) implies K::lt(
                        orig.key@,
                        k,
                    ) by {
                        assert(Self::opt_as_map(orig.right).dom().contains(k));
                    }
                    assert(mid.bst_ok());
                    mid.lemma_as_map_parts();
                    assert forall|k: K::V| #[trigger]
                        orig.as_map().dom().contains(k) implies k == gk || K::lt(k, gk) by {
                        if Self::opt_as_map(orig.left).dom().contains(k) {
                            K::lemma_transitive(k, orig.key@, gk);
                        } else if Self::opt_as_map(orig.right).dom().contains(k) {
                        } else {
                            assert(k == orig.key@);
                        }
                    }
                    assert(mid.as_map() =~= orig.as_map().remove(gk)) by {
                        assert forall|k: K::V| #[trigger]
                            mid.as_map().dom().contains(k) implies orig.as_map().dom().contains(k)
                            && k != gk && mid.as_map()[k] == orig.as_map()[k] by {
                            orig.lemma_key_sides(k);
                            if k == orig.key@ {
                            } else if Self::opt_as_map(mid.right).dom().contains(k) {
                                K::lemma_asymmetric(orig.key@, k);
                            } else {
                                assert(Self::opt_as_map(orig.left).dom().contains(k));
                                K::lemma_asymmetric(k, orig.key@);
                                K::lemma_transitive(k, orig.key@, gk);
                                K::lemma_asymmetric(k, gk);
                            }
                        }
                        assert forall|k: K::V| #[trigger]
                            orig.as_map().dom().contains(k) && k != gk implies
                            mid.as_map().dom().contains(k) by {
                            orig.lemma_key_sides(k);
                        }
                    }
                }
                let res = Self::fix_balance(actual);
                proof {
                    assert(orig.ht() - 1 <= res.ht() <= orig.ht()) by {
                        if !(-1 <= mid.bal() <= 1) {
                            assert(mid.bal() == -2);
                        }
                    }
                }
                (greatest, Some(res))
            },
            None => {
                let left_node = actual.left.take();
                proof {
                    assert(Self::opt_as_map(orig.right) =~= Map::<K::V, V>::empty());
                    orig.lemma_key_sides(orig.key@);
                    assert(!Self::opt_as_map(orig.left).dom().contains(orig.key@)) by {
                        if Self::opt_as_map(orig.left).dom().contains(orig.key@) {
                            K::lemma_asymmetric(orig.key@, orig.key@);
                        }
                    }
                    assert(Self::opt_as_map(left_node) =~= orig.as_map().remove(orig.key@));
                    assert forall|k: K::V| #[trigger]
                        orig.as_map().dom().contains(k) implies k == orig.key@ || K::lt(
                        k,
                        orig.key@,
                    ) by {}
                    assert(Self::opt_count(left_node) == orig.count() - 1);
                    assert(orig.ht() - 1 <= Self::opt_ht(left_node) <= orig.ht());
                }
                (actual, left_node)
            },
        }
    }

    /// Detach the node holding the lowest key of this subtree: the
    /// mirror image of `get_greatest`.
    pub(crate) fn get_lowest(actual_node: Box<TreeNode<K, V>>) -> (r: (
        Box<TreeNode<K, V>>,
        Option<Box<TreeNode<K, V>>>,
    ))
        requires
            actual_node.wf(),
            actual_node.count() <= usize::MAX,
        ensures
            r.0.left.is_none(),
            r.0.right.is_none(),
            actual_node.as_map().dom().contains(r.0.key@),
            r.0.value == actual_node.as_map()[r.0.key@],
            forall|k: K::V| #[trigger]
                actual_node.as_map().dom().contains(k) ==> k == r.0.key@ || K::lt(r.0.key@, k),
            Self::opt_wf(r.1),
            Self::opt_as_map(r.1) == actual_node.as_map().remove(r.0.key@),
            Self::opt_count(r.1) == actual_node.count() - 1,
            actual_node.ht() - 1 <= Self::opt_ht(r.1) <= actual_node.ht(),
        decreases actual_node.count(),
    {
        let ghost orig = *actual_node;
        proof {
            orig.lemma_as_map_parts();
            assert(Self::opt_bst_ok(orig.left));
            assert(Self::opt_hts_ok(orig.left));
            assert(Self::opt_avl(orig.left));
            assert(Self::opt_bst_ok(orig.right));
            assert(Self::opt_hts_ok(orig.right));
            assert(Self::opt_avl(orig.right));
        }
        let mut actual = actual_node;
        match actual.left.take() {
            Some(i) => {
                proof {
                    assert(orig.count() == 1 + i.count() + Self::opt_count(orig.right));
                    assert(i.wf());
                }
                let (lowest, fixed) = Self::get_lowest(i);
                let ghost gk = lowest.key@;
                actual.left = fixed;
                proof {
                    assert(Self::opt_hts_ok(actual.left) && Self::opt_bst_ok(actual.left)
                        && Self::opt_avl(actual.left)) by {
                        assert(Self::opt_wf(actual.left));
                        match actual.left {
                            None => {},
                            Some(n) => {
                                assert(n.wf());
                            },
                        }
                    }
                    assert(actual.count() == orig.count() - 1);
                }
                actual.fix_height();
                let ghost mid = *actual;
                proof {
                    orig.lemma_key_sides(gk);
                    assert(Self::opt_as_map(orig.left).dom().contains(gk));
                    assert(K::lt(gk, orig.key@));
                    K::lemma_asymmetric(gk, orig.key@);
                    assert forall|k: K::V| #[trigger]
                        Self::opt_as_map(mid.left).dom().contains(k) implies K::lt(
                        k,
                        orig.key@,
                    ) by {
                        assert(Self::opt_as_map(orig.left).dom().contains(k));
                    }
                    assert(mid.bst_ok());
                    mid.lemma_as_map_parts();
                    assert forall|k: K::V| #[trigger]
                        orig.as_map().dom().contains(k) implies k == gk || K::lt(gk, k) by {
                        if Self::opt_as_map(orig.right).dom().contains(k) {
                            K::lemma_transitive(gk, orig.key@, k);
                        } else if Self::opt_as_map(orig.left).dom().contains(k) {
                        } else {
                            assert(k == orig.key@);
                        }
                    }
                    assert(mid.as_map() =~= orig.as_map().remove(gk)) by {
                        assert forall|k: K::V| #[trigger]
                            mid.as_map().dom().contains(k) implies orig.as_map().dom().contains(k)
                            && k != gk && mid.as_map()[k] == orig.as_map()[k] by {
                            orig.lemma_key_sides(k);
                            if k == orig.key@ {
                            } else if Self::opt_as_map(mid.left).dom().contains(k) {
                                K::lemma_asymmetric(k, orig.key@);
                            } else {
                                assert(Self::opt_as_map(orig.right).dom().contains(k));
                                K::lemma_asymmetric(orig.key@, k);
                                K::lemma_transitive(gk, orig.key@, k);
                                K::lemma_asymmetric(gk, k);
                            }
                        }
                        assert forall|k: K::V| #[trigger]
                            orig.as_map().dom().contains(k) && k != gk implies
                            mid.as_map().dom().contains(k) by {
                            orig.lemma_key_sides(k);
                        }
                    }
                }
                let res = Self::fix_balance(actual);
                proof {
                    assert(orig.ht() - 1 <= res.ht() <= orig.ht()) by {
                        if !(-1 <= mid.bal() <= 1) {
                            assert(mid.bal() == 2);
                        }
                    }
                }
                (lowest, Some(res))
            },
            None => {
                let right_node = actual.right.take();
                proof {
                    assert(Self::opt_as_map(orig.left) =~= Map::<K::V, V>::empty());
                    orig.lemma_key_sides(orig.key@);
                    assert(!Self::opt_as_map(orig.right).dom().contains(orig.key@)) by {
                        if Self::opt_as_map(orig.right).dom().contains(orig.key@) {
                            K::lemma_asymmetric(orig.key@, orig.key@);
                        }
                    }
                    assert(Self::opt_as_map(right_node) =~= orig.as_map().remove(orig.key@));
                    assert forall|k: K::V| #[trigger]
                        orig.as_map().dom().contains(k) implies k == orig.key@ || K::lt(
                        orig.key@,
                        k,
                    ) by {}
                    assert(Self::opt_count(right_node) == orig.count() - 1);
                    assert(orig.ht() - 1 <= Self::opt_ht(right_node) <= orig.ht());
                }
                (actual, right_node)
            },
        }
    }
}

impl<K: TotalOrder, V> TreeNode<K, V> {
    /// Detach the in-order predecessor of this node (the greatest node
    /// of its left subtree), rebalancing the vacated path inside that
    /// subtree.  Returns the childless predecessor and the node with its
    /// pruned left subtree; the caller splices the predecessor in.
    pub(crate) fn get_predecessor(actual_node: Box<TreeNode<K, V>>) -> (r: (
        Option<Box<TreeNode<K, V>>>,
        Option<Box<TreeNode<K, V>>>,
    ))
        requires
            actual_node.wf(),
            actual_node.left.is_some(),
            actual_node.count() <= usize::MAX,
        ensures
            r.0.is_some(),
            r.1.is_some(),
            r.0.unwrap().left.is_none(),
            r.0.unwrap().right.is_none(),
            Self::opt_as_map(actual_node.left).dom().contains(r.0.unwrap().key@),
            r.0.unwrap().value == Self::opt_as_map(actual_node.left)[r.0.unwrap().key@],
            forall|k: K::V| #[trigger]
                Self::opt_as_map(actual_node.left).dom().contains(k) ==> k == r.0.unwrap().key@
                    || K::lt(k, r.0.unwrap().key@),
            r.1.unwrap().key == actual_node.key,
            r.1.unwrap().value == actual_node.value,
            r.1.unwrap().right == actual_node.right,
            Self::opt_wf(r.1.unwrap().left),
            Self::opt_as_map(r.1.unwrap().left) == Self::opt_as_map(actual_node.left).remove(
                r.0.unwrap().key@,
            ),
            Self::opt_count(r.1.unwrap().left) == Self::opt_count(actual_node.left) - 1,
            Self::opt_ht(actual_node.left) - 1 <= Self::opt_ht(r.1.unwrap().left) <= Self::opt_ht(
                actual_node.left,
            ),
    {
        let ghost orig = *actual_node;
        let mut actual = actual_node;
        let i = actual.left.take().unwrap();
        proof {
            assert(i.wf());
            assert(orig.count() == 1 + i.count() + Self::opt_count(orig.right));
        }
        let (pred, new_left) = Self::get_greatest(i);
        actual.left = new_left;
        proof {
            assert(Self::opt_hts_ok(actual.left)) by {
                match actual.left {
                    None => {},
                    Some(n) => {
                        assert(n.wf());
                    },
                }
            }
            assert(Self::opt_hts_ok(actual.right));
            assert(actual.count() == orig.count() - 1);
        }
        actual.fix_height();
        (Some(pred), Some(actual))
    }

    /// Detach the in-order successor of this node (the lowest node of
    /// its right subtree): the mirror image of `get_predecessor`.
    pub(crate) fn get_successor(actual_node: Box<TreeNode<K, V>>) -> (r: (
        Option<Box<TreeNode<K, V>>>,
        Option<Box<TreeNode<K, V>>>,
    ))
        requires
            actual_node.wf(),
            actual_node.right.is_some(),
            actual_node.count() <= usize::MAX,
        ensures
            r.0.is_some(),
            r.1.is_some(),
            r.0.unwrap().left.is_none(),
            r.0.unwrap().right.is_none(),
            Self::opt_as_map(actual_node.right).dom().contains(r.0.unwrap().key@),
            r.0.unwrap().value == Self::opt_as_map(actual_node.right)[r.0.unwrap().key@],
            forall|k: K::V| #[trigger]
                Self::opt_as_map(actual_node.right).dom().contains(k) ==> k == r.0.unwrap().key@
                    || K::lt(r.0.unwrap().key@, k),
            r.1.unwrap().key == actual_node.key,
            r.1.unwrap().value == actual_node.value,
            r.1.unwrap().left == actual_node.left,
            Self::opt_wf(r.1.unwrap().right),
            Self::opt_as_map(r.1.unwrap().right) == Self::opt_as_map(actual_node.right).remove(
                r.0.unwrap().key@,
            ),
            Self::opt_count(r.1.unwrap().right) == Self::opt_count(actual_node.right) - 1,
            Self::opt_ht(actual_node.right) - 1 <= Self::opt_ht(r.1.unwrap().right)
                <= Self::opt_ht(actual_node.right),
    {
        let ghost orig = *actual_node;
        let mut actual = actual_node;
        let i = actual.right.take().unwrap();
        proof {
            assert(i.wf());
            assert(orig.count() == 1 + Self::opt_count(orig.left) + i.count());
        }
        let (succ, new_right) = Self::get_lowest(i);
        actual.right = new_right;
        proof {
            assert(Self::opt_hts_ok(actual.right)) by {
                match actual.right {
                    None => {},
                    Some(n) => {
                        assert(n.wf());
                    },
                }
            }
            assert(Self::opt_hts_ok(actual.left));
            assert(actual.count() == orig.count() - 1);
        }
        actual.fix_height();
        (Some(succ), Some(actual))
    }

    /// Remove this subtree's root node.  When a left child exists its
    /// in-order predecessor is spliced into the vacant slot (carrying the
    /// removed node's children); failing that, the in-order successor;
    /// a leaf is removed outright.  Returns the rebalanced remainder and
    /// the removed value.
    pub(crate) fn delete_node(actual_node: Box<TreeNode<K, V>>) -> (r: (
        Option<Box<TreeNode<K, V>>>,
        V,
    ))
        requires
            actual_node.wf(),
            actual_node.count() <= usize::MAX,
        ensures
            Self::opt_wf(r.0),
            r.1 == actual_node.value,
            Self::opt_as_map(r.0) == actual_node.as_map().remove(actual_node.key@),
            Self::opt_count(r.0) == actual_node.count() - 1,
            actual_node.ht() - 1 <= Self::opt_ht(r.0) <= actual_node.ht(),
    {
        let ghost orig = *actual_node;
        let ghost k0 = orig.key@;
        proof {
            orig.lemma_as_map_parts();
            assert(Self::opt_bst_ok(orig.left));
            assert(Self::opt_hts_ok(orig.left));
            assert(Self::opt_avl(orig.left));
            assert(Self::opt_bst_ok(orig.right));
            assert(Self::opt_hts_ok(orig.right));
            assert(Self::opt_avl(orig.right));
            assert(!Self::opt_as_map(orig.left).dom().contains(k0)) by {
                if Self::opt_as_map(orig.left).dom().contains(k0) {
                    K::lemma_asymmetric(k0, k0);
                }
            }
            assert(!Self::opt_as_map(orig.right).dom().contains(k0)) by {
                if Self::opt_as_map(orig.right).dom().contains(k0) {
                    K::lemma_asymmetric(k0, k0);
                }
            }
        }
        if actual_node.left.is_some() {
            let (pred, new_actual) = Self::get_predecessor(actual_node);
            let mut pred = pred.unwrap();
            let mut new_actual = new_actual.unwrap();
            let ghost pk = pred.key@;
            pred.left = new_actual.left.take();
            pred.right = new_actual.right.take();
            proof {
                assert(Self::opt_as_map(orig.left).dom().contains(pk));
                assert(K::lt(pk, k0));
                K::lemma_asymmetric(pk, k0);
                assert(Self::opt_hts_ok(pred.left)) by {
                    match pred.left {
                        None => {},
                        Some(n) => {
                            assert(n.wf());
                        },
                    }
                }
                assert(Self::opt_hts_ok(pred.right));
                assert(pred.count() == orig.count() - 1);
                assert forall|k: K::V| #[trigger]
                    Self::opt_as_map(pred.left).dom().contains(k) implies K::lt(k, pk) by {
                    assert(Self::opt_as_map(orig.left).dom().contains(k));
                }
                assert forall|k: K::V| #[trigger]
                    Self::opt_as_map(pred.right).dom().contains(k) implies K::lt(pk, k) by {
                    assert(Self::opt_as_map(orig.right).dom().contains(k));
                    K::lemma_transitive(pk, k0, k);
                }
                assert(Self::opt_bst_ok(pred.left)) by {
                    assert(Self::opt_wf(pred.left));
                    match pred.left {
                        None => {},
                        Some(n) => {
                            assert(n.wf());
                        },
                    }
                }
                assert(Self::opt_avl(pred.left)) by {
                    match pred.left {
                        None => {},
                        Some(n) => {
                            assert(n.wf());
                        },
                    }
                }
                assert(pred.bst_ok());
            }
            pred.fix_height();
            let ghost mid = *pred;
            proof {
                mid.lemma_as_map_parts();
                assert(mid.as_map() =~= orig.as_map().remove(k0)) by {
                    assert forall|k: K::V| #[trigger]
                        mid.as_map().dom().contains(k) implies orig.as_map().dom().contains(k) && k
                        != k0 && mid.as_map()[k] == orig.as_map()[k] by {
                        orig.lemma_key_sides(k);
                        if k == pk {
                        } else if Self::opt_as_map(mid.right).dom().contains(k) {
                            K::lemma_asymmetric(k0, k);
                            K::lemma_transitive(pk, k0, k);
                            K::lemma_asymmetric(pk, k);
                        } else {
                            assert(Self::opt_as_map(orig.left).dom().contains(k));
                            K::lemma_asymmetric(k, k0);
                        }
                    }
                    assert forall|k: K::V| #[trigger]
                        orig.as_map().dom().contains(k) && k != k0 implies
                        mid.as_map().dom().contains(k) by {
                        orig.lemma_key_sides(k);
                        if k != pk && Self::opt_as_map(orig.left).dom().contains(k) {
                            assert(Self::opt_as_map(mid.left).dom().contains(k));
                        }
                    }
                }
            }
            let res = Self::fix_balance(pred);
            proof {
                assert(orig.ht() - 1 <= res.ht() <= orig.ht()) by {
                    if !(-1 <= mid.bal() <= 1) {
                        assert(mid.bal() == 2);
                    }
                }
            }
            let removed = *new_actual;
            let TreeNode { key: _, value: removed_value, left: _, right: _, height: _ } = removed;
            (Some(res), removed_value)
        } else if actual_node.right.is_some() {
            let (succ, new_actual) = Self::get_successor(actual_node);
            let mut succ = succ.unwrap();
            let mut new_actual = new_actual.unwrap();
            let ghost pk = succ.key@;
            succ.left = new_actual.left.take();
            succ.right = new_actual.right.take();
            proof {
                assert(Self::opt_as_map(orig.right).dom().contains(pk));
                assert(K::lt(k0, pk));
                K::lemma_asymmetric(k0, pk);
                assert(Self::opt_hts_ok(succ.right)) by {
                    match succ.right {
                        None => {},
                        Some(n) => {
                            assert(n.wf());
                        },
                    }
                }
                assert(Self::opt_hts_ok(succ.left));
                assert(succ.count() == orig.count() - 1);
                assert forall|k: K::V| #[trigger]
                    Self::opt_as_map(succ.right).dom().contains(k) implies K::lt(pk, k) by {
                    assert(Self::opt_as_map(orig.right).dom().contains(k));
                }
                assert forall|k: K::V| #[trigger]
                    Self::opt_as_map(succ.left).dom().contains(k) implies K::lt(k, pk) by {
                    assert(Self::opt_as_map(orig.left).dom().contains(k));
                    K::lemma_transitive(k, k0, pk);
                }
                assert(Self::opt_bst_ok(succ.right)) by {
                    match succ.right {
                        None => {},
                        Some(n) => {
                            assert(n.wf());
                        },
                    }
                }
                assert(Self::opt_avl(succ.right)) by {
                    match succ.right {
                        None => {},
                        Some(n) => {
                            assert(n.wf());
                        },
                    }
                }
                assert(succ.bst_ok());
            }
            succ.fix_height();
            let ghost mid = *succ;
            proof {
                mid.lemma_as_map_parts();
                assert(mid.as_map() =~= orig.as_map().remove(k0)) by {
                    assert forall|k: K::V| #[trigger]
                        mid.as_map().dom().contains(k) implies orig.as_map().dom().contains(k) && k
                        != k0 && mid.as_map()[k] == orig.as_map()[k] by {
                        orig.lemma_key_sides(k);
                        if k == pk {
                        } else if Self::opt_as_map(mid.left).dom().contains(k) {
                            K::lemma_asymmetric(k, k0);
                            K::lemma_transitive(k, k0, pk);
                            K::lemma_asymmetric(k, pk);
                        } else {
                            assert(Self::opt_as_map(orig.right).dom().contains(k));
                            K::lemma_asymmetric(k0, k);
                        }
                    }
                    assert forall|k: K::V| #[trigger]
                        orig.as_map().dom().contains(k) && k != k0 implies
                        mid.as_map().dom().contains(k) by {
                        orig.lemma_key_sides(k);
                        if k != pk && Self::opt_as_map(orig.right).dom().contains(k) {
                            assert(Self::opt_as_map(mid.right).dom().contains(k));
                        }
                    }
                }
            }
            let res = Self::fix_balance(succ);
            proof {
                assert(orig.ht() - 1 <= res.ht() <= orig.ht()) by {
                    if !(-1 <= mid.bal() <= 1) {
                        assert(mid.bal() == -2);
                    }
                }
            }
            let removed = *new_actual;
            let TreeNode { key: _, value: removed_value, left: _, right: _, height: _ } = removed;
            (Some(res), removed_value)
        } else {
            proof {
                assert(orig.as_map().remove(k0) =~= Map::<K::V, V>::empty());
                assert(orig.count() == 1);
                assert(orig.ht() == 0);
            }
            let removed = *actual_node;
            let TreeNode { key: _, value: removed_value, left: _, right: _, height: _ } = removed;
            (None, removed_value)
        }
    }
}

impl<K: TotalOrder, V> TreeNode<K, V> {
    /// Delete `key` below this node.  Returns the rebalanced remainder
    /// of the subtree and the removed value; on a miss the subtree comes
    /// back byte-for-byte unchanged.
    pub(crate) fn delete(actual_node: Box<TreeNode<K, V>>, key: K) -> (r: (
        Option<Box<TreeNode<K, V>>>,
        Option<V>,
    ))
        requires
            actual_node.wf(),
            actual_node.count() <= usize::MAX,
        ensures
            Self::opt_wf(r.0),
            match r.1 {
                Some(v) => actual_node.as_map().dom().contains(key@) && v
                    == actual_node.as_map()[key@] && Self::opt_as_map(r.0)
                    == actual_node.as_map().remove(key@) && Self::opt_count(r.0)
                    == actual_node.count() - 1,
                None => !actual_node.as_map().dom().contains(key@) && r.0 == Some(actual_node),
            },
            actual_node.ht() - 1 <= Self::opt_ht(r.0) <= actual_node.ht(),
        decreases actual_node.count(),
    {
        let ghost orig = *actual_node;
        proof {
            orig.lemma_as_map_parts();
            orig.lemma_key_sides(key@);
            assert(Self::opt_bst_ok(orig.left));
            assert(Self::opt_hts_ok(orig.left));
            assert(Self::opt_avl(orig.left));
            assert(Self::opt_bst_ok(orig.right));
            assert(Self::opt_hts_ok(orig.right));
            assert(Self::opt_avl(orig.right));
        }
        let mut actual = actual_node;
        match key.compare(&actual.key) {
            Cmp::Equal => {
                let (replace, v) = Self::delete_node(actual);
                proof {
                    assert(orig.as_map().remove(key@) =~= orig.as_map().remove(orig.key@));
                }
                (replace, Some(v))
            },
            Cmp::Less => {
                match actual.left.take() {
                    Some(i) => {
                        proof {
                            assert(i.wf());
                            assert(orig.count() == 1 + i.count() + Self::opt_count(orig.right));
                        }
                        let (replace, removed) = Self::delete(i, key);
                        actual.left = replace;
                        proof {
                            assert(Self::opt_hts_ok(actual.left)) by {
                                match actual.left {
                                    None => {},
                                    Some(n) => {
                                        assert(n.wf());
                                    },
                                }
                            }
                            assert(actual.count() <= orig.count());
                        }
                        actual.fix_height();
                        let ghost mid = *actual;
                        proof {
                            assert(Self::opt_bst_ok(mid.left) && Self::opt_avl(mid.left)) by {
                                match mid.left {
                                    None => {},
                                    Some(n) => {
                                        assert(n.wf());
                                    },
                                }
                            }
                            assert forall|k: K::V| #[trigger]
                                Self::opt_as_map(mid.left).dom().contains(k) implies K::lt(
                                k,
                                orig.key@,
                            ) by {
                                assert(Self::opt_as_map(orig.left).dom().contains(k));
                            }
                            assert(mid.bst_ok());
                            if removed.is_some() {
                                mid.lemma_as_map_parts();
                                assert(mid.as_map() =~= orig.as_map().remove(key@));
                            } else {
                                assert(mid == orig);
                            }
                        }
                        let res = Self::fix_balance(actual);
                        proof {
                            assert(orig.ht() - 1 <= res.ht() <= orig.ht()) by {
                                if !(-1 <= mid.bal() <= 1) {
                                    assert(mid.bal() == 2);
                                }
                            }
                            if removed.is_none() {
                                assert(*res == orig);
                            }
                        }
                        (Some(res), removed)
                    },
                    None => {
                        proof {
                            assert(!orig.as_map().dom().contains(key@));
                        }
                        (Some(actual), None)
                    },
                }
            },
            Cmp::Greater => {
                match actual.right.take() {
                    Some(i) => {
                        proof {
                            assert(i.wf());
                            assert(orig.count() == 1 + Self::opt_count(orig.left) + i.count());
                        }
                        let (replace, removed) = Self::delete(i, key);
                        actual.right = replace;
                        proof {
                            assert(Self::opt_hts_ok(actual.right)) by {
                                match actual.right {
                                    None => {},
                                    Some(n) => {
                                        assert(n.wf());
                                    },
                                }
                            }
                            assert(actual.count() <= orig.count());
                        }
                        actual.fix_height();
                        let ghost mid = *actual;
                        proof {
                            assert(Self::opt_bst_ok(mid.right) && Self::opt_avl(mid.right)) by {
                                match mid.right {
                                    None => {},
                                    Some(n) => {
                                        assert(n.wf());
                                    },
                                }
                            }
                            assert forall|k: K::V| #[trigger]
                                Self::opt_as_map(mid.right).dom().contains(k) implies K::lt(
                                orig.key@,
                                k,
                            ) by {
                                assert(Self::opt_as_map(orig.right).dom().contains(k));
                            }
                            assert(mid.bst_ok());
                            if removed.is_some() {
                                mid.lemma_as_map_parts();
                                assert(mid.as_map() =~= orig.as_map().remove(key@));
                            } else {
                                assert(mid == orig);
                            }
                        }
                        let res = Self::fix_balance(actual);
                        proof {
                            assert(orig.ht() - 1 <= res.ht() <= orig.ht()) by {
                                if !(-1 <= mid.bal() <= 1) {
                                    assert(mid.bal() == -2);
                                }
                            }
                            if removed.is_none() {
                                assert(*res == orig);
                            }
                        }
                        (Some(res), removed)
                    },
                    None => {
                        proof {
                            assert(!orig.as_map().dom().contains(key@));
                        }
                        (Some(actual), None)
                    },
                }
            },
        }
    }
}

impl<K: TotalOrder, V> TreeNode<K, V> {
    /// Reading a search tree in tree order gives strictly increasing
    /// keys, and the listed entries are exactly the entries of the map.
    pub(crate) proof fn lemma_in_order_props(self)
        requires
            self.bst_ok(),
        ensures
            self.in_order().len() == self.count(),
            forall|i: int, j: int|
                0 <= i < j < self.in_order().len() ==> K::lt(
                    #[trigger] self.in_order()[i].0@,
                    #[trigger] self.in_order()[j].0@,
                ),
            forall|i: int|
                0 <= i < self.in_order().len() ==> self.as_map().dom().contains(
                    #[trigger] self.in_order()[i].0@,
                ) && self.as_map()[self.in_order()[i].0@] == self.in_order()[i].1,
        decreases self,
    {
        let s = self.in_order();
        let lseq = Self::opt_in_order(self.left);
        let rseq = Self::opt_in_order(self.right);
        let lm = Self::opt_as_map(self.left);
        let rm = Self::opt_as_map(self.right);
        let k0 = self.key@;
        self.lemma_as_map_parts();
        match self.left {
            None => {
                assert(lm.dom() =~= Set::empty());
            },
            Some(l) => {
                l.lemma_in_order_props();
            },
        }
        match self.right {
            None => {
                assert(rm.dom() =~= Set::empty());
            },
            Some(r) => {
                r.lemma_in_order_props();
            },
        }
        assert(s.len() == lseq.len() + 1 + rseq.len());
        assert(s[lseq.len() as int] == (self.key, self.value));
        assert forall|i: int|
            0 <= i < s.len() implies self.as_map().dom().contains(#[trigger] s[i].0@)
            && self.as_map()[s[i].0@] == s[i].1 && (i < lseq.len() ==> lm.dom().contains(s[i].0@)
            && K::lt(s[i].0@, k0)) && (i == lseq.len() ==> s[i].0@ == k0) && (i > lseq.len()
            ==> rm.dom().contains(s[i].0@) && K::lt(k0, s[i].0@)) by {
            if i < lseq.len() {
                assert(s[i] == lseq[i]);
                assert(lm.dom().contains(s[i].0@) && lm[s[i].0@] == s[i].1);
                self.lemma_key_sides(s[i].0@);
            } else if i == lseq.len() {
                assert(s[i].0@ == k0);
            } else {
                assert(s[i] == rseq[i - lseq.len() - 1]);
                assert(rm.dom().contains(s[i].0@) && rm[s[i].0@] == s[i].1);
                self.lemma_key_sides(s[i].0@);
            }
        }
        assert forall|i: int, j: int| 0 <= i < j < s.len() implies K::lt(
            #[trigger] s[i].0@,
            #[trigger] s[j].0@,
        ) by {
            if j < lseq.len() {
                assert(s[i] == lseq[i] && s[j] == lseq[j]);
            } else if i < lseq.len() && j == lseq.len() {
            } else if i < lseq.len() && j > lseq.len() {
                K::lemma_transitive(s[i].0@, k0, s[j].0@);
            } else if i == lseq.len() {
            } else {
                assert(s[i] == rseq[i - lseq.len() - 1] && s[j] == rseq[j - lseq.len() - 1]);
            }
        }
    }

    /// The AVL balance makes the tree shallow: a balanced subtree of
    /// height h holds at least 2^((h+1)/2) - 1 nodes, so the height is
    /// at most logarithmic in the node count.
    pub(crate) proof fn lemma_avl_count_bound(opt: Option<Box<TreeNode<K, V>>>)
        requires
            Self::opt_avl(opt),
        ensures
            vstd::arithmetic::power2::pow2((((Self::opt_ht(opt) + 1) / 2) as nat)) <= Self::opt_count(
                opt,
            ) + 1,
        decreases opt,
    {
        vstd::arithmetic::power2::lemma2_to64();
        match opt {
            None => {
            },
            Some(n) => {
                Self::lemma_avl_count_bound(n.left);
                Self::lemma_avl_count_bound(n.right);
                if n.left.is_some() {
                    n.left.unwrap().lemma_ht_lt_count();
                }
                if n.right.is_some() {
                    n.right.unwrap().lemma_ht_lt_count();
                }
                let h = n.ht();
                let hl = Self::opt_ht(n.left);
                let hr = Self::opt_ht(n.right);
                if h <= 0 {
                    assert(vstd::arithmetic::power2::pow2((((h + 1) / 2) as nat)) == 1);
                } else {
                    assert(hl >= h - 2 && hr >= h - 2);
                    let e: nat = ((h - 1) / 2) as nat;
                    assert(vstd::arithmetic::power2::pow2(((hl + 1) / 2) as nat)
                        >= vstd::arithmetic::power2::pow2(e)) by {
                        if ((hl + 1) / 2) as nat != e {
                            vstd::arithmetic::power2::lemma_pow2_strictly_increases(
                                e,
                                ((hl + 1) / 2) as nat,
                            );
                        }
                    }
                    assert(vstd::arithmetic::power2::pow2(((hr + 1) / 2) as nat)
                        >= vstd::arithmetic::power2::pow2(e)) by {
                        if ((hr + 1) / 2) as nat != e {
                            vstd::arithmetic::power2::lemma_pow2_strictly_increases(
                                e,
                                ((hr + 1) / 2) as nat,
                            );
                        }
                    }
                    assert(((h + 1) / 2) as nat == e + 1);
                    vstd::arithmetic::power2::lemma_pow2_unfold(e + 1);
                    assert(n.count() + 1 >= vstd::arithmetic::power2::pow2(
                        ((hl + 1) / 2) as nat,
                    ) + vstd::arithmetic::power2::pow2(((hr + 1) / 2) as nat));
                }
            },
        }
    }
}

impl<K: TotalOrder + Clone, V: Clone> TreeNode<K, V> {
    /// In-order diagnostic traversal below this node: push one row per
    /// node, carrying the caller's key as the parent entry.
    pub(crate) fn show(&self, parent: &K, out: &mut Vec<ShowEntry<K, V>>)
        requires
            self.bst_ok(),
            self.hts_ok(),
            self.avl(),
            self.count() <= usize::MAX,
        ensures
            final(out)@.len() == old(out)@.len() + self.count(),
            forall|i: int| 0 <= i < old(out)@.len() ==> #[trigger] final(out)@[i] == old(out)@[i],
            forall|i: int|
                #![trigger final(out)@[i]]
                old(out)@.len() <= i < final(out)@.len() ==> cloned::<K>(
                    self.in_order()[i - old(out)@.len()].0,
                    final(out)@[i].key,
                ) && cloned::<V>(self.in_order()[i - old(out)@.len()].1, final(out)@[i].value),
        decreases self.count(),
    {
        let ghost base = out@.len() as int;
        let ghost s = self.in_order();
        let ghost lseq = Self::opt_in_order(self.left);
        let ghost rseq = Self::opt_in_order(self.right);
        proof {
            assert(Self::opt_bst_ok(self.left));
            assert(Self::opt_hts_ok(self.left));
            assert(Self::opt_avl(self.left));
            assert(Self::opt_bst_ok(self.right));
            assert(Self::opt_hts_ok(self.right));
            assert(Self::opt_avl(self.right));
            assert(self.count() == 1 + Self::opt_count(self.left) + Self::opt_count(self.right));
            match &self.left {
                None => {},
                Some(l) => {
                    l.lemma_in_order_props();
                },
            }
            match &self.right {
                None => {},
                Some(r) => {
                    r.lemma_in_order_props();
                },
            }
            assert(lseq.len() == Self::opt_count(self.left));
            assert(rseq.len() == Self::opt_count(self.right));
            assert(s.len() == lseq.len() + 1 + rseq.len());
        }
        if let Some(i) = self.left.as_ref() {
            proof {
                assert((*i).in_order() == lseq);
            }
            i.show(&self.key, out);
        }
        let ghost out1 = out@;
        proof {
            assert(out1.len() == base + lseq.len());
            assert(forall|j: int|
                base <= j < out1.len() ==> cloned::<K>(#[trigger] lseq[j - base].0, out1[j].key)
                    && cloned::<V>(lseq[j - base].1, out1[j].value));
        }
        let factor = self.get_factor();
        let row_key = self.key.clone();
        let row_value = self.value.clone();
        let ghost gk2 = row_key;
        let ghost gv2 = row_value;
        proof {
            assert(cloned::<K>(self.key, gk2));
            assert(cloned::<V>(self.value, gv2));
        }
        out.push(
            ShowEntry {
                factor,
                key: row_key,
                value: row_value,
                height: self.height,
                parent: parent.clone(),
            },
        );
        let ghost out2 = out@;
        proof {
            assert(out2.len() == base + lseq.len() + 1);
            assert(out2[base + lseq.len()].key == gk2);
            assert(out2[base + lseq.len()].value == gv2);
        }
        if let Some(i) = self.right.as_ref() {
            proof {
                assert((*i).in_order() == rseq);
            }
            i.show(&self.key, out);
        }
        proof {
            assert(out@.len() == base + s.len());
            assert forall|i: int|
                #![trigger out@[i]]
                old(out)@.len() <= i < out@.len() implies cloned::<K>(
                self.in_order()[i - old(out)@.len()].0,
                out@[i].key,
            ) && cloned::<V>(self.in_order()[i - old(out)@.len()].1, out@[i].value) by {
                assert(base == old(out)@.len());
                assert(s[i - base] == self.in_order()[i - old(out)@.len()]);
                if i - base < lseq.len() {
                    assert(s[i - base] == lseq[i - base]);
                    assert(out@[i] == out1[i]);
                    assert(cloned::<K>(lseq[i - base].0, out1[i].key));
                    assert(cloned::<V>(lseq[i - base].1, out1[i].value));
                } else if i - base == lseq.len() {
                    assert(s[i - base] == (self.key, self.value));
                    assert(out@[i] == out2[i]);
                    assert(out@[i].key == gk2);
                    assert(out@[i].value == gv2);
                } else {
                    assert(s[i - base] == rseq[i - out2.len()]);
                    assert(cloned::<K>(rseq[i - out2.len()].0, out@[i].key));
                    assert(cloned::<V>(rseq[i - out2.len()].1, out@[i].value));
                }
            }
        }
    }
}

} // verus!
