//! The variant without parent links.
//!
//! Each node owns its children outright and records nothing about its
//! parent, so the nodes are smaller than the parent-linked variant's and
//! ancestor queries are unavailable. Lookup, insertion, height and sum
//! behave exactly as in the parent-linked variant.

use vstd::prelude::*;

use crate::color::{opposite, flip, Color};
use crate::order::{KeyCmp, TreeKey};
use crate::total::map_total;

verus! {

/// A binary search tree node without a parent link; a tree is its root node.
pub struct SlimTree<K: TreeKey, V> {
    pub color: Color,
    pub key: K,
    pub value: V,
    pub left: Option<Box<SlimTree<K, V>>>,
    pub right: Option<Box<SlimTree<K, V>>>,
}

impl<K: TreeKey, V> SlimTree<K, V> {
    /// The association held by an optional subtree.
    pub closed spec fn opt_map(o: Option<Box<SlimTree<K, V>>>) -> Map<K::V, V>
        decreases o,
    {
        match o {
            None => Map::empty(),
            Some(t) => t.as_map(),
        }
    }

    /// The association held by this tree, keyed by abstract key values.
    pub closed spec fn as_map(self) -> Map<K::V, V>
        decreases self,
    {
        Self::opt_map(self.left).union_prefer_right(Self::opt_map(self.right)).insert(
            self.key@,
            self.value,
        )
    }

    /// The search-tree ordering: keys on the left strictly below this key,
    /// keys on the right strictly above, hereditarily. Constructors
    /// establish it and every operation preserves it.
    pub closed spec fn ordered(self) -> bool
        decreases self,
    {
        &&& (forall|x: K::V| #[trigger]
            Self::opt_map(self.left).dom().contains(x) ==> K::key_le(x, self.key@) && x
                != self.key@)
        &&& (forall|x: K::V| #[trigger]
            Self::opt_map(self.right).dom().contains(x) ==> K::key_le(self.key@, x) && x
                != self.key@)
        &&& (self.left matches Some(l) ==> l.ordered())
        &&& (self.right matches Some(r) ==> r.ordered())
    }

    /// This node's color is the opposite of `pc` and colors keep
    /// alternating below it.
    pub closed spec fn alt_from(self, pc: Color) -> bool
        decreases self,
    {
        &&& self.color == opposite(pc)
        &&& (self.left matches Some(l) ==> l.alt_from(self.color))
        &&& (self.right matches Some(r) ==> r.alt_from(self.color))
    }

    /// Every child's color is the opposite of its parent's color: the
    /// bookkeeping that node creation performs, stated of the whole tree.
    pub open spec fn alternating(self) -> bool {
        &&& (self.left matches Some(l) ==> l.alt_from(self.color))
        &&& (self.right matches Some(r) ==> r.alt_from(self.color))
    }

    /// Height of an optional subtree; a missing child contributes 0.
    pub open spec fn opt_height(o: Option<Box<SlimTree<K, V>>>) -> int
        decreases o,
    {
        match o {
            None => 0,
            Some(t) => t.spec_height(),
        }
    }

    /// The number of nodes on the longest path from this node down to a
    /// leaf: 1 for a node without children, otherwise 1 more than the
    /// tallest existing child.
    pub open spec fn spec_height(self) -> int
        decreases self,
    {
        let hl = Self::opt_height(self.left);
        let hr = Self::opt_height(self.right);
        1 + if hl >= hr {
            hl
        } else {
            hr
        }
    }

    /// Builds a single-node tree holding `k` and `v`; the root is black.
    pub fn create(k: K, v: V) -> (t: Self)
        ensures
            t.ordered(),
            t.alternating(),
            t.as_map() == Map::<K::V, V>::empty().insert(k@, v),
            t.key == k,
            t.value == v,
            t.color == Color::Black,
            t.left is None,
            t.right is None,
            t.spec_height() == 1,
    {
        let t = SlimTree { color: Color::Black, key: k, value: v, left: None, right: None };
        proof {
            assert(t.as_map() =~= Map::<K::V, V>::empty().insert(k@, v));
        }
        t
    }

    /// When the sought key is strictly below this node's key it can only be
    /// on the left; symmetrically for strictly above.
    proof fn lemma_descend(self, x: K::V)
        requires
            self.ordered(),
            x != self.key@,
        ensures
            K::key_le(x, self.key@) ==> !Self::opt_map(self.right).dom().contains(x),
            K::key_le(self.key@, x) ==> !Self::opt_map(self.left).dom().contains(x),
            self.as_map().dom().contains(x) <==> (Self::opt_map(self.left).dom().contains(x)
                || Self::opt_map(self.right).dom().contains(x)),
            Self::opt_map(self.left).dom().contains(x) ==> self.as_map()[x] == Self::opt_map(
                self.left,
            )[x],
            Self::opt_map(self.right).dom().contains(x) ==> self.as_map()[x] == Self::opt_map(
                self.right,
            )[x],
    {
        if K::key_le(x, self.key@) && Self::opt_map(self.right).dom().contains(x) {
            K::lemma_le_antisym(x, self.key@);
        }
        if K::key_le(self.key@, x) && Self::opt_map(self.left).dom().contains(x) {
            K::lemma_le_antisym(x, self.key@);
        }
    }

    /// Looks `k` up, walking from this node by three-way comparison;
    /// returns a reference to the stored payload when the key is present,
    /// and `None` exactly when it is absent. The tree is not changed.
    pub fn find(&self, k: K) -> (r: Option<&V>)
        requires
            self.ordered(),
        ensures
            (r matches Some(v) ==> self.as_map().dom().contains(k@) && *v == self.as_map()[k@]),
            (r is None ==> !self.as_map().dom().contains(k@)),
        decreases *self,
    {
        match k.key_cmp(&self.key) {
            KeyCmp::Equal => Some(&self.value),
            KeyCmp::Less => {
                proof {
                    self.lemma_descend(k@);
                }
                match &self.left {
                    Some(l) => l.find(k),
                    None => None,
                }
            },
            KeyCmp::Greater => {
                proof {
                    self.lemma_descend(k@);
                }
                match &self.right {
                    Some(r) => r.find(k),
                    None => None,
                }
            },
        }
    }

    fn insert_opt(o: &mut Option<Box<SlimTree<K, V>>>, pc: Color, k: K, v: V)
        requires
            (*old(o)) matches Some(t) ==> t.ordered(),
        ensures
            (*final(o)) matches Some(t) && {
                &&& t.ordered()
                &&& (match *old(o) {
                    None => t.alt_from(pc) && t.key == k && t.value == v && t.color == opposite(pc)
                        && t.left is None && t.right is None,
                    Some(s) => t.key == s.key && t.value == s.value && t.color == s.color && (
                    s.alt_from(pc) ==> t.alt_from(pc)),
                })
            },
            Self::opt_map(*old(o)).dom().contains(k@) ==> *final(o) == *old(o),
            !Self::opt_map(*old(o)).dom().contains(k@) ==> Self::grown_opt(
                *old(o),
                *final(o),
                pc,
                k,
                v,
            ),
            Self::opt_map(*final(o)) == (if Self::opt_map(*old(o)).dom().contains(k@) {
                Self::opt_map(*old(o))
            } else {
                Self::opt_map(*old(o)).insert(k@, v)
            }),
        decreases *old(o),
    {
        match o.take() {
            None => {
                let t = SlimTree {
                    color: flip(pc),
                    key: k,
                    value: v,
                    left: None,
                    right: None,
                };
                proof {
                    assert(t.as_map() =~= Map::<K::V, V>::empty().insert(k@, v));
                }
                *o = Some(Box::new(t));
            },
            Some(mut t) => {
                (&mut *t).insert(k, v);
                *o = Some(t);
            },
        }
    }

    /// How an optional subtree looks after one fresh node has been attached
    /// below a `pc`-colored parent: an empty slot got a leaf holding `k` and
    /// `v`, colored the opposite of `pc`; a filled slot grew inside.
    pub open spec fn grown_opt(
        pre: Option<Box<SlimTree<K, V>>>,
        post: Option<Box<SlimTree<K, V>>>,
        pc: Color,
        k: K,
        v: V,
    ) -> bool
        decreases post,
    {
        match post {
            None => false,
            Some(t) => match pre {
                None => *t == (SlimTree {
                    color: opposite(pc),
                    key: k,
                    value: v,
                    left: None,
                    right: None,
                }),
                Some(s) => Self::grown(*s, *t, k, v),
            },
        }
    }

    /// How a tree looks after one fresh node has been attached: the node
    /// itself is unchanged and exactly one of its children grew by the new
    /// leaf, whose color alternates from the node it hangs under.
    pub open spec fn grown(pre: Self, post: Self, k: K, v: V) -> bool
        decreases post,
    {
        &&& post.key == pre.key
        &&& post.value == pre.value
        &&& post.color == pre.color
        &&& ((post.right == pre.right && Self::grown_opt(pre.left, post.left, pre.color, k, v))
            || (post.left == pre.left && Self::grown_opt(pre.right, post.right, pre.color, k, v)))
    }

    /// What was inserted is found again: once an insertion has extended the
    /// association by a fresh key — which is exactly what `insert` ensures —
    /// looking that key up yields the payload just inserted, every other key
    /// keeps the binding it had, and a key never bound stays absent. Read
    /// together with `find`, whose result is pinned by the association.
    pub proof fn lemma_fresh_insert_lookup(pre: Self, post: Self, k: K, v: V, x: K::V)
        requires
            pre.ordered(),
            post.as_map() == pre.as_map().insert(k@, v),
        ensures
            post.as_map().dom().contains(k@),
            post.as_map()[k@] == v,
            x != k@ ==> (post.as_map().dom().contains(x) <==> pre.as_map().dom().contains(x)),
            x != k@ && pre.as_map().dom().contains(x) ==> post.as_map()[x] == pre.as_map()[x],
    {
    }

    /// Inserts `k` with payload `v`, walking from this node by three-way
    /// comparison and attaching one fresh node at the leaf position the
    /// walk falls off at. A key that is already present is rejected
    /// silently: the tree — in particular the stored payload — is left
    /// exactly as it was, never overwritten. A fresh node's color is the
    /// opposite of its parent's.
    pub fn insert(&mut self, k: K, v: V)
        requires
            old(self).ordered(),
        ensures
            final(self).ordered(),
            final(self).as_map() == (if old(self).as_map().dom().contains(k@) {
                old(self).as_map()
            } else {
                old(self).as_map().insert(k@, v)
            }),
            old(self).as_map().dom().contains(k@) ==> *final(self) == *old(self),
            !old(self).as_map().dom().contains(k@) ==> Self::grown(*old(self), *final(self), k, v),
            final(self).key == old(self).key,
            final(self).value == old(self).value,
            final(self).color == old(self).color,
            old(self).alternating() ==> final(self).alternating(),
            forall|pc: Color| old(self).alt_from(pc) ==> final(self).alt_from(pc),
        decreases *old(self),
    {
        let ghost pre = *self;
        let cmp_res = k.key_cmp(&self.key);
        match cmp_res {
            KeyCmp::Equal => {
                proof {
                    assert(pre.as_map().dom().contains(k@));
                }
            },
            KeyCmp::Less => {
                proof {
                    pre.lemma_descend(k@);
                }
                Self::insert_opt(&mut self.left, self.color, k, v);
                proof {
                    assert(self.as_map() == (if pre.as_map().dom().contains(k@) {
                        pre.as_map()
                    } else {
                        pre.as_map().insert(k@, v)
                    })) by {
                        if !Self::opt_map(pre.left).dom().contains(k@) {
                            assert(self.as_map() =~= pre.as_map().insert(k@, v));
                        } else {
                            assert(self.as_map() =~= pre.as_map());
                        }
                    }
                    assert forall|x: K::V| #[trigger]
                        Self::opt_map(self.left).dom().contains(x) implies K::key_le(x, self.key@)
                        && x != self.key@ by {
                        if x != k@ {
                            assert(Self::opt_map(pre.left).dom().contains(x));
                        }
                    }
                }
            },
            KeyCmp::Greater => {
                proof {
                    pre.lemma_descend(k@);
                }
                Self::insert_opt(&mut self.right, self.color, k, v);
                proof {
                    assert(self.as_map() == (if pre.as_map().dom().contains(k@) {
                        pre.as_map()
                    } else {
                        pre.as_map().insert(k@, v)
                    })) by {
                        if !Self::opt_map(pre.right).dom().contains(k@) {
                            assert(self.as_map() =~= pre.as_map().insert(k@, v));
                        } else {
                            assert(self.as_map() =~= pre.as_map());
                        }
                    }
                    assert forall|x: K::V| #[trigger]
                        Self::opt_map(self.right).dom().contains(x) implies K::key_le(
                        self.key@,
                        x,
                    ) && x != self.key@ by {
                        if x != k@ {
                            assert(Self::opt_map(pre.right).dom().contains(x));
                        }
                    }
                }
            },
        }
    }

    /// The number of nodes on the longest root-to-leaf path. The bound on
    /// `spec_height` only keeps the machine increment exact; any tree that
    /// fits in memory satisfies it.
    pub fn height(&self) -> (h: usize)
        requires
            self.ordered(),
            self.spec_height() <= usize::MAX,
        ensures
            h as int == self.spec_height(),
            h >= 1,
        decreases *self,
    {
        let hl = match &self.left {
            Some(l) => l.height(),
            None => 0,
        };
        let hr = match &self.right {
            Some(r) => r.height(),
            None => 0,
        };
        1 + if hl >= hr {
            hl
        } else {
            hr
        }
    }
}

impl<K: TreeKey> SlimTree<K, i64> {
    /// The structural total of an optional subtree.
    pub open spec fn opt_total(o: Option<Box<SlimTree<K, i64>>>) -> int
        decreases o,
    {
        match o {
            None => 0,
            Some(t) => t.sub_total(),
        }
    }

    /// The structural total: this node's payload plus the totals of its
    /// existing subtrees.
    pub open spec fn sub_total(self) -> int
        decreases self,
    {
        self.value + Self::opt_total(self.left) + Self::opt_total(self.right)
    }

    /// The total of the payloads' absolute values in an optional subtree.
    pub open spec fn opt_abs(o: Option<Box<SlimTree<K, i64>>>) -> int
        decreases o,
    {
        match o {
            None => 0,
            Some(t) => t.abs_total(),
        }
    }

    /// The total of the payloads' absolute values; bounding it is what
    /// keeps the machine addition in `sum` exact.
    pub open spec fn abs_total(self) -> int
        decreases self,
    {
        (if self.value >= 0 {
            self.value as int
        } else {
            -(self.value as int)
        }) + Self::opt_abs(self.left) + Self::opt_abs(self.right)
    }

    proof fn lemma_total_bounds(self)
        ensures
            self.abs_total() >= 0,
            -self.abs_total() <= self.sub_total() <= self.abs_total(),
        decreases self,
    {
        if let Some(l) = self.left {
            l.lemma_total_bounds();
        }
        if let Some(r) = self.right {
            r.lemma_total_bounds();
        }
    }

    proof fn lemma_as_map_finite(self)
        ensures
            self.as_map().dom().finite(),
        decreases self,
    {
        let lm = Self::opt_map(self.left);
        let rm = Self::opt_map(self.right);
        if let Some(l) = self.left {
            l.lemma_as_map_finite();
        } else {
            assert(lm.dom() =~= Set::empty());
        }
        if let Some(r) = self.right {
            r.lemma_as_map_finite();
        } else {
            assert(rm.dom() =~= Set::empty());
        }
        assert(self.as_map().dom() =~= lm.dom().union(rm.dom()).insert(self.key@));
    }

    /// In an ordered tree the structural total is the total of the
    /// association: every stored value is counted exactly once, whatever
    /// shape the insertions produced.
    proof fn lemma_total_matches_map(self)
        requires
            self.ordered(),
        ensures
            self.sub_total() == map_total(self.as_map()),
        decreases self,
    {
        let lm = Self::opt_map(self.left);
        let rm = Self::opt_map(self.right);
        if let Some(l) = self.left {
            l.lemma_total_matches_map();
            l.lemma_as_map_finite();
        } else {
            crate::total::lemma_map_total_empty::<K::V>();
            assert(lm.dom() =~= Set::empty());
        }
        if let Some(r) = self.right {
            r.lemma_total_matches_map();
            r.lemma_as_map_finite();
        } else {
            crate::total::lemma_map_total_empty::<K::V>();
            assert(rm.dom() =~= Set::empty());
        }
        assert forall|x: K::V| !(#[trigger] lm.dom().contains(x) && rm.dom().contains(x)) by {
            if lm.dom().contains(x) && rm.dom().contains(x) {
                K::lemma_le_antisym(x, self.key@);
            }
        }
        crate::total::lemma_map_total_union(lm, rm);
        assert(lm.union_prefer_right(rm).dom() =~= lm.dom().union(rm.dom()));
        assert(!lm.union_prefer_right(rm).dom().contains(self.key@));
        crate::total::lemma_map_total_insert(lm.union_prefer_right(rm), self.key@, self.value);
    }

    /// Adds up every stored payload, each node counted exactly once: the
    /// node's value plus the sums of its subtrees. The result equals the
    /// total of the tree's association, so it is exactly the total of every
    /// value ever inserted under a fresh key. The bound on `abs_total`
    /// keeps the machine additions exact.
    pub fn sum(&self) -> (s: i64)
        requires
            self.ordered(),
            self.abs_total() <= i64::MAX,
        ensures
            s as int == self.sub_total(),
            s as int == map_total(self.as_map()),
        decreases *self,
    {
        proof {
            self.lemma_total_matches_map();
            self.lemma_total_bounds();
            if let Some(l) = &self.left {
                l.lemma_total_bounds();
            }
            if let Some(r) = &self.right {
                r.lemma_total_bounds();
            }
        }
        let mut s = self.value;
        match &self.left {
            Some(l) => {
                let sl = l.sum();
                s = s + sl;
            },
            None => {},
        }
        match &self.right {
            Some(r) => {
                let sr = r.sum();
                s = s + sr;
            },
            None => {},
        }
        s
    }
}

} // verus!
