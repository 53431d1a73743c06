//! The parent-linked tree variant.
//!
//! Nodes live in an arena and name each other by index, so a node can record
//! a non-owning reference to its parent: the back link is just an index, and
//! ancestor queries such as [`RBTree::grand`] become array reads. Index `0`
//! is always the root; a child is always pushed after its parent, so child
//! links point to strictly larger indices, which also gives every structural
//! recursion its termination measure.

use vstd::prelude::*;

use crate::color::{opposite, flip, Color};
use crate::order::{KeyCmp, TreeKey};
use crate::total::map_total;
use vstd::pervasive::VecAdditionalExecFns;

verus! {

/// A binary search tree with parent back links, kept as an arena.
///
/// The columns are indexed by node: node `j` has color `colors[j]`, key
/// `keys[j]`, payload `vals[j]`, optional children `lefts[j]` and
/// `rights[j]`, and optional parent `parents[j]`. The root is node `0`.
pub struct RBTree<K: TreeKey, V> {
    pub colors: Vec<Color>,
    pub keys: Vec<K>,
    pub vals: Vec<V>,
    pub lefts: Vec<Option<usize>>,
    pub rights: Vec<Option<usize>>,
    pub parents: Vec<Option<usize>>,
}

impl<K: TreeKey, V> RBTree<K, V> {
    /// Number of nodes in the arena.
    pub open spec fn len(self) -> int {
        self.keys@.len() as int
    }

    /// Every column has one entry per node, and there is at least the root.
    pub open spec fn sized_ok(self) -> bool {
        &&& self.keys@.len() >= 1
        &&& self.keys@.len() <= usize::MAX
        &&& self.colors@.len() == self.keys@.len()
        &&& self.vals@.len() == self.keys@.len()
        &&& self.lefts@.len() == self.keys@.len()
        &&& self.rights@.len() == self.keys@.len()
        &&& self.parents@.len() == self.keys@.len()
    }

    /// Child links are in range and point to strictly larger indices: a
    /// child is always created after the node it is attached to.
    pub open spec fn links_ok(self) -> bool {
        &&& forall|j: int|
            0 <= j < self.len() ==> ((#[trigger] self.lefts@[j]) matches Some(l) ==> j < l
                < self.len())
        &&& forall|j: int|
            0 <= j < self.len() ==> ((#[trigger] self.rights@[j]) matches Some(r) ==> j < r
                < self.len())
    }

    /// Parent links are exactly the inverse of the child links, and node `0`
    /// is the one node without a parent.
    pub open spec fn parents_ok(self) -> bool {
        &&& self.parents@[0] is None
        &&& forall|j: int|
            1 <= j < self.len() ==> ((#[trigger] self.parents@[j]) matches Some(p)
                && 0 <= p < j && (self.lefts@[p as int] == Some(j as usize)
                || self.rights@[p as int] == Some(j as usize)))
        &&& forall|j: int|
            0 <= j < self.len() ==> ((#[trigger] self.lefts@[j]) matches Some(l)
                ==> self.parents@[l as int] == Some(j as usize))
        &&& forall|j: int|
            0 <= j < self.len() ==> ((#[trigger] self.rights@[j]) matches Some(r)
                ==> self.parents@[r as int] == Some(j as usize) && self.lefts@[j] != Some(r))
    }

    /// The set of indices of the subtree rooted at node `i`.
    pub closed spec fn sub_idx(self, i: int) -> Set<int>
        decreases self.len() - i,
        when self.sized_ok() && self.links_ok() && 0 <= i < self.len()
    {
        let ls = match self.lefts@[i] {
            Some(l) => self.sub_idx(l as int),
            None => Set::empty(),
        };
        let rs = match self.rights@[i] {
            Some(r) => self.sub_idx(r as int),
            None => Set::empty(),
        };
        ls.union(rs).insert(i)
    }

    /// The key/value association held by the subtree rooted at node `i`,
    /// keyed by abstract key values.
    pub closed spec fn sub_map(self, i: int) -> Map<K::V, V>
        decreases self.len() - i,
        when self.sized_ok() && self.links_ok() && 0 <= i < self.len()
    {
        let lm = match self.lefts@[i] {
            Some(l) => self.sub_map(l as int),
            None => Map::empty(),
        };
        let rm = match self.rights@[i] {
            Some(r) => self.sub_map(r as int),
            None => Map::empty(),
        };
        lm.union_prefer_right(rm).insert(self.keys@[i]@, self.vals@[i])
    }

    /// The search-tree ordering below node `i`: keys in the left subtree are
    /// strictly below the node's key, keys in the right subtree strictly
    /// above, hereditarily.
    pub closed spec fn ordered_at(self, i: int) -> bool
        decreases self.len() - i,
        when self.sized_ok() && self.links_ok() && 0 <= i < self.len()
    {
        let kv = self.keys@[i]@;
        &&& (self.lefts@[i] matches Some(l) ==> {
            &&& forall|x: K::V| #[trigger]
                self.sub_map(l as int).dom().contains(x) ==> K::key_le(x, kv) && x != kv
            &&& self.ordered_at(l as int)
        })
        &&& (self.rights@[i] matches Some(r) ==> {
            &&& forall|x: K::V| #[trigger]
                self.sub_map(r as int).dom().contains(x) ==> K::key_le(kv, x) && x != kv
            &&& self.ordered_at(r as int)
        })
    }

    /// Well-formedness: the shape invariants plus the search-tree order.
    /// Constructors establish it and every operation preserves it.
    pub open spec fn wf(self) -> bool {
        &&& self.sized_ok()
        &&& self.links_ok()
        &&& self.parents_ok()
        &&& self.ordered_at(0)
    }

    /// The association held by the whole tree.
    pub closed spec fn as_map(self) -> Map<K::V, V> {
        self.sub_map(0)
    }

    /// Every non-root node's color is the opposite of its parent's: the
    /// bookkeeping that node creation performs, stated of the whole arena.
    pub open spec fn alternating(self) -> bool {
        forall|j: int|
            1 <= j < self.len() ==> ((#[trigger] self.parents@[j]) matches Some(p)
                ==> self.colors@[j] == opposite(self.colors@[p as int]))
    }

    /// Height of the subtree rooted at node `i`: a node with no children has
    /// height 1, otherwise 1 more than the tallest existing child; a missing
    /// child contributes 0.
    pub open spec fn sub_height(self, i: int) -> int
        decreases self.len() - i,
        when self.sized_ok() && self.links_ok() && 0 <= i < self.len()
    {
        let hl = match self.lefts@[i] {
            Some(l) => self.sub_height(l as int),
            None => 0,
        };
        let hr = match self.rights@[i] {
            Some(r) => self.sub_height(r as int),
            None => 0,
        };
        1 + if hl >= hr {
            hl
        } else {
            hr
        }
    }
}

impl<K: TreeKey, V> RBTree<K, V> {
    /// A node's key is in its own subtree's association, and the search-tree
    /// order keeps it out of the child associations.
    proof fn lemma_sub_map_base(self, i: int)
        requires
            self.sized_ok(),
            self.links_ok(),
            0 <= i < self.len(),
        ensures
            self.sub_map(i).dom().contains(self.keys@[i]@),
            self.sub_map(i)[self.keys@[i]@] == self.vals@[i],
    {
    }

    /// When the sought key is strictly below node `i`'s key, it can only be
    /// in the left subtree; symmetrically for strictly above.
    proof fn lemma_descend(self, i: int, x: K::V)
        requires
            self.sized_ok(),
            self.links_ok(),
            0 <= i < self.len(),
            self.ordered_at(i),
            x != self.keys@[i]@,
        ensures
            K::key_le(x, self.keys@[i]@) ==> (self.rights@[i] matches Some(r)
                ==> !self.sub_map(r as int).dom().contains(x)),
            K::key_le(self.keys@[i]@, x) ==> (self.lefts@[i] matches Some(l)
                ==> !self.sub_map(l as int).dom().contains(x)),
            self.sub_map(i).dom().contains(x) <==> ((self.lefts@[i] matches Some(l)
                && self.sub_map(l as int).dom().contains(x)) || (self.rights@[i] matches Some(r)
                && self.sub_map(r as int).dom().contains(x))),
            self.lefts@[i] matches Some(l) ==> (self.sub_map(l as int).dom().contains(x)
                ==> self.sub_map(i)[x] == self.sub_map(l as int)[x]),
            self.rights@[i] matches Some(r) ==> (self.sub_map(r as int).dom().contains(x)
                ==> self.sub_map(i)[x] == self.sub_map(r as int)[x]),
    {
        let kv = self.keys@[i]@;
        if K::key_le(x, kv) {
            if let Some(r) = self.rights@[i] {
                if self.sub_map(r as int).dom().contains(x) {
                    K::lemma_le_antisym(x, kv);
                }
            }
        }
        if K::key_le(kv, x) {
            if let Some(l) = self.lefts@[i] {
                if self.sub_map(l as int).dom().contains(x) {
                    K::lemma_le_antisym(x, kv);
                }
            }
        }
    }

    fn find_from(&self, i: usize, k: &K) -> (r: Option<&V>)
        requires
            self.sized_ok(),
            self.links_ok(),
            0 <= i < self.len(),
            self.ordered_at(i as int),
        ensures
            (r matches Some(v) ==> self.sub_map(i as int).dom().contains(k@) && *v == self.sub_map(
                i as int,
            )[k@]),
            (r is None ==> !self.sub_map(i as int).dom().contains(k@)),
        decreases self.len() - i,
    {
        match k.key_cmp(&self.keys[i]) {
            KeyCmp::Equal => {
                proof {
                    self.lemma_sub_map_base(i as int);
                }
                Some(&self.vals[i])
            },
            KeyCmp::Less => {
                proof {
                    self.lemma_descend(i as int, k@);
                }
                match self.lefts[i] {
                    Some(l) => self.find_from(l, k),
                    None => None,
                }
            },
            KeyCmp::Greater => {
                proof {
                    self.lemma_descend(i as int, k@);
                }
                match self.rights[i] {
                    Some(r) => self.find_from(r, k),
                    None => None,
                }
            },
        }
    }

    /// Looks `k` up, walking from the root by three-way comparison; returns
    /// a reference to the stored payload when the key is present, and `None`
    /// exactly when it is absent. The tree is not changed.
    pub fn find(&self, k: K) -> (r: Option<&V>)
        requires
            self.wf(),
        ensures
            (r matches Some(v) ==> self.as_map().dom().contains(k@) && *v == self.as_map()[k@]),
            (r is None ==> !self.as_map().dom().contains(k@)),
    {
        self.find_from(0, &k)
    }
}

impl<K: TreeKey, V> RBTree<K, V> {
    /// `j` lies on the parent chain ending at `i`: either `j` is `i`, or
    /// `j`'s parent chain reaches `i`.
    spec fn climbs(self, j: int, i: int) -> bool
        decreases j,
        when self.sized_ok() && self.parents_ok() && 0 <= j < self.len()
    {
        j == i || (self.parents@[j] matches Some(p) && self.climbs(p as int, i))
    }

    /// A subtree occupies indices between its root and the arena's end, and
    /// contains its root.
    proof fn lemma_sub_idx_range(self, i: int)
        requires
            self.sized_ok(),
            self.links_ok(),
            0 <= i < self.len(),
        ensures
            self.sub_idx(i).contains(i),
            forall|j: int| #[trigger] self.sub_idx(i).contains(j) ==> i <= j < self.len(),
        decreases self.len() - i,
    {
        if let Some(l) = self.lefts@[i] {
            self.lemma_sub_idx_range(l as int);
        }
        if let Some(r) = self.rights@[i] {
            self.lemma_sub_idx_range(r as int);
        }
    }

    /// The climbing relation only goes down in index.
    proof fn lemma_climb_ge(self, j: int, i: int)
        requires
            self.sized_ok(),
            self.parents_ok(),
            0 <= j < self.len(),
            self.climbs(j, i),
            j != i,
        ensures
            i < j,
        decreases j,
    {
        if let Some(p) = self.parents@[j] {
            if p as int != i {
                self.lemma_climb_ge(p as int, i);
            }
        }
    }

    /// Climbing composes with one more parent step.
    proof fn lemma_climb_extend(self, j: int, c: int, i: int)
        requires
            self.sized_ok(),
            self.parents_ok(),
            0 <= j < self.len(),
            0 <= c < self.len(),
            0 <= i < self.len(),
            self.climbs(j, c),
            self.parents@[c] == Some(i as usize),
        ensures
            self.climbs(j, i),
        decreases j,
    {
        if j == c {
            assert(self.climbs(i, i));
        } else {
            if let Some(p) = self.parents@[j] {
                self.lemma_climb_extend(p as int, c, i);
            }
        }
    }

    /// Membership in a subtree means the parent chain climbs to its root.
    proof fn lemma_sub_to_climb(self, i: int, j: int)
        requires
            self.sized_ok(),
            self.links_ok(),
            self.parents_ok(),
            0 <= i < self.len(),
            self.sub_idx(i).contains(j),
        ensures
            self.climbs(j, i),
            0 <= j < self.len(),
        decreases self.len() - i,
    {
        self.lemma_sub_idx_range(i);
        if j != i {
            let in_left = match self.lefts@[i] {
                Some(l) => self.sub_idx(l as int).contains(j),
                None => false,
            };
            if in_left {
                let l = match self.lefts@[i] {
                    Some(l) => l as int,
                    None => 0,
                };
                self.lemma_sub_to_climb(l, j);
                self.lemma_climb_extend(j, l, i);
            } else {
                let r = match self.rights@[i] {
                    Some(r) => r as int,
                    None => 0,
                };
                self.lemma_sub_to_climb(r, j);
                self.lemma_climb_extend(j, r, i);
            }
        }
    }

    /// Two parent chains from one node meet: one endpoint climbs to the
    /// other.
    proof fn lemma_climb_meet(self, j: int, a: int, b: int)
        requires
            self.sized_ok(),
            self.parents_ok(),
            0 <= j < self.len(),
            self.climbs(j, a),
            self.climbs(j, b),
        ensures
            self.climbs(a, b) || self.climbs(b, a),
        decreases j,
    {
        if j == a || j == b {
        } else {
            if let Some(p) = self.parents@[j] {
                self.lemma_climb_meet(p as int, a, b);
            }
        }
    }

    /// The two subtrees below one node share no index.
    proof fn lemma_siblings_disjoint(self, i: int, l: int, r: int)
        requires
            self.sized_ok(),
            self.links_ok(),
            self.parents_ok(),
            0 <= i < self.len(),
            self.lefts@[i] == Some(l as usize),
            self.rights@[i] == Some(r as usize),
            0 <= l < self.len(),
            0 <= r < self.len(),
        ensures
            self.sub_idx(l).disjoint(self.sub_idx(r)),
    {
        assert forall|j: int|
            !(#[trigger] self.sub_idx(l).contains(j) && self.sub_idx(r).contains(j)) by {
            if self.sub_idx(l).contains(j) && self.sub_idx(r).contains(j) {
                self.lemma_sub_to_climb(l, j);
                self.lemma_sub_to_climb(r, j);
                self.lemma_climb_meet(j, l, r);
                assert(l != r);
                if self.climbs(l, r) {
                    assert(self.parents@[l] == Some(i as usize));
                    assert(self.climbs(i, r));
                    if i != r {
                        self.lemma_climb_ge(i, r);
                    }
                } else {
                    assert(self.parents@[r] == Some(i as usize));
                    assert(self.climbs(i, l));
                    if i != l {
                        self.lemma_climb_ge(i, l);
                    }
                }
            }
        }
    }

    /// Whether `b` agrees with `a` on every node of `a`'s subtree at `i`.
    spec fn same_below(a: Self, b: Self, i: int) -> bool {
        forall|j: int| #[trigger]
            a.sub_idx(i).contains(j) ==> b.keys@[j] == a.keys@[j] && b.vals@[j] == a.vals@[j]
                && b.lefts@[j] == a.lefts@[j] && b.rights@[j] == a.rights@[j]
    }

    /// Framing: a subtree whose nodes are untouched keeps its index set, its
    /// association, its order and its height.
    proof fn lemma_frame(a: Self, b: Self, i: int)
        requires
            a.sized_ok(),
            a.links_ok(),
            b.sized_ok(),
            b.links_ok(),
            0 <= i < a.len(),
            a.len() <= b.len(),
            Self::same_below(a, b, i),
        ensures
            b.sub_idx(i) == a.sub_idx(i),
            b.sub_map(i) == a.sub_map(i),
            b.ordered_at(i) == a.ordered_at(i),
            b.sub_height(i) == a.sub_height(i),
        decreases a.len() - i,
    {
        a.lemma_sub_idx_range(i);
        assert(a.sub_idx(i).contains(i));
        if let Some(l) = a.lefts@[i] {
            assert forall|j: int| #[trigger] a.sub_idx(l as int).contains(j) implies a.sub_idx(
                i,
            ).contains(j) by {}
            Self::lemma_frame(a, b, l as int);
        }
        if let Some(r) = a.rights@[i] {
            assert forall|j: int| #[trigger] a.sub_idx(r as int).contains(j) implies a.sub_idx(
                i,
            ).contains(j) by {}
            Self::lemma_frame(a, b, r as int);
        }
        assert(b.sub_idx(i) =~= a.sub_idx(i));
        assert(b.sub_map(i) =~= a.sub_map(i));
        assert(b.keys@[i]@ == a.keys@[i]@);
    }
}

impl<K: TreeKey, V> RBTree<K, V> {
    /// How a tree looks after one fresh node has been attached: every column
    /// grew by the new node, no existing entry changed except the single
    /// child link of the attach point `p`, the new node is a leaf whose
    /// parent is `p` and whose color is the opposite of `p`'s.
    pub open spec fn grown(pre: Self, post: Self, k: K, v: V) -> bool {
        let n = pre.len();
        &&& post.len() == n + 1
        &&& post.keys@ == pre.keys@.push(k)
        &&& post.vals@ == pre.vals@.push(v)
        &&& post.colors@.len() == n + 1
        &&& post.parents@.len() == n + 1
        &&& post.lefts@.len() == n + 1
        &&& post.rights@.len() == n + 1
        &&& forall|j: int|
            0 <= j < n ==> #[trigger] post.colors@[j] == pre.colors@[j] && post.parents@[j]
                == pre.parents@[j]
        &&& post.lefts@[n] is None
        &&& post.rights@[n] is None
        &&& (post.parents@[n] matches Some(p) && {
            let pi = p as int;
            &&& 0 <= pi < n
            &&& post.colors@[n] == opposite(pre.colors@[pi])
            &&& ((pre.lefts@[pi] is None && post.lefts@[pi] == Some(n as usize)
                && post.rights@[pi] == pre.rights@[pi]) || (pre.rights@[pi] is None
                && post.rights@[pi] == Some(n as usize) && post.lefts@[pi] == pre.lefts@[pi]))
            &&& forall|j: int|
                0 <= j < n && j != pi ==> #[trigger] post.lefts@[j] == pre.lefts@[j]
                    && post.rights@[j] == pre.rights@[j]
        })
    }

    /// Pushes a fresh leaf holding `k` and `v`, colored the opposite of node
    /// `p`'s color and recording `p` as its parent. The caller still has to
    /// point one of `p`'s child links at the returned index.
    fn make_child(&mut self, p: usize, k: K, v: V) -> (n: usize)
        requires
            old(self).sized_ok(),
            0 <= p < old(self).len(),
        ensures
            n as int == old(self).len(),
            final(self).sized_ok(),
            final(self).len() == old(self).len() + 1,
            final(self).keys@ == old(self).keys@.push(k),
            final(self).vals@ == old(self).vals@.push(v),
            final(self).colors@ == old(self).colors@.push(opposite(old(self).colors@[p as int])),
            final(self).lefts@ == old(self).lefts@.push(None::<usize>),
            final(self).rights@ == old(self).rights@.push(None::<usize>),
            final(self).parents@ == old(self).parents@.push(Some(p)),
    {
        let n = self.keys.len();
        let c = flip(self.colors[p]);
        self.colors.push(c);
        self.keys.push(k);
        self.vals.push(v);
        self.lefts.push(None);
        self.rights.push(None);
        self.parents.push(Some(p));
        proof {
            assert(vstd::std_specs::vec::spec_vec_len(&self.keys) == self.keys@.len());
        }
        n
    }

    fn insert_at(&mut self, i: usize, k: K, v: V)
        requires
            old(self).sized_ok(),
            old(self).links_ok(),
            old(self).parents_ok(),
            0 <= i < old(self).len(),
            old(self).ordered_at(i as int),
        ensures
            final(self).sized_ok(),
            final(self).links_ok(),
            final(self).parents_ok(),
            final(self).ordered_at(i as int),
            old(self).sub_map(i as int).dom().contains(k@) ==> *final(self) == *old(self),
            !old(self).sub_map(i as int).dom().contains(k@) ==> Self::grown(
                *old(self),
                *final(self),
                k,
                v,
            ) && (final(self).parents@[old(self).len()] matches Some(p) && old(self).sub_idx(
                i as int,
            ).contains(p as int)),
            final(self).sub_map(i as int) == (if old(self).sub_map(i as int).dom().contains(k@) {
                old(self).sub_map(i as int)
            } else {
                old(self).sub_map(i as int).insert(k@, v)
            }),
        decreases old(self).len() - i,
    {
        let ghost pre = *self;
        let cmp_res = k.key_cmp(&self.keys[i]);
        match cmp_res {
            KeyCmp::Equal => {
                proof {
                    pre.lemma_sub_map_base(i as int);
                }
            },
            KeyCmp::Less => {
                proof {
                    pre.lemma_descend(i as int, k@);
                }
                let li = self.lefts[i];
                match li {
                    Some(l) => {
                        self.insert_at(l, k, v);
                        proof {
                            self.lemma_after_child(pre, i as int, l as int, true, k, v);
                        }
                    },
                    None => {
                        let n = self.make_child(i, k, v);
                        self.lefts.set(i, Some(n));
                        proof {
                            self.lemma_after_attach(pre, i as int, true, k, v);
                        }
                    },
                }
            },
            KeyCmp::Greater => {
                proof {
                    pre.lemma_descend(i as int, k@);
                }
                let ri = self.rights[i];
                match ri {
                    Some(r) => {
                        self.insert_at(r, k, v);
                        proof {
                            self.lemma_after_child(pre, i as int, r as int, false, k, v);
                        }
                    },
                    None => {
                        let n = self.make_child(i, k, v);
                        self.rights.set(i, Some(n));
                        proof {
                            self.lemma_after_attach(pre, i as int, false, k, v);
                        }
                    },
                }
            },
        }
    }

    /// After the recursive step into child `c` of node `i`, node `i` is
    /// still ordered and its association changed exactly by the fresh key.
    proof fn lemma_after_child(self, pre: Self, i: int, c: int, left: bool, k: K, v: V)
        requires
            pre.sized_ok(),
            pre.links_ok(),
            pre.parents_ok(),
            0 <= i < pre.len(),
            pre.ordered_at(i),
            i < c < pre.len(),
            (if left {
                pre.lefts@[i] == Some(c as usize)
            } else {
                pre.rights@[i] == Some(c as usize)
            }),
            self.sized_ok(),
            self.links_ok(),
            self.parents_ok(),
            self.ordered_at(c),
            pre.sub_map(c).dom().contains(k@) ==> self == pre,
            !pre.sub_map(c).dom().contains(k@) ==> Self::grown(pre, self, k, v) && (
            self.parents@[pre.len()] matches Some(p) && pre.sub_idx(c).contains(p as int)),
            self.sub_map(c) == (if pre.sub_map(c).dom().contains(k@) {
                pre.sub_map(c)
            } else {
                pre.sub_map(c).insert(k@, v)
            }),
            k@ != pre.keys@[i]@,
            (if left {
                K::key_le(k@, pre.keys@[i]@)
            } else {
                K::key_le(pre.keys@[i]@, k@)
            }),
        ensures
            self.ordered_at(i),
            pre.sub_map(i).dom().contains(k@) ==> self == pre,
            !pre.sub_map(i).dom().contains(k@) ==> Self::grown(pre, self, k, v) && (
            self.parents@[pre.len()] matches Some(p) && pre.sub_idx(i).contains(p as int)),
            self.sub_map(i) == (if pre.sub_map(i).dom().contains(k@) {
                pre.sub_map(i)
            } else {
                pre.sub_map(i).insert(k@, v)
            }),
    {
        pre.lemma_descend(i, k@);
        pre.lemma_sub_idx_range(i);
        pre.lemma_sub_idx_range(c);
        if pre.sub_map(c).dom().contains(k@) {
            assert(pre.sub_map(i).dom().contains(k@));
        } else {
            let n = pre.len();
            assert(Self::grown(pre, self, k, v));
            assert(!pre.sub_map(i).dom().contains(k@));
            let p: int = match self.parents@[n] {
                Some(pp) => pp as int,
                None => 0,
            };
            assert(pre.sub_idx(c).contains(p));
            assert(c <= p < pre.len());
            assert(!pre.sub_idx(c).contains(i));
            // the untouched sibling, if there is one, keeps its subtree
            let sib = if left {
                pre.rights@[i]
            } else {
                pre.lefts@[i]
            };
            if sib matches Some(s) {
                let si = sib.unwrap() as int;
                if left {
                    pre.lemma_siblings_disjoint(i, c, si);
                } else {
                    pre.lemma_siblings_disjoint(i, si, c);
                }
                pre.lemma_sub_idx_range(si);
                assert forall|j: int| #[trigger] pre.sub_idx(si).contains(j) implies self.keys@[j]
                    == pre.keys@[j] && self.vals@[j] == pre.vals@[j] && self.lefts@[j]
                    == pre.lefts@[j] && self.rights@[j] == pre.rights@[j] by {
                    assert(!pre.sub_idx(c).contains(j));
                    assert(j != p);
                }
                Self::lemma_frame(pre, self, si);
            }
            // node i's own row is untouched
            assert(i != p);
            assert(self.keys@[i] == pre.keys@[i] && self.vals@[i] == pre.vals@[i]);
            assert(self.lefts@[i] == pre.lefts@[i] && self.rights@[i] == pre.rights@[i]);
            assert(self.sub_map(i) =~= pre.sub_map(i).insert(k@, v));
            assert forall|x: K::V| #[trigger]
                self.sub_map(c).dom().contains(x) implies (if left {
                K::key_le(x, self.keys@[i]@) && x != self.keys@[i]@
            } else {
                K::key_le(self.keys@[i]@, x) && x != self.keys@[i]@
            }) by {
                if x != k@ {
                    assert(pre.sub_map(c).dom().contains(x));
                }
            }
            assert(self.ordered_at(i));
        }
    }

    /// After a fresh leaf has been pushed and node `i`'s empty child link
    /// pointed at it, the whole arena is well formed again and node `i`'s
    /// association gained exactly the fresh key.
    proof fn lemma_after_attach(self, pre: Self, i: int, left: bool, k: K, v: V)
        requires
            pre.sized_ok(),
            pre.links_ok(),
            pre.parents_ok(),
            0 <= i < pre.len(),
            pre.ordered_at(i),
            k@ != pre.keys@[i]@,
            (if left {
                K::key_le(k@, pre.keys@[i]@)
            } else {
                K::key_le(pre.keys@[i]@, k@)
            }),
            (if left {
                pre.lefts@[i] is None
            } else {
                pre.rights@[i] is None
            }),
            self.keys@ == pre.keys@.push(k),
            self.vals@ == pre.vals@.push(v),
            self.colors@ == pre.colors@.push(opposite(pre.colors@[i])),
            self.parents@ == pre.parents@.push(Some(i as usize)),
            self.keys@.len() <= usize::MAX,
            (if left {
                self.lefts@ == pre.lefts@.push(None::<usize>).update(i, Some(pre.len() as usize))
                    && self.rights@ == pre.rights@.push(None::<usize>)
            } else {
                self.rights@ == pre.rights@.push(None::<usize>).update(i, Some(pre.len() as usize))
                    && self.lefts@ == pre.lefts@.push(None::<usize>)
            }),
        ensures
            self.sized_ok(),
            self.links_ok(),
            self.parents_ok(),
            self.ordered_at(i),
            !pre.sub_map(i).dom().contains(k@),
            Self::grown(pre, self, k, v),
            self.parents@[pre.len()] matches Some(p) && pre.sub_idx(i).contains(p as int),
            self.sub_map(i) == pre.sub_map(i).insert(k@, v),
    {
        let n = pre.len();
        pre.lemma_descend(i, k@);
        pre.lemma_sub_idx_range(i);
        assert(!pre.sub_map(i).dom().contains(k@));
        assert(self.sized_ok());
        assert forall|j: int|
            0 <= j < self.len() implies ((#[trigger] self.lefts@[j]) matches Some(l) ==> j < l
            < self.len()) && ((#[trigger] self.rights@[j]) matches Some(r) ==> j < r
            < self.len()) by {
            if j < n && j != i {
                assert(self.lefts@[j] == pre.lefts@[j] && self.rights@[j] == pre.rights@[j]);
            }
        }
        assert(self.links_ok());
        assert forall|j: int|
            1 <= j < self.len() implies ((#[trigger] self.parents@[j]) matches Some(p)
            && 0 <= p < j && (self.lefts@[p as int] == Some(j as usize) || self.rights@[p as int]
            == Some(j as usize))) by {
            if j < n {
                assert(self.parents@[j] == pre.parents@[j]);
            } else {
                assert(self.parents@[j] == Some(i as usize));
            }
        }
        assert(self.parents_ok());
        // the new leaf holds exactly the fresh pair
        assert(self.lefts@[n] is None && self.rights@[n] is None);
        assert(self.sub_map(n) =~= Map::<K::V, V>::empty().insert(k@, v));
        assert(self.ordered_at(n));
        // the sibling subtree, if any, is untouched
        let sib = if left {
            pre.rights@[i]
        } else {
            pre.lefts@[i]
        };
        if sib matches Some(s) {
            let si = sib.unwrap() as int;
            pre.lemma_sub_idx_range(si);
            assert forall|j: int| #[trigger] pre.sub_idx(si).contains(j) implies self.keys@[j]
                == pre.keys@[j] && self.vals@[j] == pre.vals@[j] && self.lefts@[j]
                == pre.lefts@[j] && self.rights@[j] == pre.rights@[j] by {
                assert(i < si <= j);
            }
            Self::lemma_frame(pre, self, si);
        }
        assert(self.sub_map(i) =~= pre.sub_map(i).insert(k@, v));
        assert(self.ordered_at(i));
        assert(Self::grown(pre, self, k, v));
    }

    /// What was inserted is found again: once an insertion has extended the
    /// association by a fresh key — which is exactly what `insert` ensures —
    /// looking that key up yields the payload just inserted, every other key
    /// keeps the binding it had, and a key never bound stays absent. Read
    /// together with `find`, whose result is pinned by the association.
    pub proof fn lemma_fresh_insert_lookup(pre: Self, post: Self, k: K, v: V, x: K::V)
        requires
            pre.wf(),
            post.as_map() == pre.as_map().insert(k@, v),
        ensures
            post.as_map().dom().contains(k@),
            post.as_map()[k@] == v,
            x != k@ ==> (post.as_map().dom().contains(x) <==> pre.as_map().dom().contains(x)),
            x != k@ && pre.as_map().dom().contains(x) ==> post.as_map()[x] == pre.as_map()[x],
    {
    }

    /// Inserts `k` with payload `v`, walking from the root by three-way
    /// comparison and attaching one fresh node at the leaf position the walk
    /// falls off at. A key that is already present is rejected silently: the
    /// tree — in particular the stored payload — is left exactly as it was,
    /// never overwritten. A fresh node's color is the opposite of its
    /// parent's, and its parent link names the node that created it.
    pub fn insert(&mut self, k: K, v: V)
        requires
            old(self).wf(),
        ensures
            final(self).wf(),
            final(self).as_map() == (if old(self).as_map().dom().contains(k@) {
                old(self).as_map()
            } else {
                old(self).as_map().insert(k@, v)
            }),
            old(self).as_map().dom().contains(k@) ==> *final(self) == *old(self),
            !old(self).as_map().dom().contains(k@) ==> Self::grown(*old(self), *final(self), k, v),
            old(self).alternating() ==> final(self).alternating(),
    {
        let ghost pre = *self;
        self.insert_at(0, k, v);
        proof {
            if !pre.sub_map(0).dom().contains(k@) {
                let n = pre.len();
                assert forall|j: int|
                    1 <= j < self.len() implies ((#[trigger] self.parents@[j]) matches Some(p)
                    ==> (pre.alternating() ==> self.colors@[j] == opposite(
                    self.colors@[p as int],
                ))) by {
                    if j < n {
                    } else {
                        assert(Self::grown(pre, *self, k, v));
                    }
                }
            }
        }
    }
}

impl<K: TreeKey, V> RBTree<K, V> {
    fn height_from(&self, i: usize) -> (h: usize)
        requires
            self.sized_ok(),
            self.links_ok(),
            0 <= i < self.len(),
        ensures
            h as int == self.sub_height(i as int),
            1 <= h as int <= self.len() - i,
        decreases self.len() - i,
    {
        let hl = match self.lefts[i] {
            Some(l) => self.height_from(l),
            None => 0,
        };
        let hr = match self.rights[i] {
            Some(r) => self.height_from(r),
            None => 0,
        };
        1 + max(hl, hr)
    }

    /// The number of nodes on the longest root-to-leaf path: a tree of one
    /// node has height 1, an inner node is 1 higher than its tallest child.
    pub fn height(&self) -> (h: usize)
        requires
            self.wf(),
        ensures
            h as int == self.sub_height(0),
            h >= 1,
    {
        self.height_from(0)
    }

    /// Only node `0` lacks a parent: a grandparent query that climbs two
    /// links and ends at a node without a parent has necessarily reached
    /// the root, so the grandparent of a node two levels below the root is
    /// the root itself.
    pub proof fn lemma_root_unique(self, j: int)
        requires
            self.wf(),
            0 <= j < self.len(),
            self.parents@[j] is None,
        ensures
            j == 0,
    {
    }

    /// The grandparent of node `i`: the parent of its parent, or `None` for
    /// the root and for the root's children. A pure read.
    pub fn grand(&self, i: usize) -> (r: Option<usize>)
        requires
            self.wf(),
            0 <= i < self.len(),
        ensures
            r == (match self.parents@[i as int] {
                Some(p) => self.parents@[p as int],
                None => None::<usize>,
            }),
    {
        match self.parents[i] {
            Some(p) => self.parents[p],
            None => None,
        }
    }
}

/// The larger of two counts.
fn max(a: usize, b: usize) -> (r: usize)
    ensures
        a >= b ==> r == a,
        a < b ==> r == b,
{
    if a > b {
        a
    } else {
        b
    }
}

impl<K: TreeKey> RBTree<K, i64> {
    /// The structural total below node `i`: the node's payload plus the
    /// totals of its existing subtrees.
    pub open spec fn sub_total(self, i: int) -> int
        decreases self.len() - i,
        when self.sized_ok() && self.links_ok() && 0 <= i < self.len()
    {
        let tl = match self.lefts@[i] {
            Some(l) => self.sub_total(l as int),
            None => 0,
        };
        let tr = match self.rights@[i] {
            Some(r) => self.sub_total(r as int),
            None => 0,
        };
        self.vals@[i] + tl + tr
    }

    /// The total of the payloads' absolute values below node `i`; bounding
    /// it is what keeps the machine addition in `sum` exact.
    pub open spec fn abs_total(self, i: int) -> int
        decreases self.len() - i,
        when self.sized_ok() && self.links_ok() && 0 <= i < self.len()
    {
        let tl = match self.lefts@[i] {
            Some(l) => self.abs_total(l as int),
            None => 0,
        };
        let tr = match self.rights@[i] {
            Some(r) => self.abs_total(r as int),
            None => 0,
        };
        (if self.vals@[i] >= 0 {
            self.vals@[i] as int
        } else {
            -(self.vals@[i] as int)
        }) + tl + tr
    }

    proof fn lemma_total_bounds(self, i: int)
        requires
            self.sized_ok(),
            self.links_ok(),
            0 <= i < self.len(),
        ensures
            self.abs_total(i) >= 0,
            -self.abs_total(i) <= self.sub_total(i) <= self.abs_total(i),
        decreases self.len() - i,
    {
        if let Some(l) = self.lefts@[i] {
            self.lemma_total_bounds(l as int);
        }
        if let Some(r) = self.rights@[i] {
            self.lemma_total_bounds(r as int);
        }
    }

    /// A subtree's association has a finite domain.
    proof fn lemma_sub_map_finite(self, i: int)
        requires
            self.sized_ok(),
            self.links_ok(),
            0 <= i < self.len(),
        ensures
            self.sub_map(i).dom().finite(),
        decreases self.len() - i,
    {
        let lm = match self.lefts@[i] {
            Some(l) => self.sub_map(l as int),
            None => Map::<K::V, i64>::empty(),
        };
        let rm = match self.rights@[i] {
            Some(r) => self.sub_map(r as int),
            None => Map::<K::V, i64>::empty(),
        };
        if let Some(l) = self.lefts@[i] {
            self.lemma_sub_map_finite(l as int);
        } else {
            assert(lm.dom() =~= Set::empty());
        }
        if let Some(r) = self.rights@[i] {
            self.lemma_sub_map_finite(r as int);
        } else {
            assert(rm.dom() =~= Set::empty());
        }
        assert(self.sub_map(i).dom() =~= lm.dom().union(rm.dom()).insert(self.keys@[i]@));
    }

    /// In an ordered subtree the structural total is the total of the
    /// association: every stored value is counted exactly once, whatever
    /// shape the insertions produced.
    proof fn lemma_total_matches_map(self, i: int)
        requires
            self.sized_ok(),
            self.links_ok(),
            0 <= i < self.len(),
            self.ordered_at(i),
        ensures
            self.sub_total(i) == map_total(self.sub_map(i)),
        decreases self.len() - i,
    {
        let kv = self.keys@[i]@;
        let lm = match self.lefts@[i] {
            Some(l) => self.sub_map(l as int),
            None => Map::<K::V, i64>::empty(),
        };
        let rm = match self.rights@[i] {
            Some(r) => self.sub_map(r as int),
            None => Map::<K::V, i64>::empty(),
        };
        if let Some(l) = self.lefts@[i] {
            self.lemma_total_matches_map(l as int);
            self.lemma_sub_map_finite(l as int);
        } else {
            crate::total::lemma_map_total_empty::<K::V>();
            assert(lm.dom() =~= Set::empty());
        }
        if let Some(r) = self.rights@[i] {
            self.lemma_total_matches_map(r as int);
            self.lemma_sub_map_finite(r as int);
        } else {
            crate::total::lemma_map_total_empty::<K::V>();
            assert(rm.dom() =~= Set::empty());
        }
        assert forall|x: K::V| !(#[trigger] lm.dom().contains(x) && rm.dom().contains(x)) by {
            if lm.dom().contains(x) && rm.dom().contains(x) {
                K::lemma_le_antisym(x, kv);
            }
        }
        crate::total::lemma_map_total_union(lm, rm);
        assert(lm.union_prefer_right(rm).dom() =~= lm.dom().union(rm.dom()));
        assert(!lm.union_prefer_right(rm).dom().contains(kv));
        crate::total::lemma_map_total_insert(lm.union_prefer_right(rm), kv, self.vals@[i]);
        assert(self.sub_map(i) == lm.union_prefer_right(rm).insert(kv, self.vals@[i]));
    }

    fn sum_from(&self, i: usize) -> (s: i64)
        requires
            self.sized_ok(),
            self.links_ok(),
            0 <= i < self.len(),
            self.abs_total(i as int) <= i64::MAX,
        ensures
            s as int == self.sub_total(i as int),
        decreases self.len() - i,
    {
        proof {
            self.lemma_total_bounds(i as int);
            if let Some(l) = self.lefts@[i as int] {
                self.lemma_total_bounds(l as int);
            }
            if let Some(r) = self.rights@[i as int] {
                self.lemma_total_bounds(r as int);
            }
        }
        let mut s = self.vals[i];
        match self.lefts[i] {
            Some(l) => {
                let sl = self.sum_from(l);
                s = s + sl;
            },
            None => {},
        }
        match self.rights[i] {
            Some(r) => {
                let sr = self.sum_from(r);
                s = s + sr;
            },
            None => {},
        }
        s
    }

    /// Adds up every stored payload, each node counted exactly once: the
    /// node's value plus the sums of its subtrees. The result equals the
    /// total of the tree's association, so it is exactly the total of every
    /// value ever inserted under a fresh key. The bound on `abs_total`
    /// keeps the machine additions exact.
    pub fn sum(&self) -> (s: i64)
        requires
            self.wf(),
            self.abs_total(0) <= i64::MAX,
        ensures
            s as int == self.sub_total(0),
            s as int == map_total(self.as_map()),
    {
        proof {
            self.lemma_total_matches_map(0);
        }
        self.sum_from(0)
    }
}

/// Builds a single-node tree holding `k` and `v`; the root is black.
pub fn create<K: TreeKey, V>(k: K, v: V) -> (t: RBTree<K, V>)
    ensures
        t.wf(),
        t.alternating(),
        t.as_map() == Map::<K::V, V>::empty().insert(k@, v),
        t.len() == 1,
        t.keys@[0] == k,
        t.vals@[0] == v,
        t.colors@[0] == Color::Black,
        t.lefts@[0] is None,
        t.rights@[0] is None,
        t.parents@[0] is None,
        t.sub_height(0) == 1,
{
    create_with_color(k, v, Color::Black)
}

/// Builds a single-node tree whose root carries the given color.
fn create_with_color<K: TreeKey, V>(k: K, v: V, c: Color) -> (t: RBTree<K, V>)
    ensures
        t.wf(),
        t.alternating(),
        t.as_map() == Map::<K::V, V>::empty().insert(k@, v),
        t.len() == 1,
        t.keys@[0] == k,
        t.vals@[0] == v,
        t.colors@[0] == c,
        t.lefts@[0] is None,
        t.rights@[0] is None,
        t.parents@[0] is None,
        t.sub_height(0) == 1,
{
    let mut colors: Vec<Color> = Vec::new();
    let mut keys: Vec<K> = Vec::new();
    let mut vals: Vec<V> = Vec::new();
    let mut lefts: Vec<Option<usize>> = Vec::new();
    let mut rights: Vec<Option<usize>> = Vec::new();
    let mut parents: Vec<Option<usize>> = Vec::new();
    colors.push(c);
    keys.push(k);
    vals.push(v);
    lefts.push(None);
    rights.push(None);
    parents.push(None);
    let t = RBTree { colors, keys, vals, lefts, rights, parents };
    proof {
        assert(vstd::std_specs::vec::spec_vec_len(&t.keys) == t.keys@.len());
        assert(t.as_map() =~= Map::<K::V, V>::empty().insert(k@, v));
    }
    t
}

} // verus!
