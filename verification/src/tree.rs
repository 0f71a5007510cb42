//! The persistent binary search tree and its operations.

use vstd::prelude::*;

verus! {

/// An immutable binary search tree over `i64` values. All operations return a
/// brand new tree; values already held by a caller are never changed.
///
/// `Leaf(v)` is the canonical compact form of a node with two empty children;
/// operations never produce `Branch(v, Nil, Nil)` (see `canonical`).
#[derive(Debug, PartialEq, Eq)]
pub enum BST {
    Leaf(i64),
    // value, left, right
    Branch(i64, Box<BST>, Box<BST>),
    Nil,
}

impl Clone for BST {
    /// Cloning yields a tree equal to the original, so a caller can keep an
    /// old version across an insert or a delete.
    fn clone(&self) -> (res: Self)
        ensures
            res == *self,
        decreases *self,
    {
        match self {
            BST::Nil => BST::Nil,
            BST::Leaf(v) => BST::Leaf(*v),
            BST::Branch(v, l, r) => BST::Branch(
                *v,
                Box::new((&**l).clone()),
                Box::new((&**r).clone()),
            ),
        }
    }
}

impl BST {
    /// The in-order traversal of the tree: left subtree, node value, right subtree.
    pub open spec fn in_order(self) -> Seq<i64>
        decreases self,
    {
        match self {
            BST::Nil => Seq::empty(),
            BST::Leaf(v) => seq![v],
            BST::Branch(v, l, r) => l.in_order() + seq![v] + r.in_order(),
        }
    }

    /// How many nodes of the tree hold the value `x`.
    pub open spec fn count(self, x: i64) -> nat
        decreases self,
    {
        match self {
            BST::Nil => 0nat,
            BST::Leaf(v) => if v == x {
                1nat
            } else {
                0nat
            },
            BST::Branch(v, l, r) => (if v == x {
                1nat
            } else {
                0nat
            }) + l.count(x) + r.count(x),
        }
    }

    /// Whether some node of the tree holds the value `x`.
    pub open spec fn contains(self, x: i64) -> bool {
        self.count(x) > 0
    }

    /// The binary-search-tree ordering invariant: at every branch, the left
    /// subtree holds only values strictly less than the node's value and the
    /// right subtree only values not less than it (ties go right).
    pub open spec fn ordered(self) -> bool
        decreases self,
    {
        match self {
            BST::Nil => true,
            BST::Leaf(_) => true,
            BST::Branch(v, l, r) => {
                &&& l.ordered()
                &&& r.ordered()
                &&& (forall|x: i64| l.contains(x) ==> x < v)
                &&& (forall|x: i64| r.contains(x) ==> x >= v)
            },
        }
    }

    /// No branch carries two empty children: such a node is always kept in its
    /// compact `Leaf` form, so structural equality between trees is reliable.
    pub open spec fn canonical(self) -> bool
        decreases self,
    {
        match self {
            BST::Nil => true,
            BST::Leaf(_) => true,
            BST::Branch(_, l, r) => {
                &&& l.canonical()
                &&& r.canonical()
                &&& !((*l is Nil) && (*r is Nil))
            },
        }
    }

    /// A well-formed tree: ordered and in canonical shape. Every operation of
    /// the library preserves this.
    pub open spec fn wf(self) -> bool {
        self.ordered() && self.canonical()
    }

    /// The value at the root of the tree, if any.
    pub open spec fn root_value(self) -> Option<i64> {
        match self {
            BST::Nil => None,
            BST::Leaf(v) => Some(v),
            BST::Branch(v, _, _) => Some(v),
        }
    }

    /// What inserting `v` produces: an empty tree becomes a leaf; at a leaf or
    /// branch, `v` goes left when strictly less than the node's value and right
    /// otherwise (equal values are routed right, never merged).
    pub open spec fn spec_push(self, v: i64) -> BST
        decreases self,
    {
        match self {
            BST::Nil => BST::Leaf(v),
            BST::Leaf(w) => if v < w {
                BST::Branch(w, Box::new(BST::Leaf(v)), Box::new(BST::Nil))
            } else {
                BST::Branch(w, Box::new(BST::Nil), Box::new(BST::Leaf(v)))
            },
            BST::Branch(w, l, r) => if v < w {
                BST::Branch(w, Box::new(l.spec_push(v)), r)
            } else {
                BST::Branch(w, l, Box::new(r.spec_push(v)))
            },
        }
    }

    /// What inserting a whole node produces: the node is routed by its root
    /// value exactly as `spec_push` routes a plain value; inserting `Nil` into
    /// a non-empty tree yields `Nil`.
    pub open spec fn spec_push_node(self, node: BST) -> BST
        decreases self,
    {
        match self {
            BST::Nil => node,
            BST::Leaf(w) => if node is Nil {
                BST::Nil
            } else if node.root_value().unwrap() < w {
                BST::Branch(w, Box::new(node), Box::new(BST::Nil))
            } else {
                BST::Branch(w, Box::new(BST::Nil), Box::new(node))
            },
            BST::Branch(w, l, r) => if node is Nil {
                BST::Nil
            } else if node.root_value().unwrap() < w {
                BST::Branch(w, Box::new(l.spec_push_node(node)), r)
            } else {
                BST::Branch(w, l, Box::new(r.spec_push_node(node)))
            },
        }
    }

    /// Canonicalization after a delete: a branch left with two empty children
    /// becomes the leaf carrying the same value; every other tree is unchanged.
    pub open spec fn spec_downgrade(self) -> BST {
        match self {
            BST::Branch(v, l, r) => if (*l is Nil) && (*r is Nil) {
                BST::Leaf(v)
            } else {
                self
            },
            _ => self,
        }
    }

    /// What deleting `v` produces: the first node equal to `v` on the search
    /// path is removed (at most one node, even among duplicates). A node with
    /// one child is replaced by that child; a node with two children is
    /// replaced by its in-order successor, the minimum of the right subtree,
    /// which is in turn deleted from that subtree. Deleting an absent value
    /// leaves the tree as it was.
    pub open spec fn spec_delete(self, v: i64) -> BST
        decreases self,
    {
        match self {
            BST::Nil => BST::Nil,
            BST::Leaf(w) => if v == w {
                BST::Nil
            } else {
                self
            },
            BST::Branch(w, l, r) => if v < w {
                BST::Branch(w, Box::new(l.spec_delete(v)), r).spec_downgrade()
            } else if v > w {
                BST::Branch(w, l, Box::new(r.spec_delete(v))).spec_downgrade()
            } else if !(*l is Nil) && (*r is Nil) {
                *l
            } else if (*l is Nil) && !(*r is Nil) {
                *r
            } else if (*l is Nil) && (*r is Nil) {
                BST::Nil
            } else {
                BST::Branch(
                    r.spec_min().unwrap(),
                    l,
                    Box::new(r.spec_delete(r.spec_min().unwrap())),
                )
            },
        }
    }

    /// What looking `v` up returns: the stored value equal to `v`, found by
    /// binary search, or `None` if the search path ends without it.
    pub open spec fn spec_get(self, v: i64) -> Option<i64>
        decreases self,
    {
        match self {
            BST::Nil => None,
            BST::Leaf(w) => if w == v {
                Some(w)
            } else {
                None
            },
            BST::Branch(w, l, r) => if v == w {
                Some(w)
            } else if v < w {
                l.spec_get(v)
            } else {
                r.spec_get(v)
            },
        }
    }

    /// The value at the end of the all-left-children chain, or `None` on an
    /// empty tree.
    pub open spec fn spec_min(self) -> Option<i64>
        decreases self,
    {
        match self {
            BST::Nil => None,
            BST::Leaf(w) => Some(w),
            BST::Branch(w, l, _) => if *l is Nil {
                Some(w)
            } else {
                l.spec_min()
            },
        }
    }

    /// The value at the end of the all-right-children chain, or `None` on an
    /// empty tree.
    pub open spec fn spec_max(self) -> Option<i64>
        decreases self,
    {
        match self {
            BST::Nil => None,
            BST::Leaf(w) => Some(w),
            BST::Branch(w, _, r) => if *r is Nil {
                Some(w)
            } else {
                r.spec_max()
            },
        }
    }

    /// A new, empty tree.
    pub fn new() -> (r: BST)
        ensures
            r == BST::Nil,
            r.wf(),
    {
        BST::Nil
    }

    /// Insert `v`, returning the new tree. Only the path from the root to the
    /// insertion point is rebuilt; subtrees off that path are reused.
    pub fn push(self, v: i64) -> (r: BST)
        ensures
            r == self.spec_push(v),
            forall|x: i64| #[trigger] r.count(x) == self.count(x) + (if x == v {
                1nat
            } else {
                0nat
            }),
            self.ordered() ==> r.ordered(),
            self.wf() ==> r.wf(),
    {
        proof {
            lemma_push_node_leaf(self, v);
            crate::laws::lemma_push_wf(self, v);
            assert forall|x: i64| #[trigger] self.spec_push(v).count(x) == self.count(x) + (if x
                == v {
                1nat
            } else {
                0nat
            }) by {
                crate::laws::lemma_push_count(self, v, x);
            }
        }
        self.push_node(&BST::Leaf(v))
    }

    /// Insert a whole node, routed by its root value.
    pub fn push_node(self, node: &BST) -> (r: BST)
        ensures
            r == self.spec_push_node(*node),
        decreases self,
    {
        match self {
            BST::Nil => node.clone(),
            BST::Branch(value, left, right) => {
                match node {
                    BST::Nil => BST::Nil,
                    BST::Leaf(new_value) | BST::Branch(new_value, _, _) => {
                        if *new_value < value {
                            BST::Branch(value, Box::new((*left).push_node(node)), right)
                        } else {
                            BST::Branch(value, left, Box::new((*right).push_node(node)))
                        }
                    },
                }
            },
            BST::Leaf(value) => {
                match node {
                    BST::Nil => BST::Nil,
                    BST::Leaf(new_value) | BST::Branch(new_value, _, _) => {
                        if *new_value < value {
                            BST::Branch(value, Box::new(node.clone()), Box::new(BST::Nil))
                        } else {
                            BST::Branch(value, Box::new(BST::Nil), Box::new(node.clone()))
                        }
                    },
                }
            },
        }
    }

    /// Whether the tree is empty.
    fn is_nil(&self) -> (b: bool)
        ensures
            b == (*self is Nil),
    {
        match self {
            BST::Nil => true,
            _ => false,
        }
    }

    /// Return the stored value equal to `v`, or `None` if the tree holds no
    /// such value. A pure read: the tree is not changed.
    pub fn get(&self, v: &i64) -> (r: Option<i64>)
        ensures
            r == self.spec_get(*v),
            self.ordered() ==> r == (if self.contains(*v) {
                Some(*v)
            } else {
                None
            }),
        decreases self,
    {
        proof {
            if self.ordered() {
                crate::laws::lemma_get_correct(*self, *v);
            }
        }
        match self {
            BST::Leaf(value) => if *value == *v {
                Some(*value)
            } else {
                None
            },
            BST::Branch(value, left, right) => {
                if *v == *value {
                    Some(*value)
                } else if *v < *value {
                    left.get(v)
                } else {
                    right.get(v)
                }
            },
            BST::Nil => None,
        }
    }

    /// The minimum value of the tree, or `None` on an empty tree. On an
    /// ordered tree this bounds every stored value from below.
    pub fn min(&self) -> (r: Option<i64>)
        ensures
            r == self.spec_min(),
            (r is Some) <==> !(*self is Nil),
            self.ordered() ==> (r matches Some(m) ==> self.contains(m) && forall|x: i64|
                self.contains(x) ==> m <= x),
        decreases self,
    {
        proof {
            crate::laws::lemma_min(*self);
        }
        match self {
            BST::Nil => None,
            BST::Leaf(value) => Some(*value),
            BST::Branch(value, left, _) => {
                if left.is_nil() {
                    Some(*value)
                } else {
                    left.min()
                }
            },
        }
    }

    /// The maximum value of the tree, or `None` on an empty tree. On an
    /// ordered tree this bounds every stored value from above.
    pub fn max(&self) -> (r: Option<i64>)
        ensures
            r == self.spec_max(),
            (r is Some) <==> !(*self is Nil),
            self.ordered() ==> (r matches Some(m) ==> self.contains(m) && forall|x: i64|
                self.contains(x) ==> m >= x),
        decreases self,
    {
        proof {
            crate::laws::lemma_max(*self);
        }
        match self {
            BST::Nil => None,
            BST::Leaf(value) => Some(*value),
            BST::Branch(value, _, right) => {
                if right.is_nil() {
                    Some(*value)
                } else {
                    right.max()
                }
            },
        }
    }

    /// Delete the first node equal to `v` on the search path, returning the
    /// new tree; at most one node is removed, and deleting an absent value
    /// returns the tree as it was. Only the search path is rebuilt; subtrees
    /// off that path are reused.
    pub fn delete(self, v: i64) -> (r: BST)
        ensures
            r == self.spec_delete(v),
            self.ordered() ==> {
                &&& r.ordered()
                &&& (forall|x: i64| x != v ==> r.count(x) == self.count(x))
                &&& r.count(v) == (if self.count(v) == 0 {
                    0nat
                } else {
                    (self.count(v) - 1) as nat
                })
            },
            self.wf() ==> r.wf(),
        decreases self,
    {
        proof {
            if self.ordered() {
                crate::laws::lemma_delete(self, v);
            }
        }
        match self {
            BST::Nil => BST::Nil,
            BST::Leaf(value) => {
                if v == value {
                    BST::Nil
                } else {
                    BST::Leaf(value)
                }
            },
            BST::Branch(value, left, right) => {
                if v < value {
                    BST::Branch(value, Box::new((*left).delete(v)), right).downgrade()
                } else if v > value {
                    BST::Branch(value, left, Box::new((*right).delete(v))).downgrade()
                } else {
                    let left_nil = left.is_nil();
                    let right_nil = right.is_nil();
                    if !left_nil && right_nil {
                        // only a left child: promote it in place of this node
                        *left
                    } else if left_nil && !right_nil {
                        // only a right child: promote it in place of this node
                        *right
                    } else if left_nil && right_nil {
                        BST::Nil
                    } else {
                        // two children: replace this node by its in-order
                        // successor, the leftmost value of the right subtree
                        let replacement = right.min().unwrap();
                        BST::Branch(replacement, left, Box::new((*right).delete(replacement)))
                    }
                }
            },
        }
    }

    /// The values of the tree in in-order sequence, for diagnostics and for
    /// callers that want to walk a tree. On an ordered tree the result is
    /// non-decreasing.
    pub fn to_vec(&self) -> (r: Vec<i64>)
        ensures
            r@ == self.in_order(),
        decreases self,
    {
        match self {
            BST::Nil => Vec::new(),
            BST::Leaf(value) => {
                let mut r: Vec<i64> = Vec::new();
                r.push(*value);
                proof {
                    assert(r@ =~= self.in_order());
                }
                r
            },
            BST::Branch(value, left, right) => {
                let mut r = left.to_vec();
                r.push(*value);
                let mut rest = right.to_vec();
                r.append(&mut rest);
                proof {
                    assert(r@ =~= self.in_order());
                }
                r
            },
        }
    }

    /// Canonicalize a branch left with two empty children into a leaf.
    fn downgrade(self) -> (r: BST)
        ensures
            r == self.spec_downgrade(),
    {
        match self {
            BST::Branch(value, left, right) => {
                if left.is_nil() && right.is_nil() {
                    BST::Leaf(value)
                } else {
                    BST::Branch(value, left, right)
                }
            },
            other => other,
        }
    }
}

/// Pushing a single value is the same as pushing the leaf that carries it.
proof fn lemma_push_node_leaf(t: BST, v: i64)
    ensures
        t.spec_push_node(BST::Leaf(v)) == t.spec_push(v),
    decreases t,
{
    match t {
        BST::Nil => {},
        BST::Leaf(_) => {},
        BST::Branch(w, l, r) => {
            lemma_push_node_leaf(*l, v);
            lemma_push_node_leaf(*r, v);
        },
    }
}

} // verus!
