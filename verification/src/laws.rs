//! General properties of the tree operations, stated and proved once and for
//! all inputs.

use vstd::prelude::*;

use crate::tree::BST;

verus! {

/// A sequence whose entries are in non-decreasing order.
pub open spec fn sorted_seq(s: Seq<i64>) -> bool {
    forall|i: int, j: int| 0 <= i < j < s.len() ==> s[i] <= s[j]
}

/// On an ordered tree, lookup is membership: `get` returns `Some(v)` exactly
/// when some node holds `v`, and `None` exactly when none does.
pub proof fn lemma_get_correct(t: BST, v: i64)
    requires
        t.ordered(),
    ensures
        t.spec_get(v) == (if t.contains(v) {
            Some(v)
        } else {
            None
        }),
    decreases t,
{
    match t {
        BST::Nil => {},
        BST::Leaf(_) => {},
        BST::Branch(w, l, r) => {
            lemma_get_correct(*l, v);
            lemma_get_correct(*r, v);
            if v == w {
                assert(t.count(v) >= 1);
            } else if v < w {
                if r.contains(v) {
                    assert(v >= w);
                }
                assert(t.count(v) == l.count(v));
            } else {
                if l.contains(v) {
                    assert(v < w);
                }
                assert(t.count(v) == r.count(v));
            }
        },
    }
}

/// `min` returns a value exactly on non-empty trees, and on an ordered tree
/// the value it returns is stored in the tree and bounds every stored value
/// from below.
pub proof fn lemma_min(t: BST)
    ensures
        (t.spec_min() is Some) <==> !(t is Nil),
        t.ordered() ==> match t.spec_min() {
            Some(m) => t.contains(m) && forall|x: i64| t.contains(x) ==> m <= x,
            None => true,
        },
    decreases t,
{
    match t {
        BST::Nil => {},
        BST::Leaf(_) => {},
        BST::Branch(w, l, r) => {
            lemma_min(*l);
            if t.ordered() {
                if *l is Nil {
                    assert(t.contains(w)) by {
                        assert(t.count(w) >= 1);
                    }
                    assert forall|x: i64| t.contains(x) implies w <= x by {
                        assert(l.count(x) == 0);
                        if x != w {
                            assert(r.contains(x));
                        }
                    }
                } else {
                    let m = t.spec_min().unwrap();
                    assert(l.contains(m));
                    assert(t.contains(m)) by {
                        assert(t.count(m) >= l.count(m));
                    }
                    assert forall|x: i64| t.contains(x) implies m <= x by {
                        assert(m < w);
                        if x != w && !l.contains(x) {
                            assert(r.contains(x));
                        }
                    }
                }
            }
        },
    }
}

/// `max` returns a value exactly on non-empty trees, and on an ordered tree
/// the value it returns is stored in the tree and bounds every stored value
/// from above.
pub proof fn lemma_max(t: BST)
    ensures
        (t.spec_max() is Some) <==> !(t is Nil),
        t.ordered() ==> match t.spec_max() {
            Some(m) => t.contains(m) && forall|x: i64| t.contains(x) ==> m >= x,
            None => true,
        },
    decreases t,
{
    match t {
        BST::Nil => {},
        BST::Leaf(_) => {},
        BST::Branch(w, l, r) => {
            lemma_max(*r);
            if t.ordered() {
                if *r is Nil {
                    assert(t.contains(w)) by {
                        assert(t.count(w) >= 1);
                    }
                    assert forall|x: i64| t.contains(x) implies w >= x by {
                        assert(r.count(x) == 0);
                        if x != w {
                            assert(l.contains(x));
                        }
                    }
                } else {
                    let m = t.spec_max().unwrap();
                    assert(r.contains(m));
                    assert(t.contains(m)) by {
                        assert(t.count(m) >= r.count(m));
                    }
                    assert forall|x: i64| t.contains(x) implies m >= x by {
                        assert(m >= w);
                        if x != w && !r.contains(x) {
                            assert(l.contains(x));
                        }
                    }
                }
            }
        },
    }
}

/// Inserting `v` adds exactly one occurrence of `v` and leaves the count of
/// every other value unchanged, on any tree whatsoever.
pub proof fn lemma_push_count(t: BST, v: i64, x: i64)
    ensures
        t.spec_push(v).count(x) == t.count(x) + (if x == v {
            1nat
        } else {
            0nat
        }),
    decreases t,
{
    match t {
        BST::Nil => {
            assert(t.spec_push(v) == BST::Leaf(v));
        },
        BST::Leaf(w) => {
            if v < w {
                let p = BST::Branch(w, Box::new(BST::Leaf(v)), Box::new(BST::Nil));
                assert(t.spec_push(v) == p);
                assert(BST::Leaf(v).count(x) == (if v == x {
                    1nat
                } else {
                    0nat
                }));
                assert((BST::Nil).count(x) == 0);
            } else {
                let p = BST::Branch(w, Box::new(BST::Nil), Box::new(BST::Leaf(v)));
                assert(t.spec_push(v) == p);
                assert(BST::Leaf(v).count(x) == (if v == x {
                    1nat
                } else {
                    0nat
                }));
                assert((BST::Nil).count(x) == 0);
            }
        },
        BST::Branch(w, l, r) => {
            if v < w {
                lemma_push_count(*l, v, x);
                assert(t.spec_push(v) == BST::Branch(w, Box::new(l.spec_push(v)), r));
            } else {
                lemma_push_count(*r, v, x);
                assert(t.spec_push(v) == BST::Branch(w, l, Box::new(r.spec_push(v))));
            }
        },
    }
}

/// Inserting keeps a tree ordered and canonical, and never yields an empty
/// tree.
pub proof fn lemma_push_wf(t: BST, v: i64)
    ensures
        !(t.spec_push(v) is Nil),
        t.ordered() ==> t.spec_push(v).ordered(),
        t.canonical() ==> t.spec_push(v).canonical(),
    decreases t,
{
    match t {
        BST::Nil => {},
        BST::Leaf(w) => {
            if v < w {
                let p = BST::Branch(w, Box::new(BST::Leaf(v)), Box::new(BST::Nil));
                assert(t.spec_push(v) == p);
                assert forall|x: i64| BST::Leaf(v).contains(x) implies x < w by {
                    assert(BST::Leaf(v).count(x) > 0);
                }
                assert forall|x: i64| (BST::Nil).contains(x) implies x >= w by {
                    assert((BST::Nil).count(x) == 0);
                }
                assert(BST::Leaf(v).ordered());
                assert((BST::Nil).ordered());
                assert(BST::Leaf(v).canonical());
                assert((BST::Nil).canonical());
                assert(p.ordered());
                assert(p.canonical());
            } else {
                let p = BST::Branch(w, Box::new(BST::Nil), Box::new(BST::Leaf(v)));
                assert(t.spec_push(v) == p);
                assert forall|x: i64| BST::Leaf(v).contains(x) implies x >= w by {
                    assert(BST::Leaf(v).count(x) > 0);
                }
                assert forall|x: i64| (BST::Nil).contains(x) implies x < w by {
                    assert((BST::Nil).count(x) == 0);
                }
                assert(BST::Leaf(v).ordered());
                assert((BST::Nil).ordered());
                assert(BST::Leaf(v).canonical());
                assert((BST::Nil).canonical());
                assert(p.ordered());
                assert(p.canonical());
            }
        },
        BST::Branch(w, l, r) => {
            if v < w {
                lemma_push_wf(*l, v);
                let lp = l.spec_push(v);
                assert(t.spec_push(v) == BST::Branch(w, Box::new(lp), r));
                if t.ordered() {
                    assert forall|x: i64| lp.contains(x) implies x < w by {
                        lemma_push_count(*l, v, x);
                        if x != v {
                            assert(l.count(x) > 0);
                            assert(l.contains(x));
                        }
                    }
                    assert(BST::Branch(w, Box::new(lp), r).ordered());
                }
                if t.canonical() {
                    assert(BST::Branch(w, Box::new(lp), r).canonical());
                }
            } else {
                lemma_push_wf(*r, v);
                let rp = r.spec_push(v);
                assert(t.spec_push(v) == BST::Branch(w, l, Box::new(rp)));
                if t.ordered() {
                    assert forall|x: i64| rp.contains(x) implies x >= w by {
                        lemma_push_count(*r, v, x);
                        if x != v {
                            assert(r.count(x) > 0);
                            assert(r.contains(x));
                        }
                    }
                    assert(BST::Branch(w, l, Box::new(rp)).ordered());
                }
                if t.canonical() {
                    assert(BST::Branch(w, l, Box::new(rp)).canonical());
                }
            }
        },
    }
}

/// Canonicalization changes neither the contents of a tree nor its ordering.
proof fn lemma_downgrade(t: BST)
    ensures
        forall|x: i64| #[trigger] t.spec_downgrade().count(x) == t.count(x),
        t.ordered() ==> t.spec_downgrade().ordered(),
{
    match t {
        BST::Branch(v, l, r) => {
            if (*l is Nil) && (*r is Nil) {
                assert forall|x: i64| #[trigger] t.spec_downgrade().count(x) == t.count(x) by {
                    assert(l.count(x) == 0);
                    assert(r.count(x) == 0);
                }
            }
        },
        _ => {},
    }
}

/// Deleting `v` from an ordered tree keeps it ordered (and canonical, if it
/// was), removes exactly one occurrence of `v` when at least one is present,
/// and leaves the count of every other value unchanged.
pub proof fn lemma_delete(t: BST, v: i64)
    requires
        t.ordered(),
    ensures
        t.spec_delete(v).ordered(),
        t.canonical() ==> t.spec_delete(v).canonical(),
        forall|x: i64| x != v ==> #[trigger] t.spec_delete(v).count(x) == t.count(x),
        t.spec_delete(v).count(v) == (if t.count(v) == 0 {
            0nat
        } else {
            (t.count(v) - 1) as nat
        }),
    decreases t,
{
    match t {
        BST::Nil => {
            assert(t.spec_delete(v) == t);
        },
        BST::Leaf(w) => {
            if v == w {
                assert(t.spec_delete(v) == BST::Nil);
                assert forall|x: i64| x != v implies #[trigger] t.spec_delete(v).count(x)
                    == t.count(x) by {
                    assert(t.count(x) == 0);
                }
            } else {
                assert(t.spec_delete(v) == t);
            }
        },
        BST::Branch(w, l, r) => {
            if v < w {
                lemma_delete(*l, v);
                let d = l.spec_delete(v);
                let b = BST::Branch(w, Box::new(d), r);
                lemma_downgrade(b);
                assert(t.spec_delete(v) == b.spec_downgrade());
                if r.contains(v) {
                    assert(v >= w);
                }
                assert(r.count(v) == 0);
                assert forall|x: i64| d.contains(x) implies x < w by {
                    if x != v {
                        assert(d.count(x) == l.count(x));
                    }
                    assert(l.count(x) > 0);
                    assert(l.contains(x));
                }
                assert(b.ordered());
                assert forall|x: i64| x != v implies #[trigger] t.spec_delete(v).count(x)
                    == t.count(x) by {
                    assert(d.count(x) == l.count(x));
                    assert(b.spec_downgrade().count(x) == b.count(x));
                }
                assert(b.count(v) == d.count(v));
                assert(t.count(v) == l.count(v));
                if t.canonical() {
                    if (d is Nil) && (*r is Nil) {
                        assert(b.spec_downgrade() == BST::Leaf(w));
                    } else {
                        assert(b.spec_downgrade() == b);
                        assert(b.canonical());
                    }
                }
            } else if v > w {
                lemma_delete(*r, v);
                let d = r.spec_delete(v);
                let b = BST::Branch(w, l, Box::new(d));
                lemma_downgrade(b);
                assert(t.spec_delete(v) == b.spec_downgrade());
                if l.contains(v) {
                    assert(v < w);
                }
                assert(l.count(v) == 0);
                assert forall|x: i64| d.contains(x) implies x >= w by {
                    if x != v {
                        assert(d.count(x) == r.count(x));
                    }
                    assert(r.count(x) > 0);
                    assert(r.contains(x));
                }
                assert(b.ordered());
                assert forall|x: i64| x != v implies #[trigger] t.spec_delete(v).count(x)
                    == t.count(x) by {
                    assert(d.count(x) == r.count(x));
                    assert(b.spec_downgrade().count(x) == b.count(x));
                }
                assert(b.count(v) == d.count(v));
                assert(t.count(v) == r.count(v));
                if t.canonical() {
                    if (*l is Nil) && (d is Nil) {
                        assert(b.spec_downgrade() == BST::Leaf(w));
                    } else {
                        assert(b.spec_downgrade() == b);
                        assert(b.canonical());
                    }
                }
            } else {
                // v == w: this node is the one removed
                if l.contains(v) {
                    assert(v < w);
                }
                assert(l.count(v) == 0);
                if !(*l is Nil) && (*r is Nil) {
                    assert(t.spec_delete(v) == *l);
                    assert(t.count(v) == 1);
                    assert forall|x: i64| x != v implies #[trigger] t.spec_delete(v).count(x)
                        == t.count(x) by {
                        assert(r.count(x) == 0);
                    }
                } else if (*l is Nil) && !(*r is Nil) {
                    assert(t.spec_delete(v) == *r);
                    assert(t.count(v) == 1 + r.count(v));
                    assert forall|x: i64| x != v implies #[trigger] t.spec_delete(v).count(x)
                        == t.count(x) by {
                        assert(l.count(x) == 0);
                    }
                } else if (*l is Nil) && (*r is Nil) {
                    assert(t.spec_delete(v) == BST::Nil);
                    assert(t.count(v) == 1);
                    assert forall|x: i64| x != v implies #[trigger] t.spec_delete(v).count(x)
                        == t.count(x) by {
                        assert(l.count(x) == 0);
                        assert(r.count(x) == 0);
                        assert(t.count(x) == 0);
                    }
                } else {
                    // two children: the in-order successor replaces this node
                    lemma_min(*r);
                    let m = r.spec_min().unwrap();
                    assert(r.contains(m));
                    assert(m >= w);
                    lemma_delete(*r, m);
                    let d = r.spec_delete(m);
                    let res = BST::Branch(m, l, Box::new(d));
                    assert(t.spec_delete(v) == res);
                    assert forall|x: i64| l.contains(x) implies x < m by {
                        assert(x < w);
                    }
                    assert forall|x: i64| d.contains(x) implies x >= m by {
                        if x != m {
                            assert(d.count(x) == r.count(x));
                            assert(r.contains(x));
                        }
                    }
                    assert(res.ordered());
                    if m != v {
                        // a value equal to the root would itself be the
                        // minimum of the right subtree
                        if r.contains(v) {
                            assert(m <= v);
                        }
                        assert(r.count(v) == 0);
                        assert(d.count(v) == r.count(v));
                        assert(t.count(v) == 1);
                        assert(res.count(v) == 0);
                        assert forall|x: i64| x != v implies #[trigger] t.spec_delete(v).count(x)
                            == t.count(x) by {
                            if x == m {
                                assert(d.count(m) == (r.count(m) - 1) as nat);
                            } else {
                                assert(d.count(x) == r.count(x));
                            }
                        }
                    } else {
                        assert(d.count(v) == (r.count(v) - 1) as nat);
                        assert(res.count(v) == 1 + l.count(v) + d.count(v));
                        assert(t.count(v) == 1 + l.count(v) + r.count(v));
                        assert forall|x: i64| x != v implies #[trigger] t.spec_delete(v).count(x)
                            == t.count(x) by {
                            assert(d.count(x) == r.count(x));
                        }
                    }
                    if t.canonical() {
                        assert(res.canonical());
                    }
                }
            }
        },
    }
}

/// Every entry of the in-order traversal is a value stored in the tree.
proof fn lemma_in_order_elems(t: BST)
    ensures
        forall|i: int| 0 <= i < t.in_order().len() ==> t.contains(#[trigger] t.in_order()[i]),
    decreases t,
{
    match t {
        BST::Nil => {},
        BST::Leaf(w) => {
            assert(t.in_order() == seq![w]);
            assert(t.count(w) == 1);
        },
        BST::Branch(w, l, r) => {
            lemma_in_order_elems(*l);
            lemma_in_order_elems(*r);
            let ls = l.in_order();
            let rs = r.in_order();
            assert(t.in_order() == ls + seq![w] + rs);
            assert forall|i: int| 0 <= i < t.in_order().len() implies t.contains(
                #[trigger] t.in_order()[i],
            ) by {
                let y = t.in_order()[i];
                if i < ls.len() {
                    assert(y == ls[i]);
                    assert(l.contains(y));
                    assert(t.count(y) >= l.count(y));
                } else if i == ls.len() {
                    assert(y == w);
                    assert(t.count(w) >= 1);
                } else {
                    assert(y == rs[i - ls.len() - 1]);
                    assert(r.contains(y));
                    assert(t.count(y) >= r.count(y));
                }
            }
        },
    }
}

/// The ordering invariant in traversal form: the in-order traversal of an
/// ordered tree is a non-decreasing sequence. Since the empty tree is ordered
/// and both insert and delete preserve order, this holds of every tree
/// produced by any sequence of those operations.
pub proof fn lemma_in_order_sorted(t: BST)
    requires
        t.ordered(),
    ensures
        sorted_seq(t.in_order()),
    decreases t,
{
    match t {
        BST::Nil => {},
        BST::Leaf(_) => {},
        BST::Branch(w, l, r) => {
            lemma_in_order_sorted(*l);
            lemma_in_order_sorted(*r);
            lemma_in_order_elems(*l);
            lemma_in_order_elems(*r);
            let ls = l.in_order();
            let rs = r.in_order();
            let s = t.in_order();
            assert(s == ls + seq![w] + rs);
            assert forall|i: int, j: int| 0 <= i < j < s.len() implies s[i] <= s[j] by {
                if i < ls.len() {
                    assert(s[i] == ls[i]);
                    assert(l.contains(ls[i]));
                    assert(s[i] < w);
                } else if i == ls.len() {
                    assert(s[i] == w);
                } else {
                    assert(s[i] == rs[i - ls.len() - 1]);
                    assert(r.contains(rs[i - ls.len() - 1]));
                    assert(s[i] >= w);
                }
                if j < ls.len() {
                    assert(s[j] == ls[j]);
                } else if j == ls.len() {
                    assert(s[j] == w);
                } else {
                    assert(s[j] == rs[j - ls.len() - 1]);
                    assert(r.contains(rs[j - ls.len() - 1]));
                    assert(s[j] >= w);
                }
            }
        },
    }
}

/// Insert-then-get: looking up a value right after inserting it finds it.
pub proof fn lemma_push_then_get(t: BST, v: i64)
    requires
        t.ordered(),
    ensures
        t.spec_push(v).spec_get(v) == Some(v),
{
    lemma_push_wf(t, v);
    lemma_push_count(t, v, v);
    lemma_get_correct(t.spec_push(v), v);
}

/// Inserting `v` disturbs no other value: a lookup of any `k != v` answers
/// the same on the new tree as on the old one.
pub proof fn lemma_push_preserves_other_lookups(t: BST, v: i64, k: i64)
    requires
        t.ordered(),
        k != v,
    ensures
        t.spec_push(v).spec_get(k) == t.spec_get(k),
{
    lemma_push_wf(t, v);
    lemma_push_count(t, v, k);
    lemma_get_correct(t, k);
    lemma_get_correct(t.spec_push(v), k);
}

/// Delete-then-get: if `v` is stored exactly once, looking it up right after
/// deleting it finds nothing.
pub proof fn lemma_delete_then_get(t: BST, v: i64)
    requires
        t.ordered(),
        t.count(v) == 1,
    ensures
        t.spec_delete(v).spec_get(v) == None::<i64>,
{
    lemma_delete(t, v);
    lemma_get_correct(t.spec_delete(v), v);
}

/// Deleting an absent value is the identity: the result is structurally equal
/// to the tree it started from.
pub proof fn lemma_delete_absent(t: BST, v: i64)
    requires
        t.wf(),
        !t.contains(v),
    ensures
        t.spec_delete(v) == t,
    decreases t,
{
    match t {
        BST::Nil => {},
        BST::Leaf(w) => {
            assert(v != w);
        },
        BST::Branch(w, l, r) => {
            assert(l.count(v) == 0);
            assert(r.count(v) == 0);
            if v < w {
                lemma_delete_absent(*l, v);
                assert(t.spec_delete(v) == BST::Branch(w, Box::new(l.spec_delete(v)),
                r).spec_downgrade());
                assert(BST::Branch(w, Box::new(l.spec_delete(v)), r) == t);
                assert(t.spec_downgrade() == t);
            } else if v > w {
                lemma_delete_absent(*r, v);
                assert(t.spec_delete(v) == BST::Branch(w, l, Box::new(
                    r.spec_delete(v),
                )).spec_downgrade());
                assert(BST::Branch(w, l, Box::new(r.spec_delete(v))) == t);
                assert(t.spec_downgrade() == t);
            } else {
                assert(t.count(v) >= 1);
            }
        },
    }
}

} // verus!
