//! An unbalanced binary search tree over any type with a [`TotalOrder`].
//!
//! The tree is modelled as the `Set` of the views of its stored values:
//! `insert`, `find` and `delete` are specified as `Set::insert`,
//! `Set::contains` and `Set::remove` on that model.  A type invariant keeps
//! every tree ordered, so the public operations need no preconditions.

use vstd::prelude::*;

use crate::order::Cmp;
use crate::order::TotalOrder;

verus! {

struct Node<T: TotalOrder> {
    value: T,
    left: Option<Box<Node<T>>>,
    right: Option<Box<Node<T>>>,
}

/// A set of unique values, kept in a binary search tree.
pub struct BinaryTree<T: TotalOrder> {
    root: Option<Box<Node<T>>>,
}

impl<T: TotalOrder> Node<T> {
    /// The views of the values stored in an optional subtree.
    spec fn opt_set(node: Option<Box<Node<T>>>) -> Set<T::V>
        decreases node,
    {
        match node {
            None => Set::empty(),
            Some(n) => Node::<T>::opt_set(n.left).union(Node::<T>::opt_set(n.right)).insert(
                n.value@,
            ),
        }
    }

    /// The views of the values stored in an optional subtree, in symmetric
    /// (in-order) traversal order: left subtree, node, right subtree.
    spec fn opt_in_order(node: Option<Box<Node<T>>>) -> Seq<T::V>
        decreases node,
    {
        match node {
            None => Seq::empty(),
            Some(n) => Node::<T>::opt_in_order(n.left) + seq![n.value@] + Node::<T>::opt_in_order(
                n.right,
            ),
        }
    }

    /// The views of the values in an optional subtree with their depths, in
    /// depth-first pre-order: node first, then left subtree, then right.
    spec fn opt_pre_order(node: Option<Box<Node<T>>>, depth: int) -> Seq<(T::V, int)>
        decreases node,
    {
        match node {
            None => Seq::empty(),
            Some(n) => n.pre_order_of(depth),
        }
    }

    /// The pre-order pairs of the subtree rooted at this node.
    spec fn pre_order_of(self, depth: int) -> Seq<(T::V, int)>
        decreases self,
    {
        seq![(self.value@, depth)] + Node::<T>::opt_pre_order(self.left, depth + 1)
            + Node::<T>::opt_pre_order(self.right, depth + 1)
    }

    /// The search-tree order: everything on the left is strictly before the
    /// node's value, everything on the right strictly after, recursively.
    spec fn ordered(self) -> bool
        decreases self,
    {
        &&& (forall|e: T::V|
            #[trigger] Node::<T>::opt_set(self.left).contains(e) ==> T::before(e, self.value@))
        &&& (forall|e: T::V|
            #[trigger] Node::<T>::opt_set(self.right).contains(e) ==> T::before(self.value@, e))
        &&& (match self.left {
            Some(n) => n.ordered(),
            None => true,
        })
        &&& (match self.right {
            Some(n) => n.ordered(),
            None => true,
        })
    }
}

impl<T: TotalOrder> BinaryTree<T> {
    /// The tree, seen as the set of views of its values.
    pub closed spec fn as_set(self) -> Set<T::V> {
        Node::<T>::opt_set(self.root)
    }

    /// The search-tree invariant.  As the type invariant it holds of every
    /// reachable tree; exec callers recover it with `use_type_invariant`.
    #[verifier::type_invariant]
    pub closed spec fn ordered(self) -> bool {
        match self.root {
            Some(n) => n.ordered(),
            None => true,
        }
    }
}

impl<T: TotalOrder> Node<T> {
    /// In an ordered subtree, the in-order sequence lists exactly the stored
    /// views, in strictly ascending order.
    proof fn lemma_opt_in_order_sorted(node: Option<Box<Node<T>>>)
        requires
            node.is_some() ==> node.unwrap().ordered(),
        ensures
            forall|i: int|
                0 <= i < Node::<T>::opt_in_order(node).len() ==> Node::<T>::opt_set(node).contains(
                    #[trigger] Node::<T>::opt_in_order(node)[i],
                ),
            forall|e: T::V|
                #[trigger] Node::<T>::opt_set(node).contains(e) ==> Node::<T>::opt_in_order(
                    node,
                ).contains(e),
            forall|i: int, j: int|
                0 <= i < j < Node::<T>::opt_in_order(node).len() ==> T::before(
                    Node::<T>::opt_in_order(node)[i],
                    Node::<T>::opt_in_order(node)[j],
                ),
        decreases node,
    {
        match node {
            None => {
            },
            Some(n) => {
                Self::lemma_opt_in_order_sorted(n.left);
                Self::lemma_opt_in_order_sorted(n.right);
                let s = Node::<T>::opt_in_order(node);
                let l = Node::<T>::opt_in_order(n.left);
                let r = Node::<T>::opt_in_order(n.right);
                let ll = l.len() as int;
                assert forall|i: int| 0 <= i < s.len() implies Node::<T>::opt_set(node).contains(
                    #[trigger] s[i],
                ) by {
                    if i < ll {
                        assert(s[i] == l[i]);
                        assert(Node::<T>::opt_set(n.left).contains(l[i]));
                    } else if i == ll {
                        assert(s[i] == n.value@);
                    } else {
                        assert(s[i] == r[i - ll - 1]);
                        assert(Node::<T>::opt_set(n.right).contains(r[i - ll - 1]));
                    }
                }
                assert forall|e: T::V| #[trigger]
                    Node::<T>::opt_set(node).contains(e) implies s.contains(e) by {
                    if Node::<T>::opt_set(n.left).contains(e) {
                        assert(l.contains(e));
                        let i = choose|i: int| 0 <= i < l.len() && l[i] == e;
                        assert(s[i] == e);
                        assert(s.contains(e));
                    } else if e == n.value@ {
                        assert(s[ll] == e);
                        assert(s.contains(e));
                    } else {
                        assert(Node::<T>::opt_set(n.right).contains(e));
                        assert(r.contains(e));
                        let i = choose|i: int| 0 <= i < r.len() && r[i] == e;
                        assert(s[ll + 1 + i] == e);
                        assert(s.contains(e));
                    }
                }
                assert forall|i: int, j: int| 0 <= i < j < s.len() implies T::before(
                    s[i],
                    s[j],
                ) by {
                    if j < ll {
                    } else if i < ll && j == ll {
                        assert(Node::<T>::opt_set(n.left).contains(l[i]));
                    } else if i < ll && j > ll {
                        assert(Node::<T>::opt_set(n.left).contains(l[i]));
                        assert(Node::<T>::opt_set(n.right).contains(r[j - ll - 1]));
                        T::before_transitive(l[i], n.value@, r[j - ll - 1]);
                    } else if i == ll && j > ll {
                        assert(Node::<T>::opt_set(n.right).contains(r[j - ll - 1]));
                    }
                }
            },
        }
    }
}

impl<T: TotalOrder> Node<T> {
    /// The pre-order pairs of a subtree list the views of exactly its stored
    /// values, one pair per node, whatever the starting depth.
    proof fn lemma_opt_pre_order_members(node: Option<Box<Node<T>>>, depth: int)
        ensures
            Node::<T>::opt_pre_order(node, depth).len() == Node::<T>::opt_in_order(node).len(),
            forall|i: int|
                0 <= i < Node::<T>::opt_pre_order(node, depth).len() ==> Node::<T>::opt_set(
                    node,
                ).contains(#[trigger] Node::<T>::opt_pre_order(node, depth)[i].0),
            forall|e: T::V|
                #[trigger] Node::<T>::opt_set(node).contains(e) ==> exists|i: int|
                    0 <= i < Node::<T>::opt_pre_order(node, depth).len()
                        && Node::<T>::opt_pre_order(node, depth)[i].0 == e,
        decreases node,
    {
        match node {
            None => {
            },
            Some(n) => {
                Self::lemma_opt_pre_order_members(n.left, depth + 1);
                Self::lemma_opt_pre_order_members(n.right, depth + 1);
                let s = Node::<T>::opt_pre_order(node, depth);
                let lp = Node::<T>::opt_pre_order(n.left, depth + 1);
                let rp = Node::<T>::opt_pre_order(n.right, depth + 1);
                let ll = lp.len() as int;
                assert forall|i: int| 0 <= i < s.len() implies Node::<T>::opt_set(node).contains(
                    #[trigger] s[i].0,
                ) by {
                    if i == 0 {
                        assert(s[i].0 == n.value@);
                    } else if i <= ll {
                        assert(s[i] == lp[i - 1]);
                        assert(Node::<T>::opt_set(n.left).contains(lp[i - 1].0));
                    } else {
                        assert(s[i] == rp[i - ll - 1]);
                        assert(Node::<T>::opt_set(n.right).contains(rp[i - ll - 1].0));
                    }
                }
                assert forall|e: T::V| #[trigger]
                    Node::<T>::opt_set(node).contains(e) implies exists|i: int|
                    0 <= i < s.len() && s[i].0 == e by {
                    if e == n.value@ {
                        assert(s[0].0 == e);
                    } else if Node::<T>::opt_set(n.left).contains(e) {
                        let i = choose|i: int| 0 <= i < lp.len() && lp[i].0 == e;
                        assert(s[i + 1].0 == e);
                    } else {
                        assert(Node::<T>::opt_set(n.right).contains(e));
                        let i = choose|i: int| 0 <= i < rp.len() && rp[i].0 == e;
                        assert(s[ll + 1 + i].0 == e);
                    }
                }
            },
        }
    }

    /// Visit a subtree depth-first, node before left before right, pushing
    /// each value with its depth.  The depth never outruns the entries
    /// already pushed, which keeps the depth arithmetic in bounds.
    fn traverse_into<'a>(node: &'a Node<T>, depth: usize, out: &mut Vec<(&'a T, usize)>)
        requires
            depth <= old(out)@.len(),
        ensures
            final(out)@.len() == old(out)@.len() + node.pre_order_of(depth as int).len(),
            forall|i: int| 0 <= i < old(out)@.len() ==> final(out)@[i] == old(out)@[i],
            forall|i: int|
                old(out)@.len() <= i < final(out)@.len() ==> final(out)@[i].0@ == node.pre_order_of(
                    depth as int,
                )[i - old(out)@.len()].0 && final(out)@[i].1 as int == node.pre_order_of(
                    depth as int,
                )[i - old(out)@.len()].1,
        decreases *node,
    {
        let ghost pairs = node.pre_order_of(depth as int);
        out.push((&node.value, depth));
        let cur = out.len();
        proof {
            assert(depth + 1 <= cur);
        }
        if let Some(child) = &node.left {
            Self::traverse_into(&**child, depth + 1, out);
        }
        if let Some(child) = &node.right {
            Self::traverse_into(&**child, depth + 1, out);
        }
        proof {
            let lp = Node::<T>::opt_pre_order(node.left, depth as int + 1);
            let rp = Node::<T>::opt_pre_order(node.right, depth as int + 1);
            assert(pairs =~= seq![(node.value@, depth as int)] + lp + rp);
        }
    }
}

impl<T: TotalOrder> BinaryTree<T> {
    /// The views of the stored values, as an in-order traversal lists them.
    pub closed spec fn in_order(self) -> Seq<T::V> {
        Node::<T>::opt_in_order(self.root)
    }

    /// The search-tree invariant, observed at the model: the in-order
    /// traversal of a reachable tree lists exactly the stored views, in
    /// strictly ascending order, so it holds no duplicates.
    pub proof fn in_order_strictly_ascending(&self)
        requires
            self.ordered(),
        ensures
            forall|i: int|
                0 <= i < self.in_order().len() ==> self@.contains(#[trigger] self.in_order()[i]),
            forall|e: T::V| #[trigger] self@.contains(e) ==> self.in_order().contains(e),
            forall|i: int, j: int|
                0 <= i < j < self.in_order().len() ==> T::before(
                    self.in_order()[i],
                    self.in_order()[j],
                ),
    {
        Node::<T>::lemma_opt_in_order_sorted(self.root);
    }
}

impl<T: TotalOrder> View for BinaryTree<T> {
    type V = Set<T::V>;

    open spec fn view(&self) -> Set<T::V> {
        self.as_set()
    }
}

impl<T: TotalOrder> Default for BinaryTree<T> {
    /// The empty tree.
    fn default() -> (tree: Self)
        ensures
            tree@ == Set::<T::V>::empty(),
    {
        BinaryTree::<T> { root: None }
    }
}

impl<T: TotalOrder> Node<T> {
    /// Membership test against the node's value, descending left or right
    /// by the order.
    fn find_in(node: &Option<Box<Node<T>>>, value: &T) -> (found: bool)
        requires
            node.is_some() ==> node.unwrap().ordered(),
        ensures
            found == Node::<T>::opt_set(*node).contains(value@),
        decreases node,
    {
        match node {
            None => false,
            Some(n) => match value.compare_to(&n.value) {
                Cmp::Equal => true,
                Cmp::Less => {
                    proof {
                        if value@ == n.value@ {
                            T::before_irreflexive(value@);
                        }
                        if Node::<T>::opt_set(n.right).contains(value@) {
                            T::before_transitive(value@, n.value@, value@);
                            T::before_irreflexive(value@);
                        }
                    }
                    Self::find_in(&n.left, value)
                },
                Cmp::Greater => {
                    proof {
                        if value@ == n.value@ {
                            T::before_irreflexive(value@);
                        }
                        if Node::<T>::opt_set(n.left).contains(value@) {
                            T::before_transitive(value@, n.value@, value@);
                            T::before_irreflexive(value@);
                        }
                    }
                    Self::find_in(&n.right, value)
                },
            },
        }
    }

    /// Insert a value, keeping the order; reports whether a node was added.
    fn insert_into(node: &mut Option<Box<Node<T>>>, value: T) -> (inserted: bool)
        requires
            old(node).is_some() ==> old(node).unwrap().ordered(),
        ensures
            final(node).is_some() ==> final(node).unwrap().ordered(),
            Node::<T>::opt_set(*final(node)) =~= Node::<T>::opt_set(*old(node)).insert(value@),
            inserted == !Node::<T>::opt_set(*old(node)).contains(value@),
        decreases *old(node),
    {
        match node.take() {
            None => {
                *node = Some(
                    Box::new(Node::<T> { value, left: None, right: None }),
                );
                true
            },
            Some(mut n) => match value.compare_to(&n.value) {
                Cmp::Equal => {
                    *node = Some(n);
                    false
                },
                Cmp::Less => {
                    proof {
                        if value@ == n.value@ {
                            T::before_irreflexive(value@);
                        }
                        if Node::<T>::opt_set(n.right).contains(value@) {
                            T::before_transitive(value@, n.value@, value@);
                            T::before_irreflexive(value@);
                        }
                    }
                    let inserted = Self::insert_into(&mut n.left, value);
                    *node = Some(n);
                    inserted
                },
                Cmp::Greater => {
                    proof {
                        if value@ == n.value@ {
                            T::before_irreflexive(value@);
                        }
                        if Node::<T>::opt_set(n.left).contains(value@) {
                            T::before_transitive(value@, n.value@, value@);
                            T::before_irreflexive(value@);
                        }
                    }
                    let inserted = Self::insert_into(&mut n.right, value);
                    *node = Some(n);
                    inserted
                },
            },
        }
    }
}

impl<T: TotalOrder> Node<T> {
    /// Detach the least value of a non-empty subtree: the leftmost node is
    /// unlinked and its right child, if any, takes its place.
    fn pop_min(node: &mut Option<Box<Node<T>>>) -> (least: T)
        requires
            old(node).is_some(),
            old(node).unwrap().ordered(),
        ensures
            final(node).is_some() ==> final(node).unwrap().ordered(),
            Node::<T>::opt_set(*final(node)) =~= Node::<T>::opt_set(*old(node)).remove(least@),
            Node::<T>::opt_set(*old(node)).contains(least@),
            forall|e: T::V|
                #[trigger] Node::<T>::opt_set(*old(node)).contains(e) ==> e == least@
                    || T::before(least@, e),
        decreases *old(node),
    {
        let mut n = node.take().unwrap();
        match n.left {
            None => {
                proof {
                    assert(Node::<T>::opt_set(n.left) =~= Set::empty());
                    if Node::<T>::opt_set(n.right).contains(n.value@) {
                        assert(T::before(n.value@, n.value@));
                        T::before_irreflexive(n.value@);
                        assert(false);
                    }
                }
                *node = n.right;
                return n.value;
            },
            Some(_) => {
                let ghost left0 = n.left;
                let least = Self::pop_min(&mut n.left);
                proof {
                    // The popped value came from the left subtree, so it is
                    // before the node's value and before everything to the
                    // right of it.
                    assert(T::before(least@, n.value@));
                    if least@ == n.value@ {
                        T::before_irreflexive(least@);
                        assert(false);
                    }
                    if Node::<T>::opt_set(n.right).contains(least@) {
                        assert(T::before(n.value@, least@));
                        T::before_transitive(least@, n.value@, least@);
                        T::before_irreflexive(least@);
                        assert(false);
                    }
                    assert forall|e: T::V|
                        #[trigger] Node::<T>::opt_set(*old(node)).contains(e) implies e == least@
                        || T::before(least@, e) by {
                        if e == n.value@ {
                        } else if Node::<T>::opt_set(left0).contains(e) {
                        } else {
                            assert(Node::<T>::opt_set(n.right).contains(e));
                            assert(T::before(n.value@, e));
                            T::before_transitive(least@, n.value@, e);
                        }
                    }
                }
                *node = Some(n);
                least
            },
        }
    }

    /// Remove a value, keeping the order; reports whether one was removed.
    /// A node with two children takes its in-order successor, the least
    /// value of its right subtree, as its new value.
    fn delete_from(node: &mut Option<Box<Node<T>>>, value: T) -> (removed: bool)
        requires
            old(node).is_some() ==> old(node).unwrap().ordered(),
        ensures
            final(node).is_some() ==> final(node).unwrap().ordered(),
            Node::<T>::opt_set(*final(node)) =~= Node::<T>::opt_set(*old(node)).remove(value@),
            removed == Node::<T>::opt_set(*old(node)).contains(value@),
        decreases *old(node),
    {
        match node.take() {
            None => false,
            Some(mut n) => match value.compare_to(&n.value) {
                Cmp::Equal => {
                    proof {
                        if Node::<T>::opt_set(n.left).contains(value@) {
                            T::before_irreflexive(value@);
                        }
                        if Node::<T>::opt_set(n.right).contains(value@) {
                            T::before_irreflexive(value@);
                        }
                    }
                    if n.left.is_none() {
                        proof {
                            assert(Node::<T>::opt_set(n.left) =~= Set::empty());
                        }
                        *node = n.right;
                    } else if n.right.is_none() {
                        proof {
                            assert(Node::<T>::opt_set(n.right) =~= Set::empty());
                        }
                        *node = n.left;
                    } else {
                        let ghost right0 = n.right;
                        let succ = Self::pop_min(&mut n.right);
                        proof {
                            // The successor sits strictly between the old
                            // node value and the rest of the right subtree,
                            // and strictly after everything on the left.
                            assert(T::before(n.value@, succ@));
                            assert forall|e: T::V|
                                #[trigger] Node::<T>::opt_set(n.left).contains(e) implies T::before(
                                e,
                                succ@,
                            ) by {
                                T::before_transitive(e, n.value@, succ@);
                            }
                        }
                        n.value = succ;
                        *node = Some(n);
                        return true;
                    }
                    true
                },
                Cmp::Less => {
                    proof {
                        if value@ == n.value@ {
                            T::before_irreflexive(value@);
                        }
                        if Node::<T>::opt_set(n.right).contains(value@) {
                            T::before_transitive(value@, n.value@, value@);
                            T::before_irreflexive(value@);
                        }
                    }
                    let removed = Self::delete_from(&mut n.left, value);
                    *node = Some(n);
                    removed
                },
                Cmp::Greater => {
                    proof {
                        if value@ == n.value@ {
                            T::before_irreflexive(value@);
                        }
                        if Node::<T>::opt_set(n.left).contains(value@) {
                            T::before_transitive(value@, n.value@, value@);
                            T::before_irreflexive(value@);
                        }
                    }
                    let removed = Self::delete_from(&mut n.right, value);
                    *node = Some(n);
                    removed
                },
            },
        }
    }
}

impl<T: TotalOrder> BinaryTree<T> {
    /// Add `value` to the tree.  Returns `true` when a new node was created,
    /// `false` when an equal value was already present (the tree is then
    /// unchanged).
    pub fn insert(&mut self, value: T) -> (inserted: bool)
        ensures
            final(self)@ == old(self)@.insert(value@),
            inserted == !old(self)@.contains(value@),
    {
        proof {
            use_type_invariant(&*self);
        }
        let mut root = None;
        std::mem::swap(&mut root, &mut self.root);
        let inserted = Node::<T>::insert_into(&mut root, value);
        self.root = root;
        inserted
    }

    /// Report whether a value equal to `value` is stored in the tree.
    pub fn find(&self, value: T) -> (found: bool)
        ensures
            found == self@.contains(value@),
    {
        proof {
            use_type_invariant(&*self);
        }
        Node::<T>::find_in(&self.root, &value)
    }

    /// The stored views with their depths, as the depth-first pre-order walk
    /// visits them: a node before its left subtree, the left before the
    /// right, the root at depth zero.
    pub closed spec fn pre_order(self) -> Seq<(T::V, int)> {
        Node::<T>::opt_pre_order(self.root, 0)
    }

    /// The pre-order walk visits each stored value exactly once: its pairs
    /// are as many as the in-order listing's entries, every visited view is
    /// a stored one, and every stored view is visited.
    pub proof fn pre_order_lists_the_values(&self)
        ensures
            self.pre_order().len() == self.in_order().len(),
            forall|i: int|
                0 <= i < self.pre_order().len() ==> self@.contains(
                    #[trigger] self.pre_order()[i].0,
                ),
            forall|e: T::V|
                #[trigger] self@.contains(e) ==> exists|i: int|
                    0 <= i < self.pre_order().len() && self.pre_order()[i].0 == e,
    {
        Node::<T>::lemma_opt_pre_order_members(self.root, 0);
    }

    /// Walk the tree depth-first, a node before its children, and collect
    /// each visited value with its depth.  This is the diagnostic dump the
    /// command loop prints; it does not change the tree.
    pub fn traverse(&self) -> (out: Vec<(&T, usize)>)
        ensures
            out@.len() == self.pre_order().len(),
            forall|i: int|
                0 <= i < out@.len() ==> out@[i].0@ == self.pre_order()[i].0 && out@[i].1 as int
                    == self.pre_order()[i].1,
    {
        let mut out: Vec<(&T, usize)> = Vec::new();
        match &self.root {
            None => out,
            Some(n) => {
                Node::<T>::traverse_into(&**n, 0, &mut out);
                out
            },
        }
    }

    /// Remove the value equal to `value`, if one is stored.  Returns `true`
    /// and removes it when present; returns `false` and leaves the tree
    /// unchanged otherwise.
    pub fn delete(&mut self, value: T) -> (removed: bool)
        ensures
            final(self)@ == old(self)@.remove(value@),
            removed == old(self)@.contains(value@),
    {
        proof {
            use_type_invariant(&*self);
        }
        let mut root = None;
        std::mem::swap(&mut root, &mut self.root);
        let removed = Node::<T>::delete_from(&mut root, value);
        self.root = root;
        removed
    }
}

} // verus!
