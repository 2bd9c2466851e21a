//! Laws relating sequences of tree operations, stated over the set model
//! that `insert`, `find` and `delete` are specified against.

use vstd::prelude::*;

use crate::order::TotalOrder;
use crate::tree::BinaryTree;

verus! {

/// The set reached from `s` by inserting each value of `values` in turn,
/// as a chain of `BinaryTree::insert` calls leaves the tree's model.
pub open spec fn insert_all<K>(s: Set<K>, values: Seq<K>) -> Set<K>
    decreases values.len(),
{
    if values.len() == 0 {
        s
    } else {
        insert_all(s.insert(values[0]), values.drop_first())
    }
}

/// Repeated insertion adds exactly the inserted values.
proof fn lemma_insert_all_contains<K>(s: Set<K>, values: Seq<K>, v: K)
    ensures
        insert_all(s, values).contains(v) <==> s.contains(v) || values.contains(v),
    decreases values.len(),
{
    if values.len() > 0 {
        lemma_insert_all_contains(s.insert(values[0]), values.drop_first(), v);
        if values.contains(v) {
            let i = choose|i: int| 0 <= i < values.len() && values[i] == v;
            if i > 0 {
                assert(values.drop_first()[i - 1] == v);
                assert(values.drop_first().contains(v));
            }
        }
        if values.drop_first().contains(v) {
            let j = choose|j: int| 0 <= j < values.drop_first().len() && values.drop_first()[j]
                == v;
            assert(values[j + 1] == v);
            assert(values.contains(v));
        }
        if v == values[0] {
            assert(values.contains(v));
        }
    }
}

/// A tree built by inserting a sequence of values into an empty tree finds
/// exactly the inserted values: `find` reports `true` for every value that
/// was inserted and `false` for every value that never was.
pub proof fn lemma_inserts_decide_find<T: TotalOrder>(t: BinaryTree<T>, values: Seq<T::V>)
    requires
        t@ == insert_all(Set::<T::V>::empty(), values),
    ensures
        forall|v: T::V| t@.contains(v) <==> values.contains(v),
{
    assert forall|v: T::V| t@.contains(v) <==> values.contains(v) by {
        lemma_insert_all_contains(Set::<T::V>::empty(), values, v);
    }
}

/// Inserting a value that is already present leaves the tree's model
/// unchanged, so every later `find` answers as before; the insertion itself
/// reports `false` by `insert`'s contract.
pub proof fn lemma_duplicate_insert_unchanged<T: TotalOrder>(
    t0: BinaryTree<T>,
    t1: BinaryTree<T>,
    v: T::V,
)
    requires
        t0@.contains(v),
        t1@ == t0@.insert(v),
    ensures
        t1@ == t0@,
{
    assert(t1@ =~= t0@);
}

/// After a deletion, the deleted value is no longer found, and every other
/// value is found exactly as before.
pub proof fn lemma_delete_removes_only_target<T: TotalOrder>(
    t0: BinaryTree<T>,
    t1: BinaryTree<T>,
    v: T::V,
)
    requires
        t1@ == t0@.remove(v),
    ensures
        !t1@.contains(v),
        forall|w: T::V| w != v ==> (t1@.contains(w) <==> t0@.contains(w)),
{
}

/// Deleting a value that was never inserted changes nothing: every value
/// reachable before stays reachable; the deletion itself reports `false` by
/// `delete`'s contract.
pub proof fn lemma_delete_absent_unchanged<T: TotalOrder>(
    t0: BinaryTree<T>,
    t1: BinaryTree<T>,
    v: T::V,
)
    requires
        !t0@.contains(v),
        t1@ == t0@.remove(v),
    ensures
        t1@ == t0@,
{
    assert(t1@ =~= t0@);
}

/// In a strictly ascending sequence, the tail holds exactly the values of
/// the whole sequence other than the head.
proof fn lemma_sorted_tail_contains<T: TotalOrder>(a: Seq<T::V>, e: T::V)
    requires
        a.len() > 0,
        forall|i: int, j: int| 0 <= i < j < a.len() ==> T::before(a[i], a[j]),
    ensures
        a.drop_first().contains(e) <==> (a.contains(e) && e != a[0]),
{
    if a.drop_first().contains(e) {
        let i = choose|i: int| 0 <= i < a.drop_first().len() && a.drop_first()[i] == e;
        assert(a[i + 1] == e);
        assert(a.contains(e));
        assert(T::before(a[0], a[i + 1]));
        if e == a[0] {
            T::before_irreflexive(e);
            assert(false);
        }
    }
    if a.contains(e) && e != a[0] {
        let i = choose|i: int| 0 <= i < a.len() && a[i] == e;
        assert(a.drop_first()[i - 1] == e);
        assert(a.drop_first().contains(e));
    }
}

/// Two strictly ascending sequences that hold the same values are the same
/// sequence: a sorted listing is determined by its set of values.
proof fn lemma_sorted_seq_unique<T: TotalOrder>(a: Seq<T::V>, b: Seq<T::V>)
    requires
        forall|i: int, j: int| 0 <= i < j < a.len() ==> T::before(a[i], a[j]),
        forall|i: int, j: int| 0 <= i < j < b.len() ==> T::before(b[i], b[j]),
        forall|e: T::V| a.contains(e) <==> b.contains(e),
    ensures
        a == b,
    decreases a.len(),
{
    if a.len() == 0 {
        if b.len() > 0 {
            assert(b.contains(b[0]));
            assert(a.contains(b[0]));
            let i = choose|i: int| 0 <= i < a.len() && a[i] == b[0];
            assert(false);
        }
        assert(a =~= b);
    } else {
        assert(a.contains(a[0]));
        assert(b.contains(a[0]));
        let k = choose|k: int| 0 <= k < b.len() && b[k] == a[0];
        assert(b.contains(b[0]));
        assert(a.contains(b[0]));
        let m = choose|m: int| 0 <= m < a.len() && a[m] == b[0];
        if k > 0 && m > 0 {
            assert(T::before(b[0], b[k]));
            assert(T::before(a[0], a[m]));
            T::before_transitive(a[0], b[0], a[0]);
            T::before_irreflexive(a[0]);
            assert(false);
        }
        assert(a[0] == b[0]);
        let at = a.drop_first();
        let bt = b.drop_first();
        assert forall|i: int, j: int| 0 <= i < j < at.len() implies T::before(at[i], at[j]) by {
            assert(at[i] == a[i + 1]);
            assert(at[j] == a[j + 1]);
        }
        assert forall|i: int, j: int| 0 <= i < j < bt.len() implies T::before(bt[i], bt[j]) by {
            assert(bt[i] == b[i + 1]);
            assert(bt[j] == b[j + 1]);
        }
        assert forall|e: T::V| at.contains(e) <==> bt.contains(e) by {
            lemma_sorted_tail_contains::<T>(a, e);
            lemma_sorted_tail_contains::<T>(b, e);
        }
        lemma_sorted_seq_unique::<T>(at, bt);
        assert forall|i: int| 0 <= i < a.len() implies a[i] == b[i] by {
            if i > 0 {
                assert(a[i] == at[i - 1]);
                assert(b[i] == bt[i - 1]);
            }
        }
        assert(a =~= b);
    }
}

/// After a successful deletion the surviving values keep their in-order
/// places: the new listing is the old one with the deleted entry alone cut
/// out.  In particular a two-children deletion, which rewrites a node with
/// its in-order successor, moves no surviving value relative to another.
pub proof fn lemma_delete_cuts_one_entry<T: TotalOrder>(
    t0: BinaryTree<T>,
    t1: BinaryTree<T>,
    v: T::V,
)
    requires
        t0.ordered(),
        t1.ordered(),
        t0@.contains(v),
        t1@ == t0@.remove(v),
    ensures
        exists|k: int|
            0 <= k < t0.in_order().len() && t0.in_order()[k] == v && t1.in_order()
                == t0.in_order().subrange(0, k) + t0.in_order().subrange(
                k + 1,
                t0.in_order().len() as int,
            ),
{
    t0.in_order_strictly_ascending();
    t1.in_order_strictly_ascending();
    let s0 = t0.in_order();
    let s1 = t1.in_order();
    assert(s0.contains(v));
    let k = choose|k: int| 0 <= k < s0.len() && s0[k] == v;
    let cut = s0.subrange(0, k) + s0.subrange(k + 1, s0.len() as int);
    assert forall|i: int, j: int| 0 <= i < j < cut.len() implies T::before(cut[i], cut[j]) by {
        let i0 = if i < k {
            i
        } else {
            i + 1
        };
        let j0 = if j < k {
            j
        } else {
            j + 1
        };
        assert(cut[i] == s0[i0]);
        assert(cut[j] == s0[j0]);
    }
    assert forall|e: T::V| cut.contains(e) <==> s1.contains(e) by {
        if cut.contains(e) {
            let i = choose|i: int| 0 <= i < cut.len() && cut[i] == e;
            let i0 = if i < k {
                i
            } else {
                i + 1
            };
            assert(s0[i0] == e);
            if e == v {
                if i0 < k {
                    assert(T::before(s0[i0], s0[k]));
                } else {
                    assert(T::before(s0[k], s0[i0]));
                }
                T::before_irreflexive(v);
                assert(false);
            }
            assert(t0@.contains(e));
            assert(t1@.contains(e));
            assert(s1.contains(e));
        }
        if s1.contains(e) {
            let i = choose|i: int| 0 <= i < s1.len() && s1[i] == e;
            assert(t1@.contains(s1[i]));
            assert(e != v);
            assert(t0@.contains(e));
            assert(s0.contains(e));
            let i0 = choose|i0: int| 0 <= i0 < s0.len() && s0[i0] == e;
            if i0 < k {
                assert(cut[i0] == e);
            } else {
                assert(i0 != k);
                assert(cut[i0 - 1] == e);
            }
            assert(cut.contains(e));
        }
    }
    lemma_sorted_seq_unique::<T>(s1, cut);
    assert(0 <= k < s0.len() && s0[k] == v && s1 == s0.subrange(0, k) + s0.subrange(
        k + 1,
        s0.len() as int,
    ));
}

} // verus!
