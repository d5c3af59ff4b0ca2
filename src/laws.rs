use vstd::prelude::*;
use crate::model::{
    apply, associative, fold, is_leaf, left_identity, parallel_scan, running, sequential_scan,
    split_len, tree_scan, tree_total,
};

verus! {

/// Folding a concatenation folds the second part from the fold of the first.
pub proof fn lemma_fold_concat<T, F: Fn(&T, &T) -> T>(op: F, acc: T, a: Seq<T>, b: Seq<T>)
    ensures
        fold(op, acc, a + b) == fold(op, fold(op, acc, a), b),
    decreases b.len(),
{
    if b.len() == 0 {
        assert(a + b =~= a);
    } else {
        assert((a + b).drop_last() =~= a + b.drop_last());
        lemma_fold_concat(op, acc, a, b.drop_last());
    }
}

/// With an associative operator and a left identity, combining `x` with the
/// fold of a non-empty `r` from the identity is the fold of `r` from `x`.
pub proof fn lemma_combine_fold<T, F: Fn(&T, &T) -> T>(op: F, identity: T, x: T, r: Seq<T>)
    requires
        associative(op),
        left_identity(op, identity),
        r.len() > 0,
    ensures
        apply(op, x, fold(op, identity, r)) == fold(op, x, r),
    decreases r.len(),
{
    let p = r.drop_last();
    if r.len() == 1 {
        assert(fold(op, identity, p) == identity);
        assert(fold(op, x, p) == x);
    } else {
        lemma_combine_fold(op, identity, x, p);
        assert(apply(op, apply(op, x, fold(op, identity, p)), r.last()) == apply(
            op,
            x,
            apply(op, fold(op, identity, p), r.last()),
        ));
    }
}

/// With an associative operator and a left identity, the split tree's total
/// of a non-empty sequence is its fold from the identity.
pub proof fn lemma_tree_total_is_fold<T, F: Fn(&T, &T) -> T>(
    op: F,
    identity: T,
    s: Seq<T>,
    leaf_size: nat,
)
    requires
        associative(op),
        left_identity(op, identity),
        s.len() > 0,
    ensures
        tree_total(op, identity, s, leaf_size) == fold(op, identity, s),
    decreases s.len(),
{
    if !is_leaf(s.len(), leaf_size) {
        let m = split_len(s.len()) as int;
        let l = s.take(m);
        let r = s.skip(m);
        lemma_tree_total_is_fold(op, identity, l, leaf_size);
        lemma_tree_total_is_fold(op, identity, r, leaf_size);
        lemma_combine_fold(op, identity, fold(op, identity, l), r);
        lemma_fold_concat(op, identity, l, r);
        assert(l + r =~= s);
    }
}

/// The running fold of a concatenation is the running fold of the first part
/// followed by the running fold of the second, seeded with the fold of the
/// first.
pub proof fn lemma_running_concat<T, F: Fn(&T, &T) -> T>(op: F, acc: T, a: Seq<T>, b: Seq<T>)
    ensures
        running(op, acc, a + b) == running(op, acc, a) + running(op, fold(op, acc, a), b),
{
    let lhs = running(op, acc, a + b);
    let rhs = running(op, acc, a) + running(op, fold(op, acc, a), b);
    assert forall|k: int| 0 <= k < lhs.len() implies #[trigger] lhs[k] == rhs[k] by {
        if k < a.len() {
            assert((a + b).take(k + 1) =~= a.take(k + 1));
        } else {
            let j = k - a.len();
            assert((a + b).take(k + 1) =~= a + b.take(j + 1));
            lemma_fold_concat(op, acc, a, b.take(j + 1));
        }
    }
    assert(lhs =~= rhs);
}

/// With an associative operator and a left identity, the split tree's scan
/// from any offset is the running fold from that offset.
pub proof fn lemma_tree_scan_is_running<T, F: Fn(&T, &T) -> T>(
    op: F,
    identity: T,
    offset: T,
    s: Seq<T>,
    leaf_size: nat,
)
    requires
        associative(op),
        left_identity(op, identity),
    ensures
        tree_scan(op, identity, offset, s, leaf_size) == running(op, offset, s),
    decreases s.len(),
{
    if !is_leaf(s.len(), leaf_size) {
        let m = split_len(s.len()) as int;
        let l = s.take(m);
        let r = s.skip(m);
        lemma_tree_total_is_fold(op, identity, l, leaf_size);
        lemma_combine_fold(op, identity, offset, l);
        let right_offset = apply(op, offset, tree_total(op, identity, l, leaf_size));
        lemma_tree_scan_is_running(op, identity, offset, l, leaf_size);
        lemma_tree_scan_is_running(op, identity, right_offset, r, leaf_size);
        lemma_running_concat(op, offset, l, r);
        assert(l + r =~= s);
    }
}

/// For an associative operator whose identity is neutral on the left, the
/// parallel scan equals the literal left-to-right scan: entry `i` is the fold
/// of the first `i + 1` items from the identity.
pub proof fn law_parallel_is_sequential<T, F: Fn(&T, &T) -> T>(
    op: F,
    identity: T,
    s: Seq<T>,
    leaf_size: nat,
)
    requires
        associative(op),
        left_identity(op, identity),
    ensures
        parallel_scan(op, identity, s, leaf_size) == sequential_scan(op, identity, s),
        forall|i: int|
            0 <= i < s.len() ==> #[trigger] parallel_scan(op, identity, s, leaf_size)[i] == fold(
                op,
                identity,
                s.take(i + 1),
            ),
{
    lemma_tree_scan_is_running(op, identity, identity, s, leaf_size);
}

/// The parallel scan has exactly one value per item; an empty input gives an
/// empty result.
pub proof fn law_length<T, F: Fn(&T, &T) -> T>(op: F, identity: T, s: Seq<T>, leaf_size: nat)
    ensures
        parallel_scan(op, identity, s, leaf_size).len() == s.len(),
        s.len() == 0 ==> parallel_scan(op, identity, s, leaf_size) == Seq::<T>::empty(),
{
    crate::model::lemma_tree_scan_len(op, identity, identity, s, leaf_size);
    if s.len() == 0 {
        assert(parallel_scan(op, identity, s, leaf_size) =~= Seq::<T>::empty());
    }
}

/// The scan of a single item `x` is the single value `scan_op(identity, x)`,
/// whatever the operator and the leaf size.
pub proof fn law_singleton<T, F: Fn(&T, &T) -> T>(op: F, identity: T, x: T, leaf_size: nat)
    ensures
        parallel_scan(op, identity, seq![x], leaf_size) == seq![apply(op, identity, x)],
{
    let s = seq![x];
    assert(s.take(1) =~= s);
    assert(s.drop_last() =~= Seq::<T>::empty());
    assert(fold(op, identity, s.drop_last()) == identity);
    assert(parallel_scan(op, identity, s, leaf_size) =~= seq![apply(op, identity, x)]);
}

/// When `identity` is neutral on the left of the operator, replacing the item
/// at position `k` by `scan_op(identity, item)` leaves every value of the scan
/// unchanged, at that position and after it alike.
pub proof fn law_identity_neutral<T, F: Fn(&T, &T) -> T>(
    op: F,
    identity: T,
    s: Seq<T>,
    k: int,
    leaf_size: nat,
)
    requires
        left_identity(op, identity),
        0 <= k < s.len(),
    ensures
        parallel_scan(op, identity, s.update(k, apply(op, identity, s[k])), leaf_size)
            == parallel_scan(op, identity, s, leaf_size),
{
    assert(s.update(k, apply(op, identity, s[k])) =~= s);
}

/// For an associative operator whose identity is neutral on the left, the
/// leaf size, and with it every split boundary, changes none of the values.
pub proof fn law_split_invariance<T, F: Fn(&T, &T) -> T>(
    op: F,
    identity: T,
    s: Seq<T>,
    leaf_size_a: nat,
    leaf_size_b: nat,
)
    requires
        associative(op),
        left_identity(op, identity),
    ensures
        parallel_scan(op, identity, s, leaf_size_a) == parallel_scan(op, identity, s, leaf_size_b),
{
    law_parallel_is_sequential(op, identity, s, leaf_size_a);
    law_parallel_is_sequential(op, identity, s, leaf_size_b);
}

} // verus!
