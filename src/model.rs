use vstd::prelude::*;

verus! {

/// The value that `op` returns on `(a, b)`; meaningful for a deterministic `op`.
pub open spec fn apply<T, F: Fn(&T, &T) -> T>(op: F, a: T, b: T) -> T {
    choose|r: T| call_ensures(op, (&a, &b), r)
}

/// `op` may be called on any pair of items.
pub open spec fn callable<T, F: Fn(&T, &T) -> T>(op: F) -> bool {
    forall|a: &T, b: &T| #[trigger] call_requires(op, (a, b))
}

/// `op` is a pure function of its two arguments.
pub open spec fn deterministic<T, F: Fn(&T, &T) -> T>(op: F) -> bool {
    forall|a: T, b: T, r: T| #[trigger] call_ensures(op, (&a, &b), r) ==> r == apply(op, a, b)
}

/// An operator that the scan can run: total and pure.
pub open spec fn valid_op<T, F: Fn(&T, &T) -> T>(op: F) -> bool {
    callable(op) && deterministic(op)
}

/// Grouping does not matter: `(a op b) op c == a op (b op c)`.
pub open spec fn associative<T, F: Fn(&T, &T) -> T>(op: F) -> bool {
    forall|a: T, b: T, c: T| #[trigger]
        apply(op, apply(op, a, b), c) == apply(op, a, apply(op, b, c))
}

/// `e` is neutral on the left of `op`: the side on which offsets are combined.
pub open spec fn left_identity<T, F: Fn(&T, &T) -> T>(op: F, e: T) -> bool {
    forall|x: T| #[trigger] apply(op, e, x) == x
}

/// Left-to-right fold of `s`, seeded with `acc`.
pub open spec fn fold<T, F: Fn(&T, &T) -> T>(op: F, acc: T, s: Seq<T>) -> T
    decreases s.len(),
{
    if s.len() == 0 {
        acc
    } else {
        apply(op, fold(op, acc, s.drop_last()), s.last())
    }
}

/// Every intermediate value of the fold of `s` seeded with `acc`: entry `i`
/// combines `acc` with the first `i + 1` items.
pub open spec fn running<T, F: Fn(&T, &T) -> T>(op: F, acc: T, s: Seq<T>) -> Seq<T> {
    Seq::new(s.len(), |i: int| fold(op, acc, s.take(i + 1)))
}

/// The literal left-to-right scan: entry `i` is the fold of `s[0..=i]` seeded
/// with `identity`.
pub open spec fn sequential_scan<T, F: Fn(&T, &T) -> T>(op: F, identity: T, s: Seq<T>) -> Seq<T> {
    running(op, identity, s)
}

/// A range of `len` items is scanned sequentially when it is no longer than
/// `leaf_size`; a range of one item always is.
pub open spec fn is_leaf(len: nat, leaf_size: nat) -> bool {
    len <= leaf_size || len <= 1
}

/// Where a range of `len` items is split: its left half is the shorter one.
pub open spec fn split_len(len: nat) -> nat {
    len / 2
}

/// The total of `s` as the split tree computes it: a leaf folds its items
/// from `identity`, an inner node combines the totals of its two halves.
pub open spec fn tree_total<T, F: Fn(&T, &T) -> T>(op: F, identity: T, s: Seq<T>, leaf_size: nat) -> T
    decreases s.len(),
{
    if is_leaf(s.len(), leaf_size) {
        fold(op, identity, s)
    } else {
        let m = split_len(s.len()) as int;
        apply(
            op,
            tree_total(op, identity, s.take(m), leaf_size),
            tree_total(op, identity, s.skip(m), leaf_size),
        )
    }
}

/// The scan of `s` as the split tree computes it, given `offset`, the
/// combination of everything left of `s`: a leaf runs its fold from `offset`;
/// the right half of an inner node starts from `offset` combined with the
/// total of the left half.
pub open spec fn tree_scan<T, F: Fn(&T, &T) -> T>(
    op: F,
    identity: T,
    offset: T,
    s: Seq<T>,
    leaf_size: nat,
) -> Seq<T>
    decreases s.len(),
{
    if is_leaf(s.len(), leaf_size) {
        running(op, offset, s)
    } else {
        let m = split_len(s.len()) as int;
        tree_scan(op, identity, offset, s.take(m), leaf_size) + tree_scan(
            op,
            identity,
            apply(op, offset, tree_total(op, identity, s.take(m), leaf_size)),
            s.skip(m),
            leaf_size,
        )
    }
}

/// The parallel scan of `s`: the split tree's scan from `identity`.
pub open spec fn parallel_scan<T, F: Fn(&T, &T) -> T>(op: F, identity: T, s: Seq<T>, leaf_size: nat) -> Seq<T> {
    tree_scan(op, identity, identity, s, leaf_size)
}

/// Extending `s` by one item extends its running fold by one value.
pub proof fn lemma_running_push<T, F: Fn(&T, &T) -> T>(op: F, acc: T, s: Seq<T>, x: T)
    ensures
        running(op, acc, s.push(x)) == running(op, acc, s).push(
            apply(op, fold(op, acc, s), x),
        ),
{
    let t = s.push(x);
    assert(t.drop_last() =~= s);
    assert(t.take(s.len() + 1 as int) =~= t);
    assert forall|k: int| 0 <= k < s.len() implies #[trigger] t.take(k + 1) == s.take(k + 1) by {
        assert(t.take(k + 1) =~= s.take(k + 1));
    }
    assert(running(op, acc, t) =~= running(op, acc, s).push(apply(op, fold(op, acc, s), x)));
}

/// The last value of a running fold is the fold itself.
pub proof fn lemma_running_last<T, F: Fn(&T, &T) -> T>(op: F, acc: T, s: Seq<T>)
    requires
        s.len() > 0,
    ensures
        running(op, acc, s).last() == fold(op, acc, s),
{
    assert(s.take(s.len() as int) =~= s);
}

/// The split tree's scan has one value per item.
pub proof fn lemma_tree_scan_len<T, F: Fn(&T, &T) -> T>(
    op: F,
    identity: T,
    offset: T,
    s: Seq<T>,
    leaf_size: nat,
)
    ensures
        tree_scan(op, identity, offset, s, leaf_size).len() == s.len(),
    decreases s.len(),
{
    if !is_leaf(s.len(), leaf_size) {
        let m = split_len(s.len()) as int;
        lemma_tree_scan_len(op, identity, offset, s.take(m), leaf_size);
        lemma_tree_scan_len(
            op,
            identity,
            apply(op, offset, tree_total(op, identity, s.take(m), leaf_size)),
            s.skip(m),
            leaf_size,
        );
    }
}

} // verus!
