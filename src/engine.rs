use vstd::prelude::*;
use crate::laws::{law_length, law_parallel_is_sequential};
use crate::model::{
    apply, associative, fold, is_leaf, left_identity, lemma_running_last, lemma_running_push,
    parallel_scan, running, sequential_scan, split_len, tree_scan, tree_total, valid_op,
};

verus! {

/// The totals that the up-sweep learns, kept for the down-sweep: one per
/// inner node of the split tree, the total of its left half. Leaves keep
/// nothing. The shape mirrors the split tree of the range it was built for.
pub enum Totals<T> {
    Leaf,
    Node { left_total: T, left: Box<Totals<T>>, right: Box<Totals<T>> },
}

/// `t` holds the split tree's left totals for the items `s`.
pub open spec fn totals_match<T, F: Fn(&T, &T) -> T>(
    t: Totals<T>,
    op: F,
    identity: T,
    s: Seq<T>,
    leaf_size: nat,
) -> bool
    decreases s.len(),
{
    if is_leaf(s.len(), leaf_size) {
        t is Leaf
    } else {
        let m = split_len(s.len()) as int;
        match t {
            Totals::Node { left_total, left, right } => {
                &&& left_total == tree_total(op, identity, s.take(m), leaf_size)
                &&& totals_match(*left, op, identity, s.take(m), leaf_size)
                &&& totals_match(*right, op, identity, s.skip(m), leaf_size)
            },
            Totals::Leaf => false,
        }
    }
}

/// Ranges at most this long are scanned sequentially by `scan`.
pub const LEAF_SIZE: usize = 1024;

/// Where the range `[lo, hi)` is split.
pub fn split_point(lo: usize, hi: usize) -> (mid: usize)
    requires
        lo <= hi,
    ensures
        mid == lo + split_len((hi - lo) as nat),
        lo <= mid <= hi,
{
    lo + (hi - lo) / 2
}

/// Leaf scanner: the running fold of `items[lo..hi]`, seeded with `offset`,
/// one value per item, in order.
pub fn scan_leaf<T, F: Fn(&T, &T) -> T>(
    items: &Vec<T>,
    lo: usize,
    hi: usize,
    scan_op: &F,
    offset: &T,
) -> (out: Vec<T>)
    requires
        lo <= hi <= items.len(),
        valid_op(*scan_op),
    ensures
        out@ == running(*scan_op, *offset, items@.subrange(lo as int, hi as int)),
{
    let mut out: Vec<T> = Vec::new();
    let mut i: usize = lo;
    while i < hi
        invariant
            lo <= i <= hi <= items.len(),
            valid_op(*scan_op),
            out@ == running(*scan_op, *offset, items@.subrange(lo as int, i as int)),
        decreases hi - i,
    {
        let ghost s = items@.subrange(lo as int, i as int);
        let next = if i == lo {
            scan_op(offset, &items[i])
        } else {
            proof {
                lemma_running_last(*scan_op, *offset, s);
            }
            scan_op(&out[out.len() - 1], &items[i])
        };
        proof {
            assert(s.len() == 0 ==> fold(*scan_op, *offset, s) == *offset);
            lemma_running_push(*scan_op, *offset, s, items@[i as int]);
            assert(items@.subrange(lo as int, i + 1) =~= s.push(items@[i as int]));
        }
        out.push(next);
        i = i + 1;
    }
    out
}

/// Sequential aggregate of a leaf: the fold of the non-empty range
/// `items[lo..hi]`, seeded with `identity`.
pub fn fold_range<T, F: Fn(&T, &T) -> T>(
    items: &Vec<T>,
    lo: usize,
    hi: usize,
    scan_op: &F,
    identity: &T,
) -> (total: T)
    requires
        lo < hi <= items.len(),
        valid_op(*scan_op),
    ensures
        total == fold(*scan_op, *identity, items@.subrange(lo as int, hi as int)),
{
    proof {
        let one = items@.subrange(lo as int, lo + 1);
        assert(one.len() == 1);
        assert(one.drop_last() =~= Seq::<T>::empty());
        assert(one.last() == items@[lo as int]);
        assert(fold(*scan_op, *identity, one.drop_last()) == *identity);
        assert(fold(*scan_op, *identity, one) == apply(*scan_op, *identity, items@[lo as int]));
    }
    let mut acc = scan_op(identity, &items[lo]);
    let mut i: usize = lo + 1;
    while i < hi
        invariant
            lo < i <= hi <= items.len(),
            valid_op(*scan_op),
            acc == fold(*scan_op, *identity, items@.subrange(lo as int, i as int)),
        decreases hi - i,
    {
        proof {
            let s = items@.subrange(lo as int, i + 1);
            assert(s.len() > 0);
            assert(s.drop_last() =~= items@.subrange(lo as int, i as int));
        }
        acc = scan_op(&acc, &items[i]);
        i = i + 1;
    }
    acc
}

/// Up-sweep over the non-empty range `items[lo..hi]`: its total as the split
/// tree computes it, with the left total of every inner node. The two halves
/// of an inner node are swept in parallel.
pub fn up_sweep<T: Send + Sync, F: Fn(&T, &T) -> T + Sync>(
    items: &Vec<T>,
    lo: usize,
    hi: usize,
    scan_op: &F,
    identity: &T,
    leaf_size: usize,
) -> (r: (T, Totals<T>))
    requires
        lo < hi <= items.len(),
        valid_op(*scan_op),
    ensures
        r.0 == tree_total(
            *scan_op,
            *identity,
            items@.subrange(lo as int, hi as int),
            leaf_size as nat,
        ),
        totals_match(
            r.1,
            *scan_op,
            *identity,
            items@.subrange(lo as int, hi as int),
            leaf_size as nat,
        ),
    decreases hi - lo,
{
    let ghost s = items@.subrange(lo as int, hi as int);
    if hi - lo <= leaf_size || hi - lo <= 1 {
        (fold_range(items, lo, hi, scan_op, identity), Totals::Leaf)
    } else {
        let mid = split_point(lo, hi);
        proof {
            let m = split_len(s.len()) as int;
            assert(s.take(m) =~= items@.subrange(lo as int, mid as int));
            assert(s.skip(m) =~= items@.subrange(mid as int, hi as int));
        }
        let left_job = move || -> (r: (T, Totals<T>))
            requires
                lo < mid <= items.len(),
                valid_op(*scan_op),
            ensures
                r.0 == tree_total(
                    *scan_op,
                    *identity,
                    items@.subrange(lo as int, mid as int),
                    leaf_size as nat,
                ),
                totals_match(
                    r.1,
                    *scan_op,
                    *identity,
                    items@.subrange(lo as int, mid as int),
                    leaf_size as nat,
                ),
        {
            up_sweep(items, lo, mid, scan_op, identity, leaf_size)
        };
        let right_job = move || -> (r: (T, Totals<T>))
            requires
                mid < hi <= items.len(),
                valid_op(*scan_op),
            ensures
                r.0 == tree_total(
                    *scan_op,
                    *identity,
                    items@.subrange(mid as int, hi as int),
                    leaf_size as nat,
                ),
                totals_match(
                    r.1,
                    *scan_op,
                    *identity,
                    items@.subrange(mid as int, hi as int),
                    leaf_size as nat,
                ),
        {
            up_sweep(items, mid, hi, scan_op, identity, leaf_size)
        };
        let (left, right) = rayon::join(left_job, right_job);
        let (left_total, left_tree) = left;
        let (right_total, right_tree) = right;
        let total = scan_op(&left_total, &right_total);
        (total, Totals::Node { left_total, left: Box::new(left_tree), right: Box::new(right_tree) })
    }
}

/// Down-sweep over the non-empty range `items[lo..hi]`, given `offset`, the
/// combination of everything left of the range, and the left totals that the
/// up-sweep kept for it: the range's part of the scan. The left half runs in
/// parallel with the combination of the offset for the right half and the
/// right half itself.
pub fn down_sweep<T: Send + Sync, F: Fn(&T, &T) -> T + Sync>(
    items: &Vec<T>,
    lo: usize,
    hi: usize,
    scan_op: &F,
    identity: &T,
    offset: &T,
    totals: &Totals<T>,
    leaf_size: usize,
) -> (out: Vec<T>)
    requires
        lo < hi <= items.len(),
        valid_op(*scan_op),
        totals_match(
            *totals,
            *scan_op,
            *identity,
            items@.subrange(lo as int, hi as int),
            leaf_size as nat,
        ),
    ensures
        out@ == tree_scan(
            *scan_op,
            *identity,
            *offset,
            items@.subrange(lo as int, hi as int),
            leaf_size as nat,
        ),
    decreases hi - lo,
{
    let ghost s = items@.subrange(lo as int, hi as int);
    if hi - lo <= leaf_size || hi - lo <= 1 {
        scan_leaf(items, lo, hi, scan_op, offset)
    } else {
        let mid = split_point(lo, hi);
        proof {
            let m = split_len(s.len()) as int;
            assert(s.take(m) =~= items@.subrange(lo as int, mid as int));
            assert(s.skip(m) =~= items@.subrange(mid as int, hi as int));
        }
        match totals {
            Totals::Node { left_total, left, right } => {
                let left_tree: &Totals<T> = left;
                let right_tree: &Totals<T> = right;
                let left_job = move || -> (r: Vec<T>)
                    requires
                        lo < mid <= items.len(),
                        valid_op(*scan_op),
                        totals_match(
                            *left_tree,
                            *scan_op,
                            *identity,
                            items@.subrange(lo as int, mid as int),
                            leaf_size as nat,
                        ),
                    ensures
                        r@ == tree_scan(
                            *scan_op,
                            *identity,
                            *offset,
                            items@.subrange(lo as int, mid as int),
                            leaf_size as nat,
                        ),
                {
                    down_sweep(items, lo, mid, scan_op, identity, offset, left_tree, leaf_size)
                };
                let right_job = move || -> (r: Vec<T>)
                    requires
                        mid < hi <= items.len(),
                        valid_op(*scan_op),
                        totals_match(
                            *right_tree,
                            *scan_op,
                            *identity,
                            items@.subrange(mid as int, hi as int),
                            leaf_size as nat,
                        ),
                    ensures
                        r@ == tree_scan(
                            *scan_op,
                            *identity,
                            apply(*scan_op, *offset, *left_total),
                            items@.subrange(mid as int, hi as int),
                            leaf_size as nat,
                        ),
                {
                    let right_offset = scan_op(offset, left_total);
                    down_sweep(items, mid, hi, scan_op, identity, &right_offset, right_tree, leaf_size)
                };
                let (mut out, mut right_out) = rayon::join(left_job, right_job);
                out.append(&mut right_out);
                out
            },
            Totals::Leaf => Vec::new(),
        }
    }
}

/// Parallel prefix scan with a chosen leaf size: entry `i` of the result
/// combines `identity` with `items[0..=i]`. Ranges of at most `leaf_size`
/// items (and of one item) are folded sequentially; longer ones are split in
/// two halves that are handled in parallel. The result is a function of the
/// arguments alone, whatever the workers do; for an associative `scan_op`
/// with `identity` neutral on its left it is the sequential scan, for every
/// leaf size.
pub fn scan_with_leaf_size<T: Send + Sync, F: Fn(&T, &T) -> T + Sync>(
    items: &Vec<T>,
    scan_op: &F,
    identity: &T,
    leaf_size: usize,
) -> (out: Vec<T>)
    requires
        valid_op(*scan_op),
    ensures
        out@ == parallel_scan(*scan_op, *identity, items@, leaf_size as nat),
        out.len() == items.len(),
        associative(*scan_op) && left_identity(*scan_op, *identity) ==> out@ == sequential_scan(
            *scan_op,
            *identity,
            items@,
        ),
{
    proof {
        if associative(*scan_op) && left_identity(*scan_op, *identity) {
            law_parallel_is_sequential(*scan_op, *identity, items@, leaf_size as nat);
        }
        law_length(*scan_op, *identity, items@, leaf_size as nat);
    }
    if items.len() == 0 {
        return Vec::new();
    }
    let n = items.len();
    proof {
        assert(items@.subrange(0, n as int) =~= items@);
    }
    let (_, totals) = up_sweep(items, 0, n, scan_op, identity, leaf_size);
    down_sweep(items, 0, n, scan_op, identity, identity, &totals, leaf_size)
}

/// Parallel prefix scan: entry `i` of the result combines `identity` with
/// `items[0..=i]`, computed over a split tree whose leaves hold at most
/// `LEAF_SIZE` items.
pub fn scan<T: Send + Sync, F: Fn(&T, &T) -> T + Sync>(
    items: &Vec<T>,
    scan_op: F,
    identity: T,
) -> (out: Vec<T>)
    requires
        valid_op(scan_op),
    ensures
        out@ == parallel_scan(scan_op, identity, items@, LEAF_SIZE as nat),
        out.len() == items.len(),
        associative(scan_op) && left_identity(scan_op, identity) ==> out@ == sequential_scan(
            scan_op,
            identity,
            items@,
        ),
{
    scan_with_leaf_size(items, &scan_op, &identity, LEAF_SIZE)
}

} // verus!
