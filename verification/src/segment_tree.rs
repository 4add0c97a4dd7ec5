//! The segment tree.
use crate::monoid::{
    lemma_product_single, lemma_product_split, lemma_product_units, lemma_range_product_single,
    product, range_product, Monoid,
};
use crate::pow2::{
    ceil_pow2, lemma_ceil_pow2, lemma_ceil_pow2_least, lemma_double_ceil_pow2_fits,
    lemma_pow2_gap, lemma_pow2_step,
};
use vstd::arithmetic::power2::is_pow2;
use vstd::prelude::*;

verus! {

/// In the buffer `nodes`, node `k` holds the combination of its two children,
/// which are the nodes `2 * k` and `2 * k + 1`.
pub open spec fn node_consistent<T: Monoid>(nodes: Seq<T>, k: int) -> bool {
    nodes[k] == nodes[2 * k].combine(nodes[2 * k + 1])
}

/// `values`, followed by as many neutral elements as it takes to reach the
/// length `len`.
pub open spec fn padded<T: Monoid>(values: Seq<T>, len: nat) -> Seq<T> {
    Seq::new(
        len,
        |i: int|
            if i < values.len() {
                values[i]
            } else {
                T::unit()
            },
    )
}

/// A segment tree over the monoid `T`.
///
/// The tree is a complete binary tree in a flat buffer. Its root is node 1,
/// the children of node `k` are the nodes `2 * k` and `2 * k + 1`, and slot 0
/// is unused. With `size()` leaves, the leaves are the nodes `size()` to
/// `2 * size() - 1`; the view of the tree is the sequence of its leaves.
pub struct SegmentTree<T: Monoid> {
    node: Vec<T>,
    sz: usize,
}

impl<T: Monoid> View for SegmentTree<T> {
    type V = Seq<T>;

    /// The leaves, from left to right.
    open spec fn view(&self) -> Seq<T> {
        self.nodes().subrange(self.size() as int, 2 * (self.size() as int))
    }
}

/// The nodes that start at index `base` and number `base` form one row of the
/// tree, and each of them has `width` leaves below it.
spec fn is_level(sz: int, base: int, width: int) -> bool {
    is_pow2(base) && is_pow2(width) && base * width == sz
}

/// The position of the first leaf below node `k` of the row at `base`.
spec fn span_lo(base: int, width: int, k: int) -> int {
    (k - base) * width
}

/// The position after the last leaf below node `k` of the row at `base`.
spec fn span_hi(base: int, width: int, k: int) -> int {
    (k - base) * width + width
}

/// The leaves below a node lie inside the leaf row, there is at least one, and
/// those of the next node of the row follow at once.
proof fn lemma_span_bounds(sz: int, base: int, width: int, k: int)
    requires
        is_level(sz, base, width),
        base <= k < 2 * base,
    ensures
        0 <= span_lo(base, width, k) < span_hi(base, width, k) <= sz,
        span_hi(base, width, k) == span_lo(base, width, k + 1),
{
    lemma_pow2_step(width);
    assert(0 <= (k - base) * width && (k - base) * width + width <= base * width
        && (k + 1 - base) * width == (k - base) * width + width) by (nonlinear_arith)
        requires
            width >= 1,
            base <= k < 2 * base,
    ;
}

/// The row above the row at `base`: it starts at `base / 2`, its nodes are
/// twice as wide, and node `k` of it spans what its two children span.
proof fn lemma_level_up(sz: int, base: int, width: int, k: int)
    requires
        is_level(sz, base, width),
        base > 1,
    ensures
        base % 2 == 0,
        is_level(sz, base / 2, 2 * width),
        span_lo(base / 2, 2 * width, k) == span_lo(base, width, 2 * k),
        span_hi(base / 2, 2 * width, k) == span_hi(base, width, 2 * k + 1),
{
    lemma_pow2_step(base);
    lemma_pow2_step(width);
    let half = base / 2;
    assert(half * (2 * width) == (2 * half) * width && (k - half) * (2 * width) == (2 * k - 2
        * half) * width && (2 * k + 1 - 2 * half) * width == (2 * k - 2 * half) * width + width)
        by (nonlinear_arith);
}

/// In a buffer in which every inner node is consistent, each node holds the
/// product of the leaves below it.
proof fn lemma_node_is_product<T: Monoid>(nodes: Seq<T>, sz: int, base: int, width: int, k: int)
    requires
        nodes.len() == 2 * sz,
        forall|j: int| 1 <= j < sz ==> #[trigger] node_consistent(nodes, j),
        is_level(sz, base, width),
        base <= k < 2 * base,
    ensures
        nodes[k] == product(
            nodes.subrange(sz, 2 * sz).subrange(
                span_lo(base, width, k),
                span_hi(base, width, k),
            ),
        ),
    decreases width,
{
    let leaves = nodes.subrange(sz, 2 * sz);
    lemma_pow2_step(width);
    if width == 1 {
        assert(base == sz) by (nonlinear_arith)
            requires
                base * width == sz,
                width == 1,
        ;
        assert(leaves.subrange(span_lo(base, width, k), span_hi(base, width, k)) =~= seq![
            nodes[k],
        ]);
        lemma_product_single(nodes[k]);
    } else {
        let half = width / 2;
        assert((2 * base) * half == base * width && 2 * base <= sz) by (nonlinear_arith)
            requires
                width == 2 * half,
                half >= 1,
                base >= 1,
                base * width == sz,
        ;
        lemma_pow2_step(base);
        lemma_level_up(sz, 2 * base, half, k);
        lemma_span_bounds(sz, 2 * base, half, 2 * k + 1);
        lemma_node_is_product(nodes, sz, 2 * base, half, 2 * k);
        lemma_node_is_product(nodes, sz, 2 * base, half, 2 * k + 1);
        assert(node_consistent(nodes, k));
        lemma_product_split(
            leaves,
            span_lo(base, width, k),
            span_hi(2 * base, half, 2 * k),
            span_hi(base, width, k),
        );
    }
}

impl<T: Monoid> SegmentTree<T> {
    /// The whole buffer: slot 0, then the inner nodes, then the leaves.
    pub closed spec fn nodes(&self) -> Seq<T> {
        self.node@
    }

    /// The number of leaves, as contracts see it; in them, `size()` stands
    /// for this.
    pub closed spec fn spec_size(&self) -> usize {
        self.sz
    }

    /// The number of leaves. The positions that `update` and `fold` accept
    /// are those below it.
    #[verifier::when_used_as_spec(spec_size)]
    pub fn size(&self) -> (n: usize)
        ensures
            n == self.size(),
    {
        self.sz
    }

    /// The invariant of the tree: the number of leaves is a power of two, the
    /// buffer has twice that many slots, and every inner node holds the
    /// combination of its two children.
    pub open spec fn well_formed(&self) -> bool {
        &&& is_pow2(self.size() as int)
        &&& self.nodes().len() == 2 * self.size()
        &&& forall|k: int| 1 <= k < self.size() ==> #[trigger] node_consistent(self.nodes(), k)
    }

    /// Builds the tree over `vec`. The number of leaves is the smallest power
    /// of two that is at least the length of `vec`; the leaves are the elements
    /// of `vec` in their order, followed by neutral elements.
    ///
    /// The buffer has twice as many slots as there are leaves, and that number
    /// has to fit in a `usize`.
    pub fn init(vec: Vec<T>) -> (tree: Self)
        requires
            2 * ceil_pow2(vec@.len()) <= usize::MAX,
        ensures
            tree.well_formed(),
            tree.size() == ceil_pow2(vec@.len()),
            vec@.len() <= tree.size(),
            tree@ == padded(vec@, tree.size() as nat),
            tree.nodes()[0] == T::unit(),
    {
        let mut vec = vec;
        let ghost values = vec@;
        let n = vec.len();
        let mut sz: usize = 1;
        proof {
            reveal(is_pow2);
            lemma_ceil_pow2(n as nat);
        }
        while sz < n
            invariant
                is_pow2(sz as int),
                sz <= ceil_pow2(n as nat),
                is_pow2(ceil_pow2(n as nat) as int),
                n <= ceil_pow2(n as nat),
                2 * ceil_pow2(n as nat) <= usize::MAX,
            decreases ceil_pow2(n as nat) - sz,
        {
            proof {
                lemma_pow2_gap(sz as int, ceil_pow2(n as nat) as int);
                lemma_pow2_step(sz as int);
            }
            sz = sz * 2;
        }
        proof {
            lemma_ceil_pow2_least(n as nat, sz as int);
        }
        let mut node: Vec<T> = Vec::with_capacity(2 * sz);
        let mut i: usize = 0;
        while i < sz
            invariant
                i <= sz,
                node.len() == i,
                forall|j: int| 0 <= j < i ==> node@[j] == T::unit(),
            decreases sz - i,
        {
            node.push(T::identity());
            i = i + 1;
        }
        node.append(&mut vec);
        let mut i: usize = n;
        while i < sz
            invariant
                values.len() == n <= i <= sz,
                2 * sz <= usize::MAX,
                node.len() == sz + i,
                node@[0] == T::unit(),
                forall|j: int| 0 <= j < i ==> node@[sz + j] == padded(values, sz as nat)[j],
            decreases sz - i,
        {
            node.push(T::identity());
            i = i + 1;
        }
        let ghost leaves = node@.subrange(sz as int, 2 * sz);
        let mut k: usize = sz;
        while k > 1
            invariant
                1 <= k <= sz,
                node.len() == 2 * sz,
                node@[0] == T::unit(),
                node@.subrange(sz as int, 2 * sz) == leaves,
                forall|j: int| k <= j < sz ==> #[trigger] node_consistent(node@, j),
            decreases k,
        {
            k = k - 1;
            let combined = node[2 * k].op(&node[2 * k + 1]);
            let ghost prior = node@;
            node[k] = combined;
            proof {
                assert forall|j: int| k <= j < sz implies #[trigger] node_consistent(
                    node@,
                    j,
                ) by {
                    if j != k {
                        assert(node_consistent(prior, j));
                    }
                }
            }
        }
        SegmentTree { node, sz }
    }

    /// Builds the tree over `vec` as [`SegmentTree::init`] does, if its buffer
    /// fits in a `usize`, and returns `None` if it does not.
    pub fn try_init(vec: Vec<T>) -> (result: Option<Self>)
        ensures
            result is Some <==> 2 * ceil_pow2(vec@.len()) <= usize::MAX,
            result matches Some(tree) ==> {
                &&& tree.well_formed()
                &&& tree.size() == ceil_pow2(vec@.len())
                &&& vec@.len() <= tree.size()
                &&& tree@ == padded(vec@, tree.size() as nat)
                &&& tree.nodes()[0] == T::unit()
            },
    {
        proof {
            lemma_double_ceil_pow2_fits(vec@.len());
        }
        if vec.len() <= usize::MAX / 4 + 1 {
            Some(Self::init(vec))
        } else {
            None
        }
    }

    /// Replaces the leaf at position `i` by `x` and recomputes the nodes above
    /// it, from its parent up to the root. No other leaf changes.
    pub fn update(&mut self, i: usize, x: T)
        requires
            old(self).well_formed(),
            i < old(self).size(),
        ensures
            final(self).well_formed(),
            final(self).size() == old(self).size(),
            final(self)@ == old(self)@.update(i as int, x),
            final(self).nodes()[0] == old(self).nodes()[0],
    {
        assert(self.node.len() == 2 * self.sz);
        let ghost before = self.node@;
        let mut idx = i + self.sz;
        self.node[idx] = x;
        proof {
            assert forall|k: int|
                1 <= k < self.sz && k != idx as int / 2 implies #[trigger] node_consistent(
                self.node@,
                k,
            ) by {
                assert(node_consistent(before, k));
            }
        }
        // Only the parent of `idx` can be out of step with its children: it is
        // the one node above the node that was written last.
        while idx > 1
            invariant
                self.sz == old(self).sz,
                self.node.len() == 2 * self.sz,
                self.node@[0] == before[0],
                1 <= idx < 2 * self.sz,
                forall|k: int|
                    1 <= k < self.sz && k != idx as int / 2 ==> #[trigger] node_consistent(
                        self.node@,
                        k,
                    ),
                forall|j: int|
                    self.sz <= j < 2 * self.sz ==> self.node@[j] == before.update(
                        i + self.sz,
                        x,
                    )[j],
            decreases idx,
        {
            idx = idx / 2;
            let combined = self.node[2 * idx].op(&self.node[2 * idx + 1]);
            let ghost prior = self.node@;
            self.node[idx] = combined;
            proof {
                assert forall|k: int|
                    1 <= k < self.sz && k != idx as int / 2 implies #[trigger] node_consistent(
                    self.node@,
                    k,
                ) by {
                    if k != idx {
                        assert(node_consistent(prior, k));
                    }
                }
            }
        }
    }

    /// Combines the leaves at the positions `left` to `right`, both included,
    /// from left to right.
    pub fn fold(&self, left: usize, right: usize) -> (result: T)
        requires
            self.well_formed(),
            left <= right < self.size(),
        ensures
            result == range_product(self@, left as int, right as int),
    {
        assert(self.node.len() == 2 * self.sz);
        let mut lx = T::identity();
        let mut rx = T::identity();
        let mut l = left + self.sz;
        let mut r = right + self.sz;
        let ghost sz = self.sz as int;
        let ghost leaves = self@;
        let ghost mut base = sz;
        let ghost mut width = 1int;
        proof {
            // the leaves are the row at `sz`, each of width 1
            reveal(is_pow2);
        }
        // `l` and `r` walk up the tree row by row. What lies left of the span
        // of `l` is gathered in `lx`, what lies right of the span of `r` in
        // `rx`, and the nodes `l` to `r` of the row span the rest of the range.
        while l < r
            invariant
                self.well_formed(),
                leaves == self@,
                sz == self.sz,
                self.node.len() == 2 * sz,
                left <= right < sz,
                is_level(sz, base, width),
                base <= sz,
                base <= l <= r + 1,
                base <= r < 2 * base,
                left <= span_lo(base, width, l as int),
                span_hi(base, width, r as int) <= right + 1,
                lx == product(leaves.subrange(left as int, span_lo(base, width, l as int))),
                rx == product(leaves.subrange(span_hi(base, width, r as int), right + 1)),
            decreases r,
        {
            proof {
                lemma_span_bounds(sz, base, width, l as int);
                lemma_span_bounds(sz, base, width, r as int);
                lemma_node_is_product(self.nodes(), sz, base, width, l as int);
                lemma_node_is_product(self.nodes(), sz, base, width, r as int);
                lemma_product_split(
                    leaves,
                    left as int,
                    span_lo(base, width, l as int),
                    span_hi(base, width, l as int),
                );
                lemma_product_split(
                    leaves,
                    span_lo(base, width, r as int),
                    span_hi(base, width, r as int),
                    right + 1,
                );
                lemma_level_up(sz, base, width, (l as int + 1) / 2);
                lemma_level_up(sz, base, width, (r as int - 1) / 2);
                lemma_span_bounds(sz, base, width, r as int - 1);
            }
            if l % 2 == 1 {
                lx = lx.op(&self.node[l]);
            }
            if r % 2 == 0 {
                rx = self.node[r].op(&rx);
            }
            l = (l + 1) / 2;
            r = (r - 1) / 2;
            proof {
                base = base / 2;
                width = 2 * width;
            }
        }
        if l == r {
            proof {
                lemma_span_bounds(sz, base, width, l as int);
                lemma_node_is_product(self.nodes(), sz, base, width, l as int);
                lemma_product_split(
                    leaves,
                    left as int,
                    span_lo(base, width, l as int),
                    span_hi(base, width, l as int),
                );
            }
            lx = lx.op(&self.node[l]);
        }
        proof {
            // either way `lx` now ends where `rx` begins
            lemma_span_bounds(sz, base, width, r as int);
            lemma_product_split(leaves, left as int, span_hi(base, width, r as int), right + 1);
        }
        lx.op(&rx)
    }
}

/// Update is local. With `after` the tree that `update(i, x)` makes of
/// `before`: the fold of `after` over the single position `i` is `x`, and its
/// fold over any other single position `j` is what the fold of `before` over
/// `j` was.
pub proof fn lemma_update_is_local<T: Monoid>(
    before: SegmentTree<T>,
    after: SegmentTree<T>,
    i: int,
    x: T,
    j: int,
)
    requires
        before.well_formed(),
        0 <= i < before.size(),
        0 <= j < before.size(),
        after@ == before@.update(i, x),
    ensures
        range_product(after@, i, i) == x,
        j != i ==> range_product(after@, j, j) == range_product(before@, j, j),
{
    lemma_range_product_single(after@, i);
    lemma_range_product_single(after@, j);
    lemma_range_product_single(before@, j);
}

/// Padding is neutral. With `tree` the tree that `init` builds from `values`:
/// a fold whose range reaches into the padding gives what the part of the
/// range before the padding gives, so that from position 0 it gives the
/// product of all of `values`.
pub proof fn lemma_padding_is_neutral<T: Monoid>(
    values: Seq<T>,
    tree: SegmentTree<T>,
    left: int,
    right: int,
)
    requires
        tree.well_formed(),
        tree@ == padded(values, tree.size() as nat),
        0 <= left <= values.len() <= right < tree.size(),
    ensures
        range_product(tree@, left, right) == product(values.subrange(left, values.len() as int)),
        left < values.len() ==> range_product(tree@, left, right) == range_product(
            tree@,
            left,
            values.len() - 1,
        ),
        left == 0 ==> range_product(tree@, left, right) == product(values),
{
    let n = values.len() as int;
    lemma_product_split(tree@, left, n, right + 1);
    lemma_product_units(tree@.subrange(n, right + 1));
    T::right_identity(product(tree@.subrange(left, n)));
    assert(tree@.subrange(left, n) =~= values.subrange(left, n));
    assert(values.subrange(0, n) =~= values);
}

/// A single value. With `tree` the tree that `init` builds from `x` alone:
/// `x` is its only leaf, and the fold over that leaf is `x`.
pub proof fn lemma_single_value<T: Monoid>(x: T, tree: SegmentTree<T>)
    requires
        tree.well_formed(),
        tree.size() == ceil_pow2(1),
        tree@ == padded(seq![x], tree.size() as nat),
    ensures
        tree.size() == 1,
        tree@ == seq![x],
        range_product(tree@, 0, 0) == x,
{
    lemma_range_product_single(tree@, 0);
}

} // verus!
