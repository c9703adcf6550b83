//! The mathematical model of the buddy tree.
//!
//! Nodes are one-indexed: node `i` has children `2i` and `2i + 1`, the root is
//! node `1`, and node `i` lives in array slot `i - 1`.  Each cell caches
//! `order_free`: `0` means the subtree holds no free block, `k + 1` means the
//! largest free order in the subtree is `k`.

use vstd::prelude::*;
use vstd::arithmetic::power2::pow2;

verus! {

/// The abstract state of a tree: the cached byte of every node in level
/// order, plus the two shape parameters.
pub ghost struct TreeModel {
    pub cells: Seq<u8>,
    pub levels: int,
    pub base_order: int,
}

/// `2^e` over `int`, for spec arithmetic.
pub open spec fn pow2i(e: int) -> int {
    pow2(e as nat) as int
}

/// Number of nodes in a complete binary tree of `levels` levels.
pub open spec fn tree_len(levels: int) -> int {
    pow2i(levels) - 1
}

/// Depth of node `i`: the root (node 1) has depth 0.
pub open spec fn node_depth(i: int) -> int
    decreases i,
{
    if i <= 1 {
        0
    } else {
        1 + node_depth(i / 2)
    }
}

/// The nominal order of node `i`: the root has order `levels - 1`, leaves
/// have order 0.
pub open spec fn node_order(levels: int, i: int) -> int {
    levels - 1 - node_depth(i)
}

/// The cached byte of node `i` (one-indexed), as an integer.
pub open spec fn cellv(cells: Seq<u8>, i: int) -> int {
    cells[i - 1] as int
}

/// What a parent cell of nominal order `o` is set to, given its children's
/// cached values `l` and `r`.  When both children are entirely-free blocks of
/// the child order (cached value exactly `o`), the parent coalesces to a free
/// block of order `o`; otherwise the larger child cache propagates.
pub open spec fn merge_val(l: int, r: int, o: int) -> int {
    if l == o && r == o {
        o + 1
    } else if l >= r {
        l
    } else {
        r
    }
}

/// Node `i`'s cache never exceeds its nominal order plus one.
pub open spec fn bound_ok(cells: Seq<u8>, levels: int, i: int) -> bool {
    cellv(cells, i) <= node_order(levels, i) + 1
}

/// Interior node `i` is exactly the merge of its children.
pub open spec fn recomputed(cells: Seq<u8>, levels: int, i: int) -> bool {
    cellv(cells, i) == merge_val(cellv(cells, 2 * i), cellv(cells, 2 * i + 1), node_order(levels, i))
}

/// The per-node invariant of an interior node: either its cache is the merge
/// of its children, or the node is an allocated block (cache 0) whose two
/// children still carry the entirely-free marking they had when the block was
/// handed out.
pub open spec fn interior_ok(cells: Seq<u8>, levels: int, i: int) -> bool {
    let o = node_order(levels, i);
    recomputed(cells, levels, i)
        || (cellv(cells, i) == 0 && cellv(cells, 2 * i) == o && cellv(cells, 2 * i + 1) == o)
}

/// Well-formed cell array for a tree of `levels` levels.
pub open spec fn wf_cells(cells: Seq<u8>, levels: int) -> bool {
    &&& cells.len() == tree_len(levels)
    &&& forall|i: int| 1 <= i < pow2i(levels) ==> #[trigger] bound_ok(cells, levels, i)
    &&& forall|i: int| 1 <= i < pow2i(levels - 1) ==> #[trigger] interior_ok(cells, levels, i)
}

/// Every interior node is exactly the merge of its children (holds after
/// construction, before any allocation).
pub open spec fn built(cells: Seq<u8>, levels: int) -> bool {
    forall|i: int| 1 <= i < pow2i(levels - 1) ==> #[trigger] recomputed(cells, levels, i)
}

/// A well-formed tree: sane shape parameters (the region and the node count
/// must be addressable by a machine word) and well-formed cells.
pub open spec fn wf(m: TreeModel) -> bool {
    &&& 1 <= m.levels
    &&& 0 <= m.base_order
    &&& m.levels - 1 + m.base_order <= 63
    &&& pow2i(m.levels) <= usize::MAX as int
    &&& pow2i(m.levels - 1 + m.base_order) <= usize::MAX as int
    &&& wf_cells(m.cells, m.levels)
}

/// Every node of the tree carries the entirely-free marking.
pub open spec fn all_free(m: TreeModel) -> bool {
    forall|i: int| 1 <= i < pow2i(m.levels) ==> #[trigger] cellv(m.cells, i) == node_order(
        m.levels,
        i,
    ) + 1
}

/// `a` is node `n` itself or one of its ancestors.
pub open spec fn anc(n: int, a: int) -> bool
    decreases n,
{
    if n < 1 {
        false
    } else {
        a == n || anc(n / 2, a)
    }
}

/// `a` is a strict ancestor of node `n`.
pub open spec fn proper_anc(n: int, a: int) -> bool {
    anc(n, a) && a != n
}

/// The node the allocator's descent reaches, starting at node `i` with `s`
/// levels still to descend, looking for order `k`: go left whenever the left
/// child caches an order strictly above `k`, else go right.
pub open spec fn chosen_node(cells: Seq<u8>, i: int, s: int, k: int) -> int
    decreases s,
{
    if s <= 0 {
        i
    } else if cellv(cells, 2 * i) > k {
        chosen_node(cells, 2 * i, s - 1, k)
    } else {
        chosen_node(cells, 2 * i + 1, s - 1, k)
    }
}

/// The upward update pass: starting from node `i` of order `o`, recompute
/// each ancestor in turn (as the merge of its children at that moment) up to
/// and including the root of order `top`.
pub open spec fn climb(cells: Seq<u8>, i: int, o: int, top: int) -> Seq<u8>
    decreases top - o,
{
    if o >= top {
        cells
    } else {
        let p = i / 2;
        let v = merge_val(cellv(cells, 2 * p), cellv(cells, 2 * p + 1), o + 1);
        climb(cells.update(p - 1, v as u8), p, o + 1, top)
    }
}

/// An allocation of order `k` can be satisfied exactly when the root caches
/// an order strictly above `k`.
pub open spec fn alloc_possible(m: TreeModel, k: int) -> bool {
    cellv(m.cells, 1) > k
}

/// The node a successful `alloc_order(k)` picks.
pub open spec fn alloc_chosen(m: TreeModel, k: int) -> int {
    chosen_node(m.cells, 1, m.levels - 1 - k, k)
}

/// The address a successful `alloc_order(k)` returns: the chosen node's
/// offset within its level, times the block size of order `k`.
pub open spec fn alloc_addr(m: TreeModel, k: int) -> int {
    (alloc_chosen(m, k) - pow2i(m.levels - 1 - k)) * pow2i(m.base_order + k)
}

/// The cell array after a successful `alloc_order(k)`: the chosen node is
/// marked used, then every ancestor is recomputed bottom-up.
pub open spec fn alloc_cells(m: TreeModel, k: int) -> Seq<u8> {
    let n = alloc_chosen(m, k);
    climb(m.cells.update(n - 1, 0u8), n, k, m.levels - 1)
}

/// The node `dealloc_order(ptr, k)` derives from the pointer.
pub open spec fn dealloc_index(m: TreeModel, ptr: int, k: int) -> int {
    pow2i(m.levels - 1 - k) - 1 + ptr / pow2i(m.base_order + k) + 1
}

/// The cell array after `dealloc_order(ptr, k)`: the derived node is marked
/// free at order `k`, then every ancestor is recomputed bottom-up.
pub open spec fn dealloc_cells(m: TreeModel, ptr: int, k: int) -> Seq<u8> {
    let n = dealloc_index(m, ptr, k);
    climb(m.cells.update(n - 1, (k + 1) as u8), n, k, m.levels - 1)
}

/// What `dealloc_order(ptr, k)` demands of its caller: the order and pointer
/// are in range, the derived node is currently allocated, and (for an
/// interior node) its children still carry the entirely-free marking the
/// block had when it was allocated.  All of this holds of a pointer returned
/// by a matching `alloc_order(k)` that has not been deallocated since.
pub open spec fn dealloc_pre(m: TreeModel, ptr: int, k: int) -> bool {
    let n = dealloc_index(m, ptr, k);
    &&& 0 <= k <= m.levels - 1
    &&& 0 <= ptr < pow2i(m.levels - 1 + m.base_order)
    &&& cellv(m.cells, n) == 0
    &&& (k >= 1 ==> cellv(m.cells, 2 * n) == k && cellv(m.cells, 2 * n + 1) == k)
}

/// The full contract of `alloc_order`: on failure the tree is untouched; on
/// success the returned address is the chosen node's address (aligned and in
/// range), the chosen node goes from entirely free to used, and the rest of
/// the tree changes only along the path to the root.
pub open spec fn alloc_order_post(pre: TreeModel, post: TreeModel, k: int, r: Option<usize>) -> bool {
    &&& post.levels == pre.levels
    &&& post.base_order == pre.base_order
    &&& (!alloc_possible(pre, k) ==> r is None && post == pre)
    &&& (alloc_possible(pre, k) ==> {
        &&& r == Some(alloc_addr(pre, k) as usize)
        &&& post.cells == alloc_cells(pre, k)
        &&& wf(post)
        &&& cellv(pre.cells, alloc_chosen(pre, k)) == k + 1
        &&& cellv(post.cells, alloc_chosen(pre, k)) == 0
        &&& alloc_addr(pre, k) % pow2i(pre.base_order + k) == 0
        &&& 0 <= alloc_addr(pre, k)
        &&& alloc_addr(pre, k) + pow2i(pre.base_order + k) <= pow2i(pre.levels - 1 + pre.base_order)
    })
}

/// The full contract of `dealloc_order`: the derived node is marked free at
/// its order, every ancestor is recomputed, and nothing off that path moves.
pub open spec fn dealloc_order_post(pre: TreeModel, post: TreeModel, ptr: int, k: int) -> bool {
    &&& post.levels == pre.levels
    &&& post.base_order == pre.base_order
    &&& post.cells == dealloc_cells(pre, ptr, k)
    &&& wf(post)
    &&& cellv(post.cells, dealloc_index(pre, ptr, k)) == k + 1
}

/// How many further `alloc_order(k)` requests the subtree rooted at node
/// `i` (of nominal order `o`) can satisfy: the number of order-`k` blocks
/// reachable under the caching discipline.  A cache at or below `k` cuts the
/// subtree off entirely.
pub open spec fn free_count(cells: Seq<u8>, i: int, o: int, k: int) -> int
    decreases o - k,
{
    if cellv(cells, i) <= k {
        0
    } else if o <= k {
        1
    } else {
        free_count(cells, 2 * i, o - 1, k) + free_count(cells, 2 * i + 1, o - 1, k)
    }
}

/// The remaining capacity of the whole tree for order-`k` requests.
pub open spec fn capacity(m: TreeModel, k: int) -> int {
    free_count(m.cells, 1, m.levels - 1, k)
}

/// The first byte of the region covered by node `x`.
pub open spec fn node_low(levels: int, base_order: int, x: int) -> int {
    (x - pow2i(node_depth(x))) * pow2i(levels - 1 + base_order - node_depth(x))
}

/// The number of bytes covered by node `x`.
pub open spec fn node_span(levels: int, base_order: int, x: int) -> int {
    pow2i(levels - 1 + base_order - node_depth(x))
}

/// Whether some usable range wholly contains the closed byte interval
/// `[lo, hi]`.
pub open spec fn covered(ranges: Seq<(usize, usize)>, lo: int, hi: int) -> bool {
    exists|t: int|
        0 <= t < ranges.len() && (#[trigger] ranges[t]).0 <= lo && hi <= ranges[t].1
}

/// The first byte of the atomic block that leaf node `j` stands for.
pub open spec fn leaf_low(levels: int, base_order: int, j: int) -> int {
    (j - pow2i(levels - 1)) * pow2i(base_order)
}

/// The last byte of the atomic block that leaf node `j` stands for.
pub open spec fn leaf_high(levels: int, base_order: int, j: int) -> int {
    leaf_low(levels, base_order, j) + pow2i(base_order) - 1
}

/// The cell the constructor gives leaf `j`: free at order 0 exactly when the
/// leaf's whole byte interval lies inside some usable range.
pub open spec fn leaf_value(ranges: Seq<(usize, usize)>, levels: int, base_order: int, j: int) -> int {
    if covered(ranges, leaf_low(levels, base_order, j), leaf_high(levels, base_order, j)) {
        1
    } else {
        0
    }
}

/// Base-2 logarithm, rounded down; 0 for inputs below 2.
pub open spec fn log2_floor_of(v: int) -> int
    decreases v,
{
    if v <= 1 {
        0
    } else {
        1 + log2_floor_of(v / 2)
    }
}

/// Base-2 logarithm, rounded up (with the same convention as the executable
/// code: inputs that are not a power of two round up).
pub open spec fn log2_ceil_of(v: int) -> int {
    if v == pow2i(log2_floor_of(v)) {
        log2_floor_of(v)
    } else {
        log2_floor_of(v) + 1
    }
}

/// `size` rounded up to a multiple of `align`.
pub open spec fn pad_size(size: int, align: int) -> int {
    ((size + align - 1) / align) * align
}

/// The block order serving a `(size, align)` layout request.
pub open spec fn layout_order(size: int, align: int, base_order: int) -> int {
    let lg = log2_ceil_of(pad_size(size, align)) + 1;
    if lg > base_order {
        lg - base_order
    } else {
        0
    }
}

} // verus!
