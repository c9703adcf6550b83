//! The general guarantees of the allocator, stated and proved over the
//! mathematical model.  The executable operations tie themselves to the
//! model through `alloc_order_post` and `dealloc_order_post`, so each law
//! here is a statement about every run of the corresponding operations.

use vstd::prelude::*;
use crate::model::TreeModel;
use crate::model::alloc_addr;
use crate::model::alloc_chosen;
use crate::model::alloc_order_post;
use crate::model::alloc_possible;
use crate::model::all_free;
use crate::model::anc;
use crate::model::bound_ok;
use crate::model::capacity;
use crate::model::cellv;
use crate::model::dealloc_index;
use crate::model::dealloc_order_post;
use crate::model::dealloc_pre;
use crate::model::interior_ok;
use crate::model::merge_val;
use crate::model::node_depth;
use crate::model::node_low;
use crate::model::node_span;
use crate::model::node_order;
use crate::model::pow2i;
use crate::model::proper_anc;
use crate::model::tree_len;
use crate::model::wf;
use crate::lemmas::lemma_anc_bounds;
use crate::lemmas::lemma_anc_root;
use crate::lemmas::lemma_anc_step;
use crate::lemmas::lemma_bracket_of_depth;
use crate::lemmas::lemma_chosen_after_mark;
use crate::lemmas::lemma_chosen_all_free;
use crate::lemmas::lemma_chosen_minimal;
use crate::lemmas::lemma_chosen_path_cell;
use crate::lemmas::lemma_chosen_props;
use crate::lemmas::lemma_climb_congruence;
use crate::lemmas::lemma_climb_fixpoint;
use crate::lemmas::lemma_depth_below;
use crate::lemmas::lemma_depth_bracket;
use crate::lemmas::lemma_depth_monotone;
use crate::lemmas::lemma_depth_nonneg;
use crate::lemmas::lemma_free_count_all_free;
use crate::lemmas::lemma_free_count_alloc;
use crate::lemmas::lemma_free_count_pos;
use crate::lemmas::lemma_full_free_children;
use crate::lemmas::lemma_full_free_subtree;
use crate::lemmas::lemma_unrelated_disjoint;
use crate::lemmas::lemma_mark_climb;
use crate::lemmas::lemma_pow2i_increases;
use crate::lemmas::lemma_pow2i_pos;
use crate::lemmas::lemma_pow2i_unfold;
use crate::lemmas::lemma_pow2i_zero;

verus! {

/// Bounds: in a well-formed tree, every cell's cached value lies between 0
/// and `MAX_ORDER + 1`; more precisely it never exceeds the node's own
/// nominal order plus one.
pub proof fn lemma_cell_bounds(m: TreeModel, i: int)
    requires
        wf(m),
        1 <= i <= tree_len(m.levels),
    ensures
        0 <= cellv(m.cells, i),
        cellv(m.cells, i) <= node_order(m.levels, i) + 1,
        cellv(m.cells, i) <= m.levels,
{
    assert(bound_ok(m.cells, m.levels, i));
    lemma_depth_nonneg(i);
}

/// Consistency: every interior node that is not itself a block handed out
/// by the allocator caches exactly the merge of its children — the
/// coalescing value when both children are entirely-free buddies of the
/// child order, and the larger child cache otherwise.  (At a node that is a
/// live allocation the cache is 0 while its children keep the entirely-free
/// marking they had when the block was handed out, so the merge equation is
/// deliberately suspended exactly there.)
pub proof fn lemma_parent_consistency(m: TreeModel, i: int)
    requires
        wf(m),
        1 <= i < pow2i(m.levels - 1),
        !(cellv(m.cells, i) == 0 && cellv(m.cells, 2 * i) == node_order(m.levels, i) && cellv(
            m.cells,
            2 * i + 1,
        ) == node_order(m.levels, i)),
    ensures
        cellv(m.cells, i) == merge_val(
            cellv(m.cells, 2 * i),
            cellv(m.cells, 2 * i + 1),
            node_order(m.levels, i),
        ),
{
    assert(interior_ok(m.cells, m.levels, i));
}

/// Determinism of allocation: the contract of `alloc_order` pins both the
/// returned value and the whole resulting tree, so identical trees given
/// identical requests produce identical outputs and identical trees.
pub proof fn lemma_alloc_deterministic(
    m: TreeModel,
    k: int,
    m1: TreeModel,
    r1: Option<usize>,
    m2: TreeModel,
    r2: Option<usize>,
)
    requires
        alloc_order_post(m, m1, k, r1),
        alloc_order_post(m, m2, k, r2),
    ensures
        r1 == r2,
        m1 == m2,
{
}

/// Determinism of deallocation: the contract of `dealloc_order` pins the
/// whole resulting tree.
pub proof fn lemma_dealloc_deterministic(
    m: TreeModel,
    ptr: int,
    k: int,
    m1: TreeModel,
    m2: TreeModel,
)
    requires
        dealloc_order_post(m, m1, ptr, k),
        dealloc_order_post(m, m2, ptr, k),
    ensures
        m1 == m2,
{
}

/// Leftmost-first: on an entirely-free tree, an allocation of any order
/// succeeds and returns address 0.
pub proof fn lemma_first_alloc_leftmost(m: TreeModel, k: int)
    requires
        wf(m),
        all_free(m),
        0 <= k <= m.levels - 1,
    ensures
        alloc_possible(m, k),
        alloc_addr(m, k) == 0,
{
    lemma_pow2i_zero();
    lemma_pow2i_unfold(1);
    lemma_pow2i_unfold(m.levels);
    lemma_pow2i_pos(m.levels - 1);
    assert(cellv(m.cells, 1) == node_order(m.levels, 1) + 1);
    let s = m.levels - 1 - k;
    lemma_chosen_all_free(m.cells, m.levels, 1, s, k);
    assert(alloc_chosen(m, k) == pow2i(s));
    assert((pow2i(s) - pow2i(s)) * pow2i(m.base_order + k) == 0) by (nonlinear_arith);
}

/// A successful allocation leaves the tree in exactly the state that its
/// own deallocation expects: the derived node is the chosen node, it is
/// marked used, and its children (if any) still carry the entirely-free
/// marking.
pub proof fn lemma_alloc_enables_dealloc(m: TreeModel, k: int, m1: TreeModel, r: Option<usize>)
    requires
        wf(m),
        0 <= k <= m.levels - 1,
        alloc_possible(m, k),
        alloc_order_post(m, m1, k, r),
    ensures
        dealloc_pre(m1, alloc_addr(m, k), k),
        dealloc_index(m1, alloc_addr(m, k), k) == alloc_chosen(m, k),
{
    let n = alloc_chosen(m, k);
    let s = m.levels - 1 - k;
    let b = pow2i(m.base_order + k);
    lemma_pow2i_zero();
    lemma_pow2i_unfold(1);
    lemma_pow2i_unfold(m.levels);
    lemma_pow2i_pos(m.levels - 1);
    lemma_pow2i_pos(m.base_order + k);
    lemma_chosen_props(m.cells, m.levels, 1, s, k);
    lemma_depth_bracket(n, s);
    vstd::arithmetic::div_mod::lemma_div_by_multiple(n - pow2i(s), b);
    assert(dealloc_index(m1, alloc_addr(m, k), k) == n);
    if k >= 1 {
        lemma_pow2i_increases(m.levels - k, m.levels - 1);
        lemma_full_free_children(m.cells, m.levels, n);
    }
    lemma_mark_climb(m.cells, m.levels, n, k, 0u8);
    assert(!anc(n, 2 * n) && !anc(n, 2 * n + 1)) by {
        if anc(n, 2 * n) {
            lemma_anc_bounds(n, 2 * n);
        }
        if anc(n, 2 * n + 1) {
            lemma_anc_bounds(n, 2 * n + 1);
        }
    }
    if k >= 1 {
        lemma_pow2i_unfold(s + 1);
        lemma_pow2i_increases(s + 2, m.levels);
        lemma_pow2i_unfold(s + 2);
        assert(cellv(m1.cells, 2 * n) == cellv(m.cells, 2 * n));
        assert(cellv(m1.cells, 2 * n + 1) == cellv(m.cells, 2 * n + 1));
    }
}

/// Free/reuse roundtrip: allocating a block and deallocating it restores
/// the tree exactly, so the next allocation of the same order returns the
/// same address.
pub proof fn lemma_alloc_dealloc_roundtrip(
    m: TreeModel,
    k: int,
    m1: TreeModel,
    m2: TreeModel,
    r: Option<usize>,
)
    requires
        wf(m),
        0 <= k <= m.levels - 1,
        alloc_possible(m, k),
        alloc_order_post(m, m1, k, r),
        dealloc_order_post(m1, m2, alloc_addr(m, k), k),
    ensures
        m2 == m,
        alloc_possible(m2, k),
        alloc_addr(m2, k) == alloc_addr(m, k),
        r == Some(alloc_addr(m2, k) as usize),
{
    let n = alloc_chosen(m, k);
    let s = m.levels - 1 - k;
    lemma_pow2i_zero();
    lemma_pow2i_unfold(1);
    lemma_pow2i_unfold(m.levels);
    lemma_pow2i_pos(m.levels - 1);
    lemma_alloc_enables_dealloc(m, k, m1, r);
    lemma_chosen_props(m.cells, m.levels, 1, s, k);
    lemma_depth_bracket(n, s);
    if k >= 1 {
        lemma_pow2i_increases(m.levels - k, m.levels - 1);
        lemma_full_free_children(m.cells, m.levels, n);
    }
    lemma_mark_climb(m.cells, m.levels, n, k, 0u8);
    lemma_pow2i_increases(m.levels - k, m.levels);
    assert(m1.cells.len() == tree_len(m.levels));
    assert(1 <= n <= tree_len(m.levels));
    // The state handed to the deallocator, with the chosen node restored.
    let start2 = m1.cells.update(n - 1, ((k + 1) as u8));
    assert(cellv(start2, n) == k + 1);
    assert forall|j: int|
        1 <= j < pow2i(m.levels) && !proper_anc(n, j) implies #[trigger] cellv(start2, j) == cellv(
        m.cells,
        j,
    ) by {
        if j != n {
            assert(!anc(n, j));
            assert(cellv(m1.cells, j) == cellv(m.cells, j));
        }
    }
    lemma_climb_congruence(start2, m.cells, m.levels, n, k);
    // Along the path from the root to the chosen node every cache is live,
    // so every strict ancestor already equals the merge of its children.
    assert forall|j: int| proper_anc(n, j) implies #[trigger] cellv(m.cells, j) == merge_val(
        cellv(m.cells, 2 * j),
        cellv(m.cells, 2 * j + 1),
        node_order(m.levels, j),
    ) by {
        lemma_anc_bounds(n, j);
        if n == 1 {
            assert(anc(0, j));
            assert(false);
        }
        assert(anc(j, 1)) by {
            lemma_anc_root(j);
        }
        lemma_chosen_path_cell(m.cells, m.levels, 1, s, k, j);
        // j is interior: it is a strict ancestor, hence strictly above the
        // chosen node's level.
        lemma_anc_step(n, j);
        lemma_anc_bounds(n / 2, j);
        vstd::arithmetic::div_mod::lemma_fundamental_div_mod(n, 2);
        lemma_depth_monotone(j, n / 2);
        lemma_depth_nonneg(j);
        assert(node_depth(n) == 1 + node_depth(n / 2));
        lemma_bracket_of_depth(j);
        lemma_pow2i_increases(node_depth(j) + 1, m.levels - 1);
        assert(1 <= j < pow2i(m.levels - 1));
        assert(interior_ok(m.cells, m.levels, j));
        assert(cellv(m.cells, j) > k);
    }
    lemma_climb_fixpoint(m.cells, m.levels, n, k);
    assert(m2.cells == m.cells);
    assert(m2 == m);
}

/// Ordering: between two `alloc_order(k)` calls with no intervening
/// deallocation, a second success returns a strictly greater address, and
/// the second block starts at or past the end of the first — consecutive
/// same-order allocations never overlap.
pub proof fn lemma_alloc_addresses_increase(m: TreeModel, k: int, m1: TreeModel, r: Option<usize>)
    requires
        wf(m),
        0 <= k <= m.levels - 1,
        alloc_possible(m, k),
        alloc_order_post(m, m1, k, r),
        alloc_possible(m1, k),
    ensures
        alloc_addr(m1, k) >= alloc_addr(m, k) + pow2i(m.base_order + k),
{
    let n0 = alloc_chosen(m, k);
    let n1 = alloc_chosen(m1, k);
    let s = m.levels - 1 - k;
    let b = pow2i(m.base_order + k);
    lemma_pow2i_zero();
    lemma_pow2i_unfold(1);
    lemma_pow2i_unfold(m.levels);
    lemma_pow2i_pos(m.levels - 1);
    lemma_pow2i_pos(m.base_order + k);
    lemma_chosen_props(m.cells, m.levels, 1, s, k);
    lemma_depth_bracket(n0, s);
    if k >= 1 {
        lemma_pow2i_increases(m.levels - k, m.levels - 1);
        lemma_full_free_children(m.cells, m.levels, n0);
    }
    lemma_mark_climb(m.cells, m.levels, n0, k, 0u8);
    lemma_chosen_after_mark(m.cells, m1.cells, m.levels, 1, s, k, n0);
    assert((n1 - pow2i(s)) * b >= (n0 - pow2i(s)) * b + b) by (nonlinear_arith)
        requires
            n1 > n0,
            b >= 1,
    ;
}

/// Capacity, first part: an entirely-free tree starts with exactly
/// `2^(MAX_ORDER - k)` units of order-`k` capacity.
pub proof fn lemma_capacity_all_free(m: TreeModel, k: int)
    requires
        wf(m),
        all_free(m),
        0 <= k <= m.levels - 1,
    ensures
        capacity(m, k) == pow2i(m.levels - 1 - k),
{
    lemma_pow2i_zero();
    lemma_pow2i_unfold(1);
    lemma_free_count_all_free(m.cells, m.levels, 1, 0, k);
}

/// Capacity, second part: an order-`k` request succeeds exactly while some
/// order-`k` capacity remains.
pub proof fn lemma_capacity_positive_iff(m: TreeModel, k: int)
    requires
        wf(m),
        0 <= k <= m.levels - 1,
    ensures
        alloc_possible(m, k) <==> capacity(m, k) > 0,
{
    lemma_pow2i_zero();
    lemma_pow2i_unfold(1);
    lemma_free_count_pos(m.cells, m.levels, 1, 0, k);
}

/// Capacity, third part: each successful allocation consumes exactly one
/// unit.  Together the three parts pin the capacity law: starting from an
/// entirely-free tree, exactly `2^(MAX_ORDER - k)` `alloc_order(k)` calls
/// succeed before the first no-space answer.
pub proof fn lemma_alloc_decrements_capacity(m: TreeModel, k: int, m1: TreeModel, r: Option<usize>)
    requires
        wf(m),
        0 <= k <= m.levels - 1,
        alloc_possible(m, k),
        alloc_order_post(m, m1, k, r),
    ensures
        capacity(m1, k) == capacity(m, k) - 1,
{
    let n = alloc_chosen(m, k);
    let s = m.levels - 1 - k;
    lemma_pow2i_zero();
    lemma_pow2i_unfold(1);
    lemma_pow2i_unfold(m.levels);
    lemma_pow2i_pos(m.levels - 1);
    lemma_chosen_props(m.cells, m.levels, 1, s, k);
    lemma_depth_bracket(n, s);
    if k >= 1 {
        lemma_pow2i_increases(m.levels - k, m.levels - 1);
        lemma_full_free_children(m.cells, m.levels, n);
    }
    lemma_mark_climb(m.cells, m.levels, n, k, 0u8);
    assert forall|j: int| anc(n, j) && anc(j, 1) implies #[trigger] cellv(m.cells, j) > k by {
        lemma_chosen_path_cell(m.cells, m.levels, 1, s, k, j);
    }
    lemma_free_count_alloc(m.cells, m1.cells, m.levels, 1, 0, k, n);
}

/// Uniqueness: a successful allocation returns a block disjoint from every
/// block the caller still holds.  A held block's node is marked used
/// (cache 0); the new block neither contains it nor sits inside it, their
/// byte ranges do not overlap, and the held node stays marked used — so a
/// run of allocations with no intervening deallocation yields pairwise
/// distinct, non-overlapping address ranges.
pub proof fn lemma_alloc_disjoint_from_used(
    m: TreeModel,
    k: int,
    m1: TreeModel,
    r: Option<usize>,
    x: int,
)
    requires
        wf(m),
        0 <= k <= m.levels - 1,
        alloc_possible(m, k),
        alloc_order_post(m, m1, k, r),
        1 <= x < pow2i(m.levels),
        cellv(m.cells, x) == 0,
    ensures
        cellv(m1.cells, x) == 0,
        alloc_addr(m, k) + pow2i(m.base_order + k) <= node_low(m.levels, m.base_order, x)
            || node_low(m.levels, m.base_order, x) + node_span(m.levels, m.base_order, x)
            <= alloc_addr(m, k),
{
    let n = alloc_chosen(m, k);
    let s = m.levels - 1 - k;
    lemma_pow2i_zero();
    lemma_pow2i_unfold(1);
    lemma_pow2i_unfold(m.levels);
    lemma_pow2i_pos(m.levels - 1);
    lemma_chosen_props(m.cells, m.levels, 1, s, k);
    lemma_depth_bracket(n, s);
    assert(!anc(n, x)) by {
        if anc(n, x) {
            lemma_anc_root(x);
            lemma_chosen_path_cell(m.cells, m.levels, 1, s, k, x);
        }
    }
    assert(!anc(x, n)) by {
        if anc(x, n) {
            lemma_depth_below(x, m.levels);
            lemma_pow2i_increases(m.levels - k, m.levels);
            lemma_full_free_subtree(m.cells, m.levels, n, x);
        }
    }
    if k >= 1 {
        lemma_pow2i_increases(m.levels - k, m.levels - 1);
        lemma_full_free_children(m.cells, m.levels, n);
    }
    lemma_mark_climb(m.cells, m.levels, n, k, 0u8);
    assert(cellv(m1.cells, x) == cellv(m.cells, x));
    assert(node_low(m.levels, m.base_order, n) == alloc_addr(m, k));
    assert(node_span(m.levels, m.base_order, n) == pow2i(m.base_order + k));
    if node_depth(x) <= node_depth(n) {
        lemma_unrelated_disjoint(m.levels, m.base_order, x, n);
    } else {
        lemma_unrelated_disjoint(m.levels, m.base_order, n, x);
    }
}

/// Leftmost-first in general: a successful `alloc_order(k)` serves the
/// lowest-addressed candidate.  For any node `y` that is marked entirely
/// free, has order at least `k`, and is live (no ancestor is an allocated
/// block), the returned address is at or below `y`'s first byte.
pub proof fn lemma_alloc_returns_lowest(m: TreeModel, k: int, y: int)
    requires
        wf(m),
        0 <= k <= m.levels - 1,
        alloc_possible(m, k),
        1 <= y < pow2i(m.levels),
        cellv(m.cells, y) == node_order(m.levels, y) + 1,
        k <= node_order(m.levels, y),
        forall|j: int| proper_anc(y, j) ==> #[trigger] cellv(m.cells, j) != 0,
    ensures
        alloc_addr(m, k) <= node_low(m.levels, m.base_order, y),
{
    let s = m.levels - 1 - k;
    lemma_pow2i_zero();
    lemma_pow2i_unfold(1);
    lemma_pow2i_unfold(m.levels);
    lemma_pow2i_pos(m.levels - 1);
    lemma_depth_below(y, m.levels);
    crate::lemmas::lemma_depth_nonneg(y);
    lemma_anc_root(y);
    lemma_chosen_props(m.cells, m.levels, 1, s, k);
    lemma_depth_bracket(alloc_chosen(m, k), s);
    lemma_chosen_minimal(m.cells, m.levels, m.base_order, 1, s, k, y);
}

} // verus!
