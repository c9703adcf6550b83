//! Structural facts about the flat tree: powers of two, node depths,
//! ancestor chains, the descent, and the upward update pass.

use vstd::prelude::*;
use vstd::arithmetic::power2::lemma_pow2_adds;
use vstd::arithmetic::power2::lemma_pow2_pos;
use vstd::arithmetic::power2::lemma_pow2_strictly_increases;
use vstd::arithmetic::power2::lemma_pow2_unfold;
use vstd::arithmetic::div_mod::lemma_fundamental_div_mod;
use vstd::arithmetic::div_mod::lemma_fundamental_div_mod_converse;
use crate::model::anc;
use crate::model::bound_ok;
use crate::model::built;
use crate::model::cellv;
use crate::model::free_count;
use crate::model::climb;
use crate::model::merge_val;
use crate::model::recomputed;
use crate::model::tree_len;
use crate::model::chosen_node;
use crate::model::interior_ok;
use crate::model::node_depth;
use crate::model::node_low;
use crate::model::node_order;
use crate::model::node_span;
use crate::model::pow2i;
use crate::model::proper_anc;
use crate::model::wf_cells;

verus! {

pub proof fn lemma_pow2i_pos(e: int)
    ensures
        pow2i(e) >= 1,
{
    lemma_pow2_pos(e as nat);
}

pub proof fn lemma_pow2i_zero()
    ensures
        pow2i(0) == 1,
{
    vstd::arithmetic::power::lemma_pow0(2);
}

pub proof fn lemma_pow2i_unfold(e: int)
    requires
        e >= 1,
    ensures
        pow2i(e) == 2 * pow2i(e - 1),
{
    lemma_pow2_unfold(e as nat);
}

pub proof fn lemma_pow2i_adds(a: int, b: int)
    requires
        a >= 0,
        b >= 0,
    ensures
        pow2i(a + b) == pow2i(a) * pow2i(b),
{
    lemma_pow2_adds(a as nat, b as nat);
}

pub proof fn lemma_pow2i_increases(a: int, b: int)
    requires
        0 <= a <= b,
    ensures
        pow2i(a) <= pow2i(b),
{
    if a < b {
        lemma_pow2_strictly_increases(a as nat, b as nat);
    }
}

pub proof fn lemma_div2(i: int)
    ensures
        (2 * i) / 2 == i,
        (2 * i + 1) / 2 == i,
{
    lemma_fundamental_div_mod_converse(2 * i, 2, i, 0);
    lemma_fundamental_div_mod_converse(2 * i + 1, 2, i, 1);
}

pub proof fn lemma_depth_nonneg(i: int)
    ensures
        node_depth(i) >= 0,
    decreases i,
{
    if i > 1 {
        lemma_depth_nonneg(i / 2);
    }
}

pub proof fn lemma_depth_children(i: int)
    requires
        i >= 1,
    ensures
        node_depth(2 * i) == node_depth(i) + 1,
        node_depth(2 * i + 1) == node_depth(i) + 1,
{
    lemma_div2(i);
}

/// Dividing by two takes a node one level up: the standard bracket
/// `[2^d, 2^(d+1))` of a level shifts to the bracket of the level above.
pub proof fn lemma_parent_bracket(i: int, d: int)
    requires
        d >= 1,
        pow2i(d) <= i < pow2i(d + 1),
    ensures
        pow2i(d - 1) <= i / 2 < pow2i(d),
        i >= 2,
{
    lemma_pow2i_unfold(d);
    lemma_pow2i_unfold(d + 1);
    lemma_pow2i_pos(d - 1);
    lemma_fundamental_div_mod(i, 2);
}

/// A node inside the bracket `[2^d, 2^(d+1))` has depth exactly `d`.
pub proof fn lemma_depth_bracket(i: int, d: int)
    requires
        d >= 0,
        pow2i(d) <= i < pow2i(d + 1),
    ensures
        node_depth(i) == d,
    decreases d,
{
    lemma_pow2i_pos(d);
    lemma_pow2i_zero();
    if d == 0 {
        lemma_pow2i_unfold(1);
    } else {
        lemma_parent_bracket(i, d);
        lemma_depth_bracket(i / 2, d - 1);
    }
}

/// Conversely, every node sits inside the bracket of its depth.
pub proof fn lemma_bracket_of_depth(i: int)
    requires
        i >= 1,
    ensures
        pow2i(node_depth(i)) <= i < pow2i(node_depth(i) + 1),
    decreases i,
{
    lemma_pow2i_zero();
    if i == 1 {
        lemma_pow2i_unfold(1);
    } else {
        lemma_fundamental_div_mod(i, 2);
        lemma_depth_nonneg(i / 2);
        lemma_bracket_of_depth(i / 2);
        lemma_pow2i_unfold(node_depth(i));
        lemma_pow2i_unfold(node_depth(i) + 1);
    }
}

/// A node with a smaller index than a whole level sits strictly above it.
pub proof fn lemma_depth_below(i: int, d: int)
    requires
        i >= 1,
        d >= 0,
        i < pow2i(d),
    ensures
        node_depth(i) < d,
{
    lemma_bracket_of_depth(i);
    if node_depth(i) >= d {
        lemma_pow2i_increases(d, node_depth(i));
    }
}

pub proof fn lemma_anc_refl(n: int)
    requires
        n >= 1,
    ensures
        anc(n, n),
{
}

pub proof fn lemma_anc_bounds(n: int, a: int)
    requires
        anc(n, a),
    ensures
        1 <= a <= n,
    decreases n,
{
    if a != n {
        lemma_fundamental_div_mod(n, 2);
        lemma_anc_bounds(n / 2, a);
    }
}

/// For a non-root node, the strict ancestors are exactly the
/// ancestors-or-self of its parent.
pub proof fn lemma_anc_step(i: int, j: int)
    requires
        i >= 2,
    ensures
        proper_anc(i, j) <==> anc(i / 2, j),
{
    lemma_fundamental_div_mod(i, 2);
    if anc(i / 2, j) {
        lemma_anc_bounds(i / 2, j);
    }
}

pub proof fn lemma_anc_parent(n: int, a: int)
    requires
        anc(n, a),
        a >= 2,
    ensures
        anc(n, a / 2),
    decreases n,
{
    if a == n {
        lemma_fundamental_div_mod(n, 2);
        lemma_anc_refl(n / 2);
    } else {
        lemma_anc_parent(n / 2, a);
    }
}

/// The root is an ancestor of every node.
pub proof fn lemma_anc_root(n: int)
    requires
        n >= 1,
    ensures
        anc(n, 1),
    decreases n,
{
    if n > 1 {
        lemma_fundamental_div_mod(n, 2);
        lemma_anc_root(n / 2);
    }
}

pub proof fn lemma_anc_trans(n: int, b: int, a: int)
    requires
        anc(n, b),
        anc(b, a),
    ensures
        anc(n, a),
    decreases n,
{
    if b != n {
        lemma_anc_trans(n / 2, b, a);
    }
}

/// The ancestor chain of a node never contains both children of any node.
pub proof fn lemma_anc_not_both_children(n: int, i: int)
    requires
        i >= 1,
    ensures
        !(anc(n, 2 * i) && anc(n, 2 * i + 1)),
    decreases n,
{
    if n >= 1 && anc(n, 2 * i) && anc(n, 2 * i + 1) {
        lemma_div2(i);
        if n == 2 * i {
            lemma_anc_bounds(n, 2 * i + 1);
        } else if n == 2 * i + 1 {
            lemma_anc_bounds(n / 2, 2 * i);
        } else {
            lemma_anc_not_both_children(n / 2, i);
        }
    }
}

/// A strict descendant of `i` descends through one of `i`'s children.
pub proof fn lemma_anc_through_child(j: int, i: int)
    requires
        anc(j, i),
        j != i,
    ensures
        anc(j, 2 * i) || anc(j, 2 * i + 1),
    decreases j,
{
    lemma_anc_bounds(j, i);
    lemma_fundamental_div_mod(j, 2);
    if j / 2 == i {
        lemma_anc_refl(j);
    } else {
        lemma_anc_through_child(j / 2, i);
    }
}

/// The descent always lands in the subtree of its starting node: after `s`
/// steps the result lies in the index window of that subtree's level.
pub proof fn lemma_chosen_bracket(cells: Seq<u8>, i: int, s: int, k: int)
    requires
        i >= 1,
        s >= 0,
    ensures
        i * pow2i(s) <= chosen_node(cells, i, s, k) < (i + 1) * pow2i(s),
    decreases s,
{
    if s == 0 {
        lemma_pow2i_zero();
    } else {
        let c: int = if cellv(cells, 2 * i) > k {
            2 * i
        } else {
            2 * i + 1
        };
        lemma_chosen_bracket(cells, c, s - 1, k);
        lemma_pow2i_unfold(s);
        lemma_pow2i_pos(s - 1);
        assert(c * pow2i(s - 1) >= i * pow2i(s) && (c + 1) * pow2i(s - 1) <= (i + 1) * pow2i(s))
            by (nonlinear_arith)
            requires
                pow2i(s) == 2 * pow2i(s - 1),
                pow2i(s - 1) >= 1,
                2 * i <= c <= 2 * i + 1,
        ;
    }
}

/// The chosen node is a descendant of the starting node.
pub proof fn lemma_chosen_anc(cells: Seq<u8>, i: int, s: int, k: int)
    requires
        i >= 1,
        s >= 0,
    ensures
        anc(chosen_node(cells, i, s, k), i),
    decreases s,
{
    if s == 0 {
        lemma_anc_refl(i);
    } else {
        let c: int = if cellv(cells, 2 * i) > k {
            2 * i
        } else {
            2 * i + 1
        };
        lemma_chosen_anc(cells, c, s - 1, k);
        lemma_div2(i);
        lemma_anc_parent(chosen_node(cells, c, s - 1, k), c);
    }
}

/// When the parent caches an order above `k` but the left child does not,
/// the invariant forces the right child to cache an order above `k`.
pub proof fn lemma_step_right(cells: Seq<u8>, levels: int, i: int, k: int)
    requires
        wf_cells(cells, levels),
        0 <= k,
        1 <= i < pow2i(levels - 1),
        node_order(levels, i) > k,
        cellv(cells, i) > k,
        cellv(cells, 2 * i) <= k,
    ensures
        cellv(cells, 2 * i + 1) > k,
{
    assert(interior_ok(cells, levels, i));
}

/// A node marked entirely free (cache = order + 1) has both children marked
/// entirely free at the child order.
pub proof fn lemma_full_free_children(cells: Seq<u8>, levels: int, i: int)
    requires
        wf_cells(cells, levels),
        1 <= levels,
        1 <= i < pow2i(levels - 1),
        cellv(cells, i) == node_order(levels, i) + 1,
    ensures
        cellv(cells, 2 * i) == node_order(levels, i),
        cellv(cells, 2 * i + 1) == node_order(levels, i),
{
    lemma_depth_below(i, levels - 1);
    lemma_depth_children(i);
    lemma_pow2i_unfold(levels);
    assert(interior_ok(cells, levels, i));
    assert(bound_ok(cells, levels, 2 * i));
    assert(bound_ok(cells, levels, 2 * i + 1));
}

/// A successful descent lands on a node of order `k` in the window of that
/// level, marked entirely free, and the landing node descends from the start.
pub proof fn lemma_chosen_props(cells: Seq<u8>, levels: int, i: int, s: int, k: int)
    requires
        wf_cells(cells, levels),
        0 <= k,
        0 <= s,
        k + s <= levels - 1,
        pow2i(levels - 1 - k - s) <= i < pow2i(levels - k - s),
        cellv(cells, i) > k,
    ensures
        pow2i(levels - 1 - k) <= chosen_node(cells, i, s, k) < pow2i(levels - k),
        cellv(cells, chosen_node(cells, i, s, k)) == k + 1,
        anc(chosen_node(cells, i, s, k), i),
    decreases s,
{
    lemma_pow2i_pos(levels - 1 - k - s);
    lemma_depth_bracket(i, levels - 1 - k - s);
    if s == 0 {
        lemma_pow2i_increases(levels - k - s, levels);
        assert(bound_ok(cells, levels, i));
        lemma_anc_refl(i);
    } else {
        let d = levels - 1 - k - s;
        lemma_pow2i_unfold(d + 1);
        lemma_pow2i_unfold(d + 2);
        lemma_pow2i_increases(d + 1, levels - 1);
        let c: int = if cellv(cells, 2 * i) > k {
            2 * i
        } else {
            2 * i + 1
        };
        if cellv(cells, 2 * i) <= k {
            lemma_step_right(cells, levels, i, k);
        }
        lemma_chosen_props(cells, levels, c, s - 1, k);
        lemma_div2(i);
        lemma_anc_parent(chosen_node(cells, c, s - 1, k), c);
    }
}

/// Every node on the path from the start of a successful descent down to the
/// landing node caches an order above `k`.
pub proof fn lemma_chosen_path_cell(cells: Seq<u8>, levels: int, i: int, s: int, k: int, j: int)
    requires
        wf_cells(cells, levels),
        0 <= k,
        0 <= s,
        k + s <= levels - 1,
        pow2i(levels - 1 - k - s) <= i < pow2i(levels - k - s),
        cellv(cells, i) > k,
        anc(chosen_node(cells, i, s, k), j),
        anc(j, i),
    ensures
        cellv(cells, j) > k,
    decreases s,
{
    lemma_pow2i_pos(levels - 1 - k - s);
    lemma_depth_bracket(i, levels - 1 - k - s);
    if j == i {
    } else if s == 0 {
        lemma_anc_bounds(i, j);
        lemma_anc_bounds(j, i);
    } else {
        let d = levels - 1 - k - s;
        lemma_pow2i_unfold(d + 1);
        lemma_pow2i_unfold(d + 2);
        lemma_pow2i_increases(d + 1, levels - 1);
        let c: int = if cellv(cells, 2 * i) > k {
            2 * i
        } else {
            2 * i + 1
        };
        if cellv(cells, 2 * i) <= k {
            lemma_step_right(cells, levels, i, k);
        }
        let n = chosen_node(cells, c, s - 1, k);
        lemma_chosen_anc(cells, c, s - 1, k);
        lemma_anc_through_child(j, i);
        let cj: int = if anc(j, 2 * i) {
            2 * i
        } else {
            2 * i + 1
        };
        lemma_anc_trans(n, j, cj);
        lemma_anc_not_both_children(n, i);
        assert(cj == c);
        lemma_chosen_path_cell(cells, levels, c, s - 1, k, j);
    }
}

/// What the upward update pass does.  Nothing off the strict-ancestor path
/// of the starting node moves; every strict ancestor becomes the merge of
/// its children in the resulting array; and provided every interior node off
/// that path satisfied the per-node invariant, the result is well-formed.
pub proof fn lemma_climb_props(cells: Seq<u8>, levels: int, i: int, o: int)
    requires
        cells.len() == tree_len(levels),
        1 <= levels <= 255,
        0 <= o <= levels - 1,
        pow2i(levels - 1 - o) <= i < pow2i(levels - o),
        forall|j: int| 1 <= j < pow2i(levels) ==> #[trigger] bound_ok(cells, levels, j),
        forall|j: int|
            1 <= j < pow2i(levels - 1) && !proper_anc(i, j) ==> #[trigger] interior_ok(
                cells,
                levels,
                j,
            ),
    ensures
        climb(cells, i, o, levels - 1).len() == cells.len(),
        forall|j: int|
            1 <= j < pow2i(levels) && !proper_anc(i, j) ==> #[trigger] cellv(
                climb(cells, i, o, levels - 1),
                j,
            ) == cellv(cells, j),
        forall|j: int|
            proper_anc(i, j) ==> #[trigger] cellv(climb(cells, i, o, levels - 1), j) == merge_val(
                cellv(climb(cells, i, o, levels - 1), 2 * j),
                cellv(climb(cells, i, o, levels - 1), 2 * j + 1),
                node_order(levels, j),
            ),
        wf_cells(climb(cells, i, o, levels - 1), levels),
    decreases levels - 1 - o,
{
    let d = levels - 1 - o;
    lemma_pow2i_pos(d);
    lemma_pow2i_zero();
    lemma_pow2i_unfold(levels);
    lemma_pow2i_pos(levels - 1);
    lemma_depth_bracket(i, d);
    if o == levels - 1 {
        lemma_pow2i_unfold(1);
        assert(i == 1);
        assert forall|j: int| !proper_anc(1, j) by {
            if anc(1, j) && j != 1 {
                assert(anc(0, j));
            }
        }
    } else {
        let p = i / 2;
        lemma_parent_bracket(i, d);
        lemma_depth_bracket(p, d - 1);
        lemma_depth_children(p);
        lemma_fundamental_div_mod(i, 2);
        lemma_pow2i_unfold(d + 1);
        lemma_pow2i_increases(d + 1, levels);
        lemma_pow2i_increases(d, levels - 1);
        let mv = merge_val(cellv(cells, 2 * p), cellv(cells, 2 * p + 1), o + 1);
        let cells2 = cells.update(p - 1, (mv as u8));
        assert(cellv(cells2, p) == mv) by {
            assert(bound_ok(cells, levels, 2 * p));
            assert(bound_ok(cells, levels, 2 * p + 1));
        }
        // The two facts used throughout: `i` is a child of `p`, and strict
        // ancestry through `i` decomposes as `p` plus strict ancestry
        // through `p`.
        assert(i == 2 * p || i == 2 * p + 1);
        assert forall|j: int| proper_anc(i, j) <==> (j == p || proper_anc(p, j)) by {
            lemma_anc_step(i, j);
            if p >= 2 {
                lemma_anc_step(p, j);
            } else {
                if anc(1, j) && j != 1 {
                    assert(anc(0, j));
                }
            }
        }
        assert forall|j: int| 1 <= j < pow2i(levels) implies #[trigger] bound_ok(
            cells2,
            levels,
            j,
        ) by {
            assert(bound_ok(cells, levels, j));
            assert(bound_ok(cells, levels, 2 * p));
            assert(bound_ok(cells, levels, 2 * p + 1));
        }
        assert forall|j: int|
            1 <= j < pow2i(levels - 1) && !proper_anc(p, j) implies #[trigger] interior_ok(
            cells2,
            levels,
            j,
        ) by {
            if j == p {
                assert(cellv(cells2, 2 * p) == cellv(cells, 2 * p));
                assert(cellv(cells2, 2 * p + 1) == cellv(cells, 2 * p + 1));
                assert(recomputed(cells2, levels, p));
            } else {
                assert(!proper_anc(i, j));
                assert(interior_ok(cells, levels, j));
                if 2 * j == p || 2 * j + 1 == p {
                    lemma_div2(j);
                    lemma_anc_refl(j);
                    if p >= 2 {
                        lemma_anc_step(p, j);
                    }
                    assert(false);
                }
                assert(cellv(cells2, j) == cellv(cells, j));
                assert(cellv(cells2, 2 * j) == cellv(cells, 2 * j));
                assert(cellv(cells2, 2 * j + 1) == cellv(cells, 2 * j + 1));
            }
        }
        lemma_climb_props(cells2, levels, p, o + 1);
        let res = climb(cells, i, o, levels - 1);
        assert(res == climb(cells2, p, o + 1, levels - 1));
        assert(!proper_anc(p, p));
        assert(!proper_anc(p, 2 * p) && !proper_anc(p, 2 * p + 1)) by {
            if anc(p, 2 * p) {
                lemma_anc_bounds(p, 2 * p);
            }
            if anc(p, 2 * p + 1) {
                lemma_anc_bounds(p, 2 * p + 1);
            }
        }
        assert forall|j: int|
            1 <= j < pow2i(levels) && !proper_anc(i, j) implies #[trigger] cellv(res, j) == cellv(
            cells,
            j,
        ) by {
            assert(cellv(res, j) == cellv(cells2, j));
        }
        assert forall|j: int| proper_anc(i, j) implies #[trigger] cellv(res, j) == merge_val(
            cellv(res, 2 * j),
            cellv(res, 2 * j + 1),
            node_order(levels, j),
        ) by {
            if j == p {
                assert(cellv(res, p) == cellv(cells2, p));
                assert(cellv(res, 2 * p) == cellv(cells2, 2 * p));
                assert(cellv(res, 2 * p + 1) == cellv(cells2, 2 * p + 1));
            }
        }
    }
}

/// Marking one order-`k` node (used, or free at exactly its order with
/// entirely-free children) and re-running the upward pass yields a
/// well-formed tree that differs from the starting array only at the node and its
/// strict ancestors, the latter all recomputed as merges.
pub proof fn lemma_mark_climb(cells: Seq<u8>, levels: int, n: int, k: int, v: u8)
    requires
        wf_cells(cells, levels),
        1 <= levels <= 255,
        0 <= k <= levels - 1,
        pow2i(levels - 1 - k) <= n < pow2i(levels - k),
        v == 0 || v as int == k + 1,
        k >= 1 ==> cellv(cells, 2 * n) == k && cellv(cells, 2 * n + 1) == k,
    ensures
        climb(cells.update(n - 1, v), n, k, levels - 1).len() == cells.len(),
        wf_cells(climb(cells.update(n - 1, v), n, k, levels - 1), levels),
        cellv(climb(cells.update(n - 1, v), n, k, levels - 1), n) == v,
        forall|j: int|
            1 <= j < pow2i(levels) && !anc(n, j) ==> #[trigger] cellv(
                climb(cells.update(n - 1, v), n, k, levels - 1),
                j,
            ) == cellv(cells, j),
        forall|j: int|
            proper_anc(n, j) ==> #[trigger] cellv(
                climb(cells.update(n - 1, v), n, k, levels - 1),
                j,
            ) == merge_val(
                cellv(climb(cells.update(n - 1, v), n, k, levels - 1), 2 * j),
                cellv(climb(cells.update(n - 1, v), n, k, levels - 1), 2 * j + 1),
                node_order(levels, j),
            ),
{
    let d = levels - 1 - k;
    lemma_pow2i_pos(d);
    lemma_pow2i_zero();
    lemma_pow2i_unfold(levels);
    lemma_pow2i_pos(levels - 1);
    lemma_depth_bracket(n, d);
    lemma_depth_children(n);
    lemma_pow2i_unfold(d + 1);
    lemma_pow2i_increases(d + 1, levels);
    let marked = cells.update(n - 1, v);
    assert(cellv(marked, n) == v);
    assert forall|j: int| 1 <= j < pow2i(levels) implies #[trigger] bound_ok(
        marked,
        levels,
        j,
    ) by {
        assert(bound_ok(cells, levels, j));
    }
    assert forall|j: int|
        1 <= j < pow2i(levels - 1) && !proper_anc(n, j) implies #[trigger] interior_ok(
        marked,
        levels,
        j,
    ) by {
        if j == n {
            assert(k >= 1) by {
                if k == 0 {
                    lemma_pow2i_increases(levels - 1, levels - 1);
                    lemma_depth_below(n, levels - 1);
                }
            }
            assert(cellv(marked, 2 * n) == k && cellv(marked, 2 * n + 1) == k);
            assert(node_order(levels, n) == k);
            if v == 0 {
                assert(interior_ok(marked, levels, n));
            } else {
                assert(recomputed(marked, levels, n));
            }
        } else {
            assert(interior_ok(cells, levels, j));
            if 2 * j == n || 2 * j + 1 == n {
                lemma_div2(j);
                lemma_anc_refl(j);
                lemma_anc_step(n, j);
                assert(false);
            }
            assert(cellv(marked, j) == cellv(cells, j));
            assert(cellv(marked, 2 * j) == cellv(cells, 2 * j));
            assert(cellv(marked, 2 * j + 1) == cellv(cells, 2 * j + 1));
        }
    }
    lemma_climb_props(marked, levels, n, k);
    let res = climb(marked, n, k, levels - 1);
    assert(!proper_anc(n, n));
    assert forall|j: int| 1 <= j < pow2i(levels) && !anc(n, j) implies #[trigger] cellv(
        res,
        j,
    ) == cellv(cells, j) by {
        assert(cellv(res, j) == cellv(marked, j));
    }
}

/// In a tree whose interior nodes are all exact merges and whose leaves are
/// all free, every node carries the entirely-free marking of its own order.
pub proof fn lemma_built_all_free(cells: Seq<u8>, levels: int, j: int, d: int)
    requires
        cells.len() == tree_len(levels),
        1 <= levels,
        built(cells, levels),
        forall|x: int|
            pow2i(levels - 1) <= x < pow2i(levels) ==> #[trigger] cellv(cells, x) == 1,
        0 <= d <= levels - 1,
        pow2i(d) <= j < pow2i(d + 1),
    ensures
        cellv(cells, j) == levels - d,
    decreases levels - d,
{
    lemma_pow2i_pos(d);
    lemma_depth_bracket(j, d);
    if d == levels - 1 {
    } else {
        lemma_pow2i_unfold(d + 1);
        lemma_pow2i_unfold(d + 2);
        lemma_pow2i_increases(d + 1, levels - 1);
        lemma_built_all_free(cells, levels, 2 * j, d + 1);
        lemma_built_all_free(cells, levels, 2 * j + 1, d + 1);
        assert(recomputed(cells, levels, j));
    }
}

/// Depth never decreases with the node index.
pub proof fn lemma_depth_monotone(a: int, b: int)
    requires
        1 <= a <= b,
    ensures
        node_depth(a) <= node_depth(b),
{
    lemma_bracket_of_depth(a);
    lemma_bracket_of_depth(b);
    lemma_depth_nonneg(a);
    lemma_depth_nonneg(b);
    if node_depth(a) > node_depth(b) {
        lemma_pow2i_increases(node_depth(b) + 1, node_depth(a));
    }
}

/// Two cell arrays that agree everywhere off the strict-ancestor path of a
/// node are mapped to the same array by the upward update pass.
pub proof fn lemma_climb_congruence(c1: Seq<u8>, c2: Seq<u8>, levels: int, i: int, o: int)
    requires
        c1.len() == tree_len(levels),
        c2.len() == tree_len(levels),
        1 <= levels <= 255,
        0 <= o <= levels - 1,
        pow2i(levels - 1 - o) <= i < pow2i(levels - o),
        forall|j: int|
            1 <= j < pow2i(levels) && !proper_anc(i, j) ==> #[trigger] cellv(c1, j) == cellv(
                c2,
                j,
            ),
    ensures
        climb(c1, i, o, levels - 1) == climb(c2, i, o, levels - 1),
    decreases levels - 1 - o,
{
    let d = levels - 1 - o;
    lemma_pow2i_pos(d);
    lemma_pow2i_zero();
    lemma_pow2i_unfold(levels);
    lemma_pow2i_pos(levels - 1);
    if o == levels - 1 {
        lemma_pow2i_unfold(1);
        assert(i == 1);
        assert forall|j: int| !proper_anc(1, j) by {
            if anc(1, j) && j != 1 {
                assert(anc(0, j));
            }
        }
        assert forall|x: int| 0 <= x < c1.len() implies c1[x] == c2[x] by {
            assert(cellv(c1, x + 1) == cellv(c2, x + 1));
        }
        assert(c1 =~= c2);
    } else {
        let p = i / 2;
        lemma_parent_bracket(i, d);
        lemma_fundamental_div_mod(i, 2);
        lemma_pow2i_unfold(d + 1);
        lemma_pow2i_increases(d + 1, levels);
        assert(i == 2 * p || i == 2 * p + 1);
        assert(!proper_anc(i, i));
        assert(!proper_anc(i, 2 * p) && !proper_anc(i, 2 * p + 1)) by {
            lemma_anc_step(i, 2 * p);
            lemma_anc_step(i, 2 * p + 1);
            if anc(p, 2 * p) {
                lemma_anc_bounds(p, 2 * p);
            }
            if anc(p, 2 * p + 1) {
                lemma_anc_bounds(p, 2 * p + 1);
            }
        }
        let mv = merge_val(cellv(c1, 2 * p), cellv(c1, 2 * p + 1), o + 1);
        assert(cellv(c1, 2 * p) == cellv(c2, 2 * p));
        assert(cellv(c1, 2 * p + 1) == cellv(c2, 2 * p + 1));
        let c1b = c1.update(p - 1, (mv as u8));
        let c2b = c2.update(p - 1, (mv as u8));
        assert forall|j: int| proper_anc(i, j) <==> (j == p || proper_anc(p, j)) by {
            lemma_anc_step(i, j);
            if p >= 2 {
                lemma_anc_step(p, j);
            } else {
                if anc(1, j) && j != 1 {
                    assert(anc(0, j));
                }
            }
        }
        assert forall|j: int|
            1 <= j < pow2i(levels) && !proper_anc(p, j) implies #[trigger] cellv(c1b, j) == cellv(
            c2b,
            j,
        ) by {
            if j != p {
                assert(cellv(c1, j) == cellv(c2, j));
            }
        }
        lemma_climb_congruence(c1b, c2b, levels, p, o + 1);
    }
}

/// When every strict ancestor of a node is already the merge of its
/// children, the upward update pass changes nothing.
pub proof fn lemma_climb_fixpoint(cells: Seq<u8>, levels: int, i: int, o: int)
    requires
        cells.len() == tree_len(levels),
        1 <= levels <= 255,
        0 <= o <= levels - 1,
        pow2i(levels - 1 - o) <= i < pow2i(levels - o),
        forall|j: int|
            proper_anc(i, j) ==> #[trigger] cellv(cells, j) == merge_val(
                cellv(cells, 2 * j),
                cellv(cells, 2 * j + 1),
                node_order(levels, j),
            ),
    ensures
        climb(cells, i, o, levels - 1) == cells,
    decreases levels - 1 - o,
{
    let d = levels - 1 - o;
    lemma_pow2i_pos(d);
    lemma_pow2i_zero();
    lemma_pow2i_unfold(levels);
    lemma_pow2i_pos(levels - 1);
    if o == levels - 1 {
    } else {
        let p = i / 2;
        lemma_parent_bracket(i, d);
        lemma_depth_bracket(p, d - 1);
        lemma_pow2i_increases(d, levels);
        lemma_anc_refl(p);
        lemma_anc_step(i, p);
        assert(proper_anc(i, p));
        assert(cellv(cells, p) == merge_val(
            cellv(cells, 2 * p),
            cellv(cells, 2 * p + 1),
            node_order(levels, p),
        ));
        let mv = merge_val(cellv(cells, 2 * p), cellv(cells, 2 * p + 1), o + 1);
        assert(node_order(levels, p) == o + 1);
        assert(cells.update(p - 1, (mv as u8)) =~= cells);
        assert forall|j: int| proper_anc(p, j) implies #[trigger] cellv(cells, j) == merge_val(
            cellv(cells, 2 * j),
            cellv(cells, 2 * j + 1),
            node_order(levels, j),
        ) by {
            lemma_anc_step(i, j);
            if p >= 2 {
                lemma_anc_step(p, j);
            } else {
                if anc(1, j) && j != 1 {
                    assert(anc(0, j));
                }
            }
        }
        lemma_climb_fixpoint(cells, levels, p, o + 1);
    }
}

/// In an entirely-free tree the descent always goes left, landing on the
/// leftmost node of the target level.
pub proof fn lemma_chosen_all_free(cells: Seq<u8>, levels: int, i: int, s: int, k: int)
    requires
        cells.len() == tree_len(levels),
        1 <= levels,
        forall|x: int|
            1 <= x < pow2i(levels) ==> #[trigger] cellv(cells, x) == node_order(levels, x) + 1,
        0 <= k,
        0 <= s,
        k + s <= levels - 1,
        pow2i(levels - 1 - k - s) <= i < pow2i(levels - k - s),
    ensures
        chosen_node(cells, i, s, k) == i * pow2i(s),
    decreases s,
{
    let d = levels - 1 - k - s;
    lemma_pow2i_pos(d);
    lemma_depth_bracket(i, d);
    if s == 0 {
        lemma_pow2i_zero();
    } else {
        lemma_pow2i_unfold(d + 1);
        lemma_pow2i_unfold(d + 2);
        lemma_pow2i_increases(d + 2, levels);
        lemma_pow2i_unfold(levels);
        lemma_pow2i_pos(levels - 1);
        lemma_depth_children(i);
        assert(cellv(cells, 2 * i) == node_order(levels, 2 * i) + 1);
        assert(node_order(levels, 2 * i) == k + s - 1);
        lemma_chosen_all_free(cells, levels, 2 * i, s - 1, k);
        lemma_pow2i_unfold(s);
        assert((2 * i) * pow2i(s - 1) == i * pow2i(s)) by (nonlinear_arith)
            requires
                pow2i(s) == 2 * pow2i(s - 1),
        ;
    }
}

/// After one node of order `k` has been taken (its cache dropped to `k` or
/// below) and nothing off its ancestor path has changed, a second descent
/// for order `k` lands strictly to the right of it.
pub proof fn lemma_chosen_after_mark(
    cells0: Seq<u8>,
    cells1: Seq<u8>,
    levels: int,
    i: int,
    s: int,
    k: int,
    n0: int,
)
    requires
        wf_cells(cells1, levels),
        0 <= k,
        0 <= s,
        k + s <= levels - 1,
        pow2i(levels - 1 - k - s) <= i < pow2i(levels - k - s),
        chosen_node(cells0, i, s, k) == n0,
        cellv(cells1, n0) <= k,
        cellv(cells1, i) > k,
        forall|j: int|
            1 <= j < pow2i(levels) && !anc(n0, j) ==> #[trigger] cellv(cells1, j) == cellv(
                cells0,
                j,
            ),
    ensures
        chosen_node(cells1, i, s, k) > n0,
    decreases s,
{
    let d = levels - 1 - k - s;
    lemma_pow2i_pos(d);
    lemma_depth_bracket(i, d);
    if s == 0 {
        assert(false);
    } else {
        lemma_pow2i_unfold(d + 1);
        lemma_pow2i_unfold(d + 2);
        lemma_pow2i_increases(d + 2, levels);
        lemma_pow2i_unfold(levels);
        lemma_pow2i_pos(levels - 1);
        lemma_pow2i_pos(s - 1);
        let c0: int = if cellv(cells0, 2 * i) > k {
            2 * i
        } else {
            2 * i + 1
        };
        lemma_chosen_anc(cells0, c0, s - 1, k);
        if c0 == 2 * i {
            if cellv(cells1, 2 * i) > k {
                lemma_chosen_after_mark(cells0, cells1, levels, 2 * i, s - 1, k, n0);
            } else {
                lemma_chosen_bracket(cells1, 2 * i + 1, s - 1, k);
                lemma_chosen_bracket(cells0, 2 * i, s - 1, k);
                assert((2 * i + 1) * pow2i(s - 1) == (2 * i) * pow2i(s - 1) + pow2i(s - 1))
                    by (nonlinear_arith);
            }
        } else {
            lemma_anc_not_both_children(n0, i);
            assert(cellv(cells1, 2 * i) == cellv(cells0, 2 * i));
            lemma_pow2i_increases(d + 1, levels - 1);
            lemma_step_right(cells1, levels, i, k);
            lemma_chosen_after_mark(cells0, cells1, levels, 2 * i + 1, s - 1, k, n0);
        }
    }
}

pub proof fn lemma_free_count_nonneg(cells: Seq<u8>, i: int, o: int, k: int)
    ensures
        0 <= free_count(cells, i, o, k),
    decreases o - k,
{
    if cellv(cells, i) > k && o > k {
        lemma_free_count_nonneg(cells, 2 * i, o - 1, k);
        lemma_free_count_nonneg(cells, 2 * i + 1, o - 1, k);
    }
}

/// The order-`k` capacity of a subtree depends only on the cells inside it.
pub proof fn lemma_free_count_congruence(
    c1: Seq<u8>,
    c2: Seq<u8>,
    levels: int,
    i: int,
    d: int,
    k: int,
)
    requires
        1 <= levels,
        0 <= k,
        0 <= d,
        k <= levels - 1 - d,
        pow2i(d) <= i < pow2i(d + 1),
        forall|j: int|
            1 <= j < pow2i(levels) && anc(j, i) ==> #[trigger] cellv(c1, j) == cellv(c2, j),
    ensures
        free_count(c1, i, levels - 1 - d, k) == free_count(c2, i, levels - 1 - d, k),
    decreases levels - 1 - d - k,
{
    let o = levels - 1 - d;
    lemma_pow2i_pos(d);
    lemma_pow2i_increases(d + 1, levels);
    lemma_anc_refl(i);
    assert(cellv(c1, i) == cellv(c2, i));
    if cellv(c1, i) > k && o > k {
        lemma_pow2i_unfold(d + 1);
        lemma_pow2i_unfold(d + 2);
        lemma_div2(i);
        assert forall|j: int|
            1 <= j < pow2i(levels) && anc(j, 2 * i) implies #[trigger] cellv(c1, j) == cellv(
            c2,
            j,
        ) by {
            lemma_anc_parent(j, 2 * i);
        }
        assert forall|j: int|
            1 <= j < pow2i(levels) && anc(j, 2 * i + 1) implies #[trigger] cellv(c1, j) == cellv(
            c2,
            j,
        ) by {
            lemma_anc_parent(j, 2 * i + 1);
        }
        lemma_free_count_congruence(c1, c2, levels, 2 * i, d + 1, k);
        lemma_free_count_congruence(c1, c2, levels, 2 * i + 1, d + 1, k);
    }
}

/// An entirely-free subtree of order `o` can satisfy `2^(o - k)` order-`k`
/// requests.
pub proof fn lemma_free_count_all_free(cells: Seq<u8>, levels: int, i: int, d: int, k: int)
    requires
        1 <= levels,
        forall|x: int|
            1 <= x < pow2i(levels) ==> #[trigger] cellv(cells, x) == node_order(levels, x) + 1,
        0 <= k,
        0 <= d,
        k <= levels - 1 - d,
        pow2i(d) <= i < pow2i(d + 1),
    ensures
        free_count(cells, i, levels - 1 - d, k) == pow2i(levels - 1 - d - k),
    decreases levels - 1 - d - k,
{
    let o = levels - 1 - d;
    lemma_pow2i_pos(d);
    lemma_pow2i_zero();
    lemma_depth_bracket(i, d);
    lemma_pow2i_increases(d + 1, levels);
    assert(cellv(cells, i) == o + 1);
    if o > k {
        lemma_pow2i_unfold(d + 1);
        lemma_pow2i_unfold(d + 2);
        lemma_free_count_all_free(cells, levels, 2 * i, d + 1, k);
        lemma_free_count_all_free(cells, levels, 2 * i + 1, d + 1, k);
        lemma_pow2i_unfold(o - k);
    }
}

/// The cache of a subtree's root sees an order above `k` exactly when the
/// subtree has order-`k` capacity left.
pub proof fn lemma_free_count_pos(cells: Seq<u8>, levels: int, i: int, d: int, k: int)
    requires
        wf_cells(cells, levels),
        1 <= levels,
        0 <= k,
        0 <= d,
        k <= levels - 1 - d,
        pow2i(d) <= i < pow2i(d + 1),
    ensures
        free_count(cells, i, levels - 1 - d, k) > 0 <==> cellv(cells, i) > k,
    decreases levels - 1 - d - k,
{
    let o = levels - 1 - d;
    lemma_pow2i_pos(d);
    lemma_depth_bracket(i, d);
    lemma_pow2i_increases(d + 1, levels);
    if cellv(cells, i) > k && o > k {
        lemma_pow2i_unfold(d + 1);
        lemma_pow2i_unfold(d + 2);
        lemma_pow2i_increases(d + 1, levels - 1);
        assert(interior_ok(cells, levels, i));
        lemma_free_count_pos(cells, levels, 2 * i, d + 1, k);
        lemma_free_count_pos(cells, levels, 2 * i + 1, d + 1, k);
        lemma_free_count_nonneg(cells, 2 * i, o - 1, k);
        lemma_free_count_nonneg(cells, 2 * i + 1, o - 1, k);
        assert(cellv(cells, 2 * i) > k || cellv(cells, 2 * i + 1) > k);
    }
}

/// Marking the chosen node used and recomputing its ancestors removes
/// exactly one unit of order-`k` capacity from every subtree along the
/// allocation path.
pub proof fn lemma_free_count_alloc(
    cells0: Seq<u8>,
    cells1: Seq<u8>,
    levels: int,
    a: int,
    da: int,
    k: int,
    n: int,
)
    requires
        1 <= levels,
        0 <= k,
        0 <= da,
        k <= levels - 1 - da,
        pow2i(da) <= a < pow2i(da + 1),
        pow2i(levels - 1 - k) <= n < pow2i(levels - k),
        anc(n, a),
        forall|j: int| anc(n, j) && anc(j, a) ==> #[trigger] cellv(cells0, j) > k,
        cellv(cells0, n) == k + 1,
        cellv(cells1, n) <= k,
        forall|j: int|
            1 <= j < pow2i(levels) && !anc(n, j) ==> #[trigger] cellv(cells1, j) == cellv(
                cells0,
                j,
            ),
        forall|j: int|
            proper_anc(n, j) ==> #[trigger] cellv(cells1, j) == merge_val(
                cellv(cells1, 2 * j),
                cellv(cells1, 2 * j + 1),
                node_order(levels, j),
            ),
    ensures
        free_count(cells1, a, levels - 1 - da, k) == free_count(cells0, a, levels - 1 - da, k)
            - 1,
    decreases levels - 1 - da - k,
{
    let o = levels - 1 - da;
    lemma_pow2i_pos(da);
    lemma_pow2i_pos(levels - 1 - k);
    lemma_depth_bracket(a, da);
    lemma_depth_bracket(n, levels - 1 - k);
    lemma_anc_refl(a);
    if o == k {
        assert(a == n) by {
            if a != n {
                if n == 1 {
                    assert(anc(0, a));
                    assert(false);
                }
                lemma_anc_step(n, a);
                lemma_anc_bounds(n / 2, a);
                lemma_fundamental_div_mod(n, 2);
                lemma_depth_monotone(a, n / 2);
                assert(node_depth(n) == 1 + node_depth(n / 2));
            }
        }
    } else {
        assert(a != n);
        lemma_anc_through_child(n, a);
        let c: int = if anc(n, 2 * a) {
            2 * a
        } else {
            2 * a + 1
        };
        let sb: int = if c == 2 * a {
            2 * a + 1
        } else {
            2 * a
        };
        lemma_pow2i_unfold(da + 1);
        lemma_pow2i_unfold(da + 2);
        lemma_pow2i_increases(da + 2, levels);
        lemma_anc_not_both_children(n, a);
        lemma_div2(a);
        // the on-path child is an ancestor-or-self chain member of n
        assert(anc(c, a)) by {
            lemma_anc_refl(c);
        }
        assert(cellv(cells0, a) > k);
        // the off-path sibling's whole subtree is untouched
        assert forall|j: int|
            1 <= j < pow2i(levels) && anc(j, sb) implies #[trigger] cellv(cells1, j) == cellv(
            cells0,
            j,
        ) by {
            if anc(n, j) {
                lemma_anc_trans(n, j, sb);
                assert(false);
            }
        }
        lemma_free_count_congruence(cells1, cells0, levels, sb, da + 1, k);
        // the on-path child loses exactly one unit
        assert forall|j: int| anc(n, j) && anc(j, c) implies #[trigger] cellv(cells0, j) > k by {
            lemma_anc_trans(j, c, a);
        }
        lemma_free_count_alloc(cells0, cells1, levels, c, da + 1, k, n);
        lemma_free_count_nonneg(cells0, c, o - 1, k);
        lemma_free_count_nonneg(cells0, sb, o - 1, k);
        if cellv(cells1, a) > k {
        } else {
            // the recomputed parent dominates both children, so both
            // children's capacities have run out
            assert(proper_anc(n, a));
            assert(cellv(cells1, a) == merge_val(
                cellv(cells1, 2 * a),
                cellv(cells1, 2 * a + 1),
                node_order(levels, a),
            ));
            assert(cellv(cells1, c) <= k && cellv(cells1, sb) <= k);
            assert(free_count(cells1, c, o - 1, k) == 0);
            assert(free_count(cells1, sb, o - 1, k) == 0);
        }
    }
}

/// Every node inside an entirely-free block's subtree carries the
/// entirely-free marking of its own order.
pub proof fn lemma_full_free_subtree(cells: Seq<u8>, levels: int, c: int, x: int)
    requires
        wf_cells(cells, levels),
        1 <= levels,
        1 <= c < pow2i(levels),
        cellv(cells, c) == node_order(levels, c) + 1,
        anc(x, c),
        x < pow2i(levels),
    ensures
        cellv(cells, x) == node_order(levels, x) + 1,
    decreases x - c,
{
    lemma_anc_bounds(x, c);
    if x != c {
        lemma_anc_through_child(x, c);
        lemma_pow2i_unfold(levels);
        lemma_pow2i_pos(levels - 1);
        let ci: int = if anc(x, 2 * c) {
            2 * c
        } else {
            2 * c + 1
        };
        lemma_anc_bounds(x, ci);
        assert(c < pow2i(levels - 1));
        lemma_full_free_children(cells, levels, c);
        lemma_depth_children(c);
        lemma_full_free_subtree(cells, levels, ci, x);
    }
}

/// A node inside the index window of another node's subtree level descends
/// from that node.
pub proof fn lemma_bracket_anc(y: int, x: int, t: int)
    requires
        1 <= x,
        0 <= t,
        x * pow2i(t) <= y < (x + 1) * pow2i(t),
    ensures
        anc(y, x),
    decreases t,
{
    lemma_pow2i_pos(t);
    if t == 0 {
        lemma_pow2i_zero();
        lemma_anc_refl(x);
    } else {
        lemma_pow2i_unfold(t);
        lemma_fundamental_div_mod(y, 2);
        assert(x * pow2i(t) == (x * pow2i(t - 1)) * 2 && (x + 1) * pow2i(t) == ((x + 1) * pow2i(
            t - 1,
        )) * 2) by (nonlinear_arith)
            requires
                pow2i(t) == 2 * pow2i(t - 1),
        ;
        assert(x * pow2i(t - 1) <= y / 2 < (x + 1) * pow2i(t - 1));
        lemma_bracket_anc(y / 2, x, t - 1);
    }
}

/// Two nodes neither of which descends from the other cover disjoint
/// byte ranges.
pub proof fn lemma_unrelated_disjoint(levels: int, base_order: int, x: int, y: int)
    requires
        1 <= levels,
        0 <= base_order,
        1 <= x < pow2i(levels),
        1 <= y < pow2i(levels),
        !anc(x, y),
        !anc(y, x),
        node_depth(x) <= node_depth(y),
    ensures
        node_low(levels, base_order, y) + node_span(levels, base_order, y) <= node_low(
            levels,
            base_order,
            x,
        ) || node_low(levels, base_order, x) + node_span(levels, base_order, x) <= node_low(
            levels,
            base_order,
            y,
        ),
{
    let dx = node_depth(x);
    let dy = node_depth(y);
    let t = dy - dx;
    lemma_depth_nonneg(x);
    lemma_depth_nonneg(y);
    lemma_bracket_of_depth(x);
    lemma_bracket_of_depth(y);
    lemma_depth_below(x, levels);
    lemma_depth_below(y, levels);
    let sx = pow2i(levels - 1 + base_order - dx);
    let sy = pow2i(levels - 1 + base_order - dy);
    lemma_pow2i_pos(levels - 1 + base_order - dy);
    lemma_pow2i_pos(t);
    lemma_pow2i_pos(dx);
    lemma_pow2i_pos(dy);
    lemma_pow2i_adds(t, levels - 1 + base_order - dy);
    lemma_pow2i_adds(dx, t);
    assert(sx == pow2i(t) * sy);
    assert(pow2i(dy) == pow2i(dx) * pow2i(t));
    if x * pow2i(t) <= y < (x + 1) * pow2i(t) {
        lemma_bracket_anc(y, x, t);
        assert(false);
    }
    if y < x * pow2i(t) {
        // y's block ends before x's begins
        assert((y - pow2i(dy)) * sy + sy <= (x - pow2i(dx)) * sx) by (nonlinear_arith)
            requires
                y + 1 <= x * pow2i(t),
                pow2i(dy) == pow2i(dx) * pow2i(t),
                sx == pow2i(t) * sy,
                sy >= 1,
                pow2i(t) >= 1,
        ;
    } else {
        // x's block ends before y's begins
        assert((x - pow2i(dx)) * sx + sx <= (y - pow2i(dy)) * sy) by (nonlinear_arith)
            requires
                (x + 1) * pow2i(t) <= y,
                pow2i(dy) == pow2i(dx) * pow2i(t),
                sx == pow2i(t) * sy,
                sy >= 1,
                pow2i(t) >= 1,
        ;
    }
}

/// A descendant's byte range lies inside its ancestor's byte range.
pub proof fn lemma_span_nested(levels: int, base_order: int, y: int, c: int)
    requires
        1 <= levels,
        0 <= base_order,
        anc(y, c),
        node_depth(y) <= levels - 1 + base_order,
    ensures
        node_low(levels, base_order, c) <= node_low(levels, base_order, y),
        node_low(levels, base_order, y) + node_span(levels, base_order, y) <= node_low(
            levels,
            base_order,
        c) + node_span(levels, base_order, c),
    decreases y,
{
    lemma_anc_bounds(y, c);
    if y != c {
        lemma_fundamental_div_mod(y, 2);
        lemma_anc_bounds(y / 2, c);
        lemma_span_nested(levels, base_order, y / 2, c);
        let p = y / 2;
        let dp = node_depth(p);
        lemma_depth_nonneg(p);
        assert(node_depth(y) == dp + 1);
        let sp = pow2i(levels - 1 + base_order - dp);
        let sy = pow2i(levels - 1 + base_order - dp - 1);
        lemma_pow2i_unfold(levels - 1 + base_order - dp);
        lemma_pow2i_unfold(dp + 1);
        lemma_pow2i_pos(levels - 1 + base_order - dp - 1);
        lemma_bracket_of_depth(p);
        assert(y == 2 * p || y == 2 * p + 1);
        assert((2 * p - pow2i(dp + 1)) * sy == (p - pow2i(dp)) * sp && (2 * p + 1 - pow2i(
            dp + 1,
        )) * sy == (p - pow2i(dp)) * sp + sy) by (nonlinear_arith)
            requires
                sp == 2 * sy,
                pow2i(dp + 1) == 2 * pow2i(dp),
        ;
    }
}

/// The two children of one node cover adjacent byte ranges.
pub proof fn lemma_sibling_spans(levels: int, base_order: int, a: int)
    requires
        1 <= levels,
        0 <= base_order,
        1 <= a,
        node_depth(a) + 1 <= levels - 1 + base_order,
    ensures
        node_low(levels, base_order, 2 * a) + node_span(levels, base_order, 2 * a) == node_low(
            levels,
            base_order,
            2 * a + 1,
        ),
        node_low(levels, base_order, 2 * a) == node_low(levels, base_order, a),
{
    lemma_depth_children(a);
    lemma_depth_nonneg(a);
    let da = node_depth(a);
    let sa = pow2i(levels - 1 + base_order - da);
    let sc = pow2i(levels - 1 + base_order - da - 1);
    lemma_pow2i_unfold(levels - 1 + base_order - da);
    lemma_pow2i_unfold(da + 1);
    lemma_pow2i_pos(levels - 1 + base_order - da - 1);
    assert((2 * a - pow2i(da + 1)) * sc == (a - pow2i(da)) * sa && (2 * a + 1 - pow2i(da + 1))
        * sc == (a - pow2i(da)) * sa + sc) by (nonlinear_arith)
        requires
            sa == 2 * sc,
            pow2i(da + 1) == 2 * pow2i(da),
    ;
}

/// Going toward an entirely-free node whose order is at least `k`, every
/// node on the way whose cache is live sees an order above `k`.
pub proof fn lemma_live_free_cache(cells: Seq<u8>, levels: int, y: int, a: int, k: int)
    requires
        wf_cells(cells, levels),
        1 <= levels,
        1 <= y < pow2i(levels),
        cellv(cells, y) == node_order(levels, y) + 1,
        0 <= k <= node_order(levels, y),
        anc(y, a),
        forall|j: int|
            proper_anc(y, j) && anc(j, a) ==> #[trigger] cellv(cells, j) != 0,
    ensures
        cellv(cells, a) > k,
    decreases y - a,
{
    lemma_anc_bounds(y, a);
    if a == y {
    } else {
        lemma_anc_through_child(y, a);
        let c: int = if anc(y, 2 * a) {
            2 * a
        } else {
            2 * a + 1
        };
        lemma_anc_bounds(y, c);
        lemma_pow2i_unfold(levels);
        lemma_pow2i_pos(levels - 1);
        assert(a < pow2i(levels - 1));
        lemma_depth_children(a);
        lemma_div2(a);
        lemma_anc_refl(a);
        assert(anc(c, a)) by {
            if c == 2 * a {
                assert(anc(2 * a, a));
            } else {
                assert(anc(2 * a + 1, a));
            }
        }
        assert forall|j: int| proper_anc(y, j) && anc(j, c) implies #[trigger] cellv(cells, j)
            != 0 by {
            lemma_anc_trans(j, c, a);
        }
        lemma_live_free_cache(cells, levels, y, c, k);
        assert(cellv(cells, a) != 0) by {
            lemma_anc_refl(a);
            assert(proper_anc(y, a) && anc(a, a));
        }
        assert(interior_ok(cells, levels, a));
    }
}

/// Inside an entirely-free subtree the descent always goes left.
pub proof fn lemma_chosen_subtree_free(cells: Seq<u8>, levels: int, i: int, s: int, k: int)
    requires
        wf_cells(cells, levels),
        1 <= levels,
        0 <= k,
        0 <= s,
        k + s <= levels - 1,
        pow2i(levels - 1 - k - s) <= i < pow2i(levels - k - s),
        cellv(cells, i) == node_order(levels, i) + 1,
    ensures
        chosen_node(cells, i, s, k) == i * pow2i(s),
    decreases s,
{
    let d = levels - 1 - k - s;
    lemma_pow2i_pos(d);
    lemma_depth_bracket(i, d);
    if s == 0 {
        lemma_pow2i_zero();
    } else {
        lemma_pow2i_unfold(d + 1);
        lemma_pow2i_unfold(d + 2);
        lemma_pow2i_increases(d + 1, levels - 1);
        lemma_pow2i_unfold(levels);
        lemma_pow2i_pos(levels - 1);
        lemma_depth_children(i);
        lemma_full_free_children(cells, levels, i);
        lemma_chosen_subtree_free(cells, levels, 2 * i, s - 1, k);
        lemma_pow2i_unfold(s);
        lemma_pow2i_pos(s - 1);
        assert((2 * i) * pow2i(s - 1) == i * pow2i(s)) by (nonlinear_arith)
            requires
                pow2i(s) == 2 * pow2i(s - 1),
        ;
    }
}

/// The descent lands on the lowest-addressed block among all live
/// entirely-free blocks of order at least `k` in its subtree: for any such
/// block `y`, the chosen node's first byte is no later than `y`'s.
pub proof fn lemma_chosen_minimal(
    cells: Seq<u8>,
    levels: int,
    base_order: int,
    i: int,
    s: int,
    k: int,
    y: int,
)
    requires
        wf_cells(cells, levels),
        1 <= levels,
        0 <= base_order,
        node_depth(y) <= levels - 1 + base_order,
        0 <= k,
        0 <= s,
        k + s <= levels - 1,
        pow2i(levels - 1 - k - s) <= i < pow2i(levels - k - s),
        cellv(cells, i) > k,
        1 <= y < pow2i(levels),
        anc(y, i),
        cellv(cells, y) == node_order(levels, y) + 1,
        k <= node_order(levels, y),
        forall|j: int| proper_anc(y, j) && anc(j, i) ==> #[trigger] cellv(cells, j) != 0,
    ensures
        node_low(levels, base_order, chosen_node(cells, i, s, k)) <= node_low(
            levels,
            base_order,
            y,
        ),
    decreases s,
{
    let d = levels - 1 - k - s;
    let mos = levels - 1 + base_order;
    let n = chosen_node(cells, i, s, k);
    lemma_pow2i_pos(d);
    lemma_pow2i_pos(s);
    lemma_depth_bracket(i, d);
    lemma_depth_nonneg(y);
    lemma_anc_bounds(y, i);
    if i == y {
        lemma_chosen_subtree_free(cells, levels, i, s, k);
        lemma_pow2i_adds(d, s);
        assert(pow2i(d) * pow2i(s) <= i * pow2i(s) < (pow2i(d + 1)) * pow2i(s))
            by (nonlinear_arith)
            requires
                pow2i(d) <= i < pow2i(d + 1),
                pow2i(s) >= 1,
        ;
        lemma_pow2i_adds(d + 1, s);
        lemma_depth_bracket(i * pow2i(s), d + s);
        lemma_pow2i_adds(s, mos - d - s);
        lemma_pow2i_pos(mos - d - s);
        assert((i * pow2i(s) - pow2i(d) * pow2i(s)) * pow2i(mos - d - s) == (i - pow2i(d)) * (
        pow2i(s) * pow2i(mos - d - s))) by (nonlinear_arith);
    } else if s == 0 {
        lemma_fundamental_div_mod(y, 2);
        lemma_anc_bounds(y / 2, i);
        lemma_depth_monotone(i, y / 2);
        assert(node_depth(y) == 1 + node_depth(y / 2));
        assert(false);
    } else {
        lemma_pow2i_unfold(d + 1);
        lemma_pow2i_unfold(d + 2);
        lemma_pow2i_increases(d + 1, levels - 1);
        lemma_pow2i_unfold(levels);
        lemma_pow2i_pos(levels - 1);
        lemma_depth_children(i);
        lemma_div2(i);
        lemma_anc_refl(i);
        lemma_anc_through_child(y, i);
        let cy: int = if anc(y, 2 * i) {
            2 * i
        } else {
            2 * i + 1
        };
        assert(anc(2 * i, i) && anc(2 * i + 1, i)) by {
            assert(anc(2 * i, i));
            assert(anc(2 * i + 1, i));
        }
        assert forall|j: int| proper_anc(y, j) && anc(j, cy) implies #[trigger] cellv(cells, j)
            != 0 by {
            lemma_anc_trans(j, cy, i);
        }
        if cellv(cells, 2 * i) > k {
            if cy == 2 * i {
                lemma_chosen_minimal(cells, levels, base_order, 2 * i, s - 1, k, y);
            } else {
                // the whole left subtree precedes y's block
                lemma_chosen_props(cells, levels, 2 * i, s - 1, k);
                lemma_chosen_anc(cells, 2 * i, s - 1, k);
                lemma_depth_bracket(chosen_node(cells, 2 * i, s - 1, k), levels - 1 - k);
                lemma_span_nested(levels, base_order, chosen_node(cells, 2 * i, s - 1, k), 2 * i);
                lemma_sibling_spans(levels, base_order, i);
                lemma_span_nested(levels, base_order, y, 2 * i + 1);
                lemma_pow2i_pos(mos - (levels - 1 - k));
            }
        } else {
            if cy == 2 * i {
                lemma_live_free_cache(cells, levels, y, 2 * i, k);
                assert(false);
            } else {
                lemma_step_right(cells, levels, i, k);
                lemma_chosen_minimal(cells, levels, base_order, 2 * i + 1, s - 1, k, y);
            }
        }
    }
}

} // verus!
