//! The flat-array buddy tree: cells, index arithmetic, construction from
//! usable ranges, allocation, deallocation, and the layout shim.

use vstd::prelude::*;
use vstd::arithmetic::div_mod::lemma_fundamental_div_mod;
use vstd::arithmetic::div_mod::lemma_mod_multiples_basic;
use vstd::arithmetic::power2::lemma2_to64;
use vstd::arithmetic::power2::lemma2_to64_rest;
use crate::model::TreeModel;
use crate::model::alloc_addr;
use crate::model::alloc_cells;
use crate::model::alloc_chosen;
use crate::model::alloc_order_post;
use crate::model::all_free;
use crate::model::built;
use crate::model::cellv;
use crate::model::chosen_node;
use crate::model::climb;
use crate::model::covered;
use crate::model::dealloc_cells;
use crate::model::dealloc_index;
use crate::model::dealloc_order_post;
use crate::model::dealloc_pre;
use crate::model::interior_ok;
use crate::model::layout_order;
use crate::model::leaf_high;
use crate::model::leaf_low;
use crate::model::leaf_value;
use crate::model::log2_ceil_of;
use crate::model::log2_floor_of;
use crate::model::merge_val;
use crate::model::node_order;
use crate::model::pow2i;
use crate::model::recomputed;
use crate::model::tree_len;
use crate::model::wf;
use crate::model::bound_ok;
use crate::lemmas::lemma_built_all_free;
use crate::lemmas::lemma_depth_bracket;
use crate::lemmas::lemma_depth_children;
use crate::lemmas::lemma_full_free_children;
use crate::lemmas::lemma_mark_climb;
use crate::lemmas::lemma_parent_bracket;
use crate::lemmas::lemma_pow2i_adds;
use crate::lemmas::lemma_pow2i_increases;
use crate::lemmas::lemma_pow2i_pos;
use crate::lemmas::lemma_pow2i_unfold;
use crate::lemmas::lemma_pow2i_zero;
use crate::lemmas::lemma_step_right;

verus! {

/// One node of the buddy tree: the cached "largest free order plus one" of
/// the subtree rooted here; 0 means the subtree holds no free block.
#[derive(Copy, Clone, Debug)]
pub struct Block {
    pub order_free: u8,
}

impl Block {
    /// A cell marking an entirely-free block of the given order.
    pub fn new_free(order: u8) -> (r: Block)
        requires
            order < 255,
        ensures
            r.order_free == order + 1,
    {
        Block { order_free: order + 1 }
    }

    /// A cell marking a subtree with no free block.
    pub fn new_used() -> (r: Block)
        ensures
            r.order_free == 0,
    {
        Block { order_free: 0 }
    }
}

/// `2^levels - 1`: the number of nodes in a complete binary tree.
pub fn blocks_in_tree(levels: u8) -> (r: usize)
    requires
        pow2i(levels as int) <= usize::MAX as int,
    ensures
        r as int == tree_len(levels as int),
{
    proof {
        lemma_pow2i_pos(levels as int);
    }
    pow2_usize(levels) - 1
}

/// `2^level`: the number of nodes on one level.
fn blocks_in_level(level: u8) -> (r: usize)
    requires
        pow2i(level as int) <= usize::MAX as int,
    ensures
        r as int == pow2i(level as int),
{
    pow2_usize(level)
}

/// Left child of a one-indexed node.
pub fn left_child(index: usize) -> (r: usize)
    requires
        1 <= index,
        2 * (index as int) <= usize::MAX as int,
    ensures
        r == 2 * index,
{
    index * 2
}

/// Parent of a one-indexed node.
pub fn parent(index: usize) -> (r: usize)
    requires
        1 <= index,
    ensures
        r as int == index as int / 2,
{
    index / 2
}

/// `2^e` as a machine word.
fn pow2_usize(e: u8) -> (r: usize)
    requires
        pow2i(e as int) <= usize::MAX as int,
    ensures
        r as int == pow2i(e as int),
{
    let mut r: usize = 1;
    let mut i: u8 = 0;
    proof {
        lemma_pow2i_zero();
    }
    while i < e
        invariant
            i <= e,
            r as int == pow2i(i as int),
            pow2i(e as int) <= usize::MAX as int,
        decreases e as int - i as int,
    {
        proof {
            lemma_pow2i_unfold(i as int + 1);
            lemma_pow2i_increases(i as int + 1, e as int);
        }
        r = r * 2;
        i = i + 1;
    }
    r
}

fn const_max(left: u8, right: u8) -> (r: u8)
    ensures
        r as int == if left as int >= right as int {
            left as int
        } else {
            right as int
        },
{
    if left > right {
        left
    } else {
        right
    }
}

/// No machine word reaches `2^64`.
proof fn lemma_usize_max_bound()
    ensures
        (usize::MAX as int) < pow2i(64),
{
    lemma2_to64();
    lemma2_to64_rest();
}

/// Base-2 logarithm rounded down (0 for inputs below 2).
fn log2_floor(val: usize) -> (r: u8)
    ensures
        r as int == log2_floor_of(val as int),
        r <= 63,
        pow2i(r as int) <= usize::MAX as int,
{
    let mut v = val;
    let mut log2: u8 = 0;
    proof {
        lemma_pow2i_zero();
        lemma_usize_max_bound();
    }
    while v > 1
        invariant
            log2_floor_of(val as int) == log2 as int + log2_floor_of(v as int),
            v <= val,
            v >= 1 || val == 0,
            v >= 1 ==> pow2i(log2 as int) * v as int <= val as int,
            v == 0 ==> log2 == 0,
            log2 <= 63,
            (usize::MAX as int) < pow2i(64),
        decreases v,
    {
        proof {
            lemma_pow2i_unfold(log2 as int + 1);
            lemma_fundamental_div_mod(v as int, 2);
            assert(pow2i(log2 as int + 1) * (v as int / 2) <= pow2i(log2 as int) * v as int)
                by (nonlinear_arith)
                requires
                    pow2i(log2 as int + 1) == 2 * pow2i(log2 as int),
                    2 * (v as int / 2) <= v as int,
                    pow2i(log2 as int) >= 0,
            ;
            lemma_pow2i_pos(log2 as int);
            if log2 as int + 1 > 63 {
                lemma_pow2i_increases(64, log2 as int + 1);
                assert((v as int / 2) >= 1);
                assert(pow2i(log2 as int + 1) * 1 <= pow2i(log2 as int + 1) * (v as int / 2))
                    by (nonlinear_arith)
                    requires
                        pow2i(log2 as int + 1) >= 0,
                        v as int / 2 >= 1,
                ;
                assert(false);
            }
        }
        v = v / 2;
        log2 = log2 + 1;
    }
    proof {
        lemma_pow2i_pos(log2 as int);
        if v == 1 {
            assert(pow2i(log2 as int) * 1 == pow2i(log2 as int));
        }
    }
    log2
}

/// Base-2 logarithm rounded up.
fn log2_ceil(val: usize) -> (r: u8)
    ensures
        r as int == log2_ceil_of(val as int),
        r <= 64,
{
    let log2 = log2_floor(val);
    let p = pow2_usize(log2);
    if val != p {
        log2 + 1
    } else {
        log2
    }
}

/// A buddy tree over a flat array of cells.  `levels` is the number of tree
/// levels; leaves stand for blocks of `2^base_order` bytes.
pub struct Tree {
    blocks: Vec<Block>,
    levels: u8,
    base_order: u8,
}

impl View for Tree {
    type V = TreeModel;

    closed spec fn view(&self) -> TreeModel {
        TreeModel {
            cells: self.blocks@.map_values(|b: Block| b.order_free),
            levels: self.levels as int,
            base_order: self.base_order as int,
        }
    }
}

/// Whether some usable range wholly contains `[lo, hi]`.
fn range_covers(usable: &Vec<(usize, usize)>, lo: usize, hi: usize) -> (r: bool)
    ensures
        r == covered(usable@, lo as int, hi as int),
{
    let mut t: usize = 0;
    while t < usable.len()
        invariant
            t <= usable.len(),
            forall|x: int|
                0 <= x < t ==> !((#[trigger] usable@[x]).0 <= lo && hi <= usable@[x].1),
        decreases usable.len() - t,
    {
        let (lo_r, hi_r) = usable[t];
        if lo_r <= lo && hi <= hi_r {
            return true;
        }
        t = t + 1;
    }
    false
}

impl Tree {
    /// The order of the single root block.
    pub fn max_order(&self) -> (r: u8)
        requires
            wf(self@),
        ensures
            r as int == self@.levels - 1,
    {
        self.levels - 1
    }

    /// Log2 of the total region size in bytes.
    pub fn max_order_size(&self) -> (r: u8)
        requires
            wf(self@),
        ensures
            r as int == self@.levels - 1 + self@.base_order,
    {
        self.levels - 1 + self.base_order
    }

    /// The number of cells in the tree.
    pub fn total_blocks(&self) -> (r: usize)
        requires
            wf(self@),
        ensures
            r as int == tree_len(self@.levels),
    {
        blocks_in_tree(self.levels)
    }

    /// How many blocks of the given order the tree is divided into.
    pub fn blocks_in_order(&self, order: u8) -> (r: usize)
        requires
            wf(self@),
            order as int <= self@.levels - 1,
        ensures
            r as int == pow2i(self@.levels - 1 - order as int),
    {
        proof {
            lemma_pow2i_increases(self@.levels - 1 - order as int, self@.levels);
        }
        blocks_in_level(self.levels - 1 - order)
    }

    /// Read-only view of one cell (zero-indexed slot), for diagnostics and
    /// tests.
    pub fn block(&self, index: usize) -> (r: Block)
        requires
            (index as int) < self@.cells.len(),
        ensures
            r.order_free == self@.cells[index as int],
    {
        self.blocks[index]
    }

    /// Overwrite one cell (zero-indexed slot).
    fn set_block(&mut self, slot: usize, b: Block)
        requires
            (slot as int) < old(self)@.cells.len(),
        ensures
            final(self)@.cells == old(self)@.cells.update(slot as int, b.order_free),
            final(self)@.levels == old(self)@.levels,
            final(self)@.base_order == old(self)@.base_order,
    {
        self.blocks.set(slot, b);
        proof {
            assert(self@.cells =~= old(self)@.cells.update(slot as int, b.order_free));
        }
    }

    /// Recompute one interior node of the given order from its two children.
    fn update_block(&mut self, node_index: usize, order: u8)
        requires
            1 <= node_index,
            2 * (node_index as int) + 1 <= old(self)@.cells.len(),
            order < 255,
        ensures
            final(self)@.levels == old(self)@.levels,
            final(self)@.base_order == old(self)@.base_order,
            final(self)@.cells == old(self)@.cells.update(
                node_index as int - 1,
                (merge_val(
                    cellv(old(self)@.cells, 2 * (node_index as int)),
                    cellv(old(self)@.cells, 2 * (node_index as int) + 1),
                    order as int,
                ) as u8),
            ),
    {
        proof {
            assert(old(self)@.cells.len() == self.blocks@.len());
            assert(self.blocks.len() <= usize::MAX);
        }
        let left_index = left_child(node_index) - 1;
        let left = self.blocks[left_index].order_free;
        let right = self.blocks[left_index + 1].order_free;
        if left == order && right == order {
            self.set_block(node_index - 1, Block { order_free: order + 1 });
        } else {
            self.set_block(node_index - 1, Block { order_free: const_max(left, right) });
        }
    }

    /// Walk from a just-rewritten node of the given order up to the root,
    /// recomputing each ancestor from its children; this either re-coalesces
    /// buddies (after a deallocation) or records a split (after an
    /// allocation).
    fn update_blocks_above(&mut self, index: usize, order: u8)
        requires
            old(self)@.cells.len() == tree_len(old(self)@.levels),
            1 <= old(self)@.levels <= 255,
            order as int <= old(self)@.levels - 1,
            pow2i(old(self)@.levels - 1 - order as int) <= index as int,
            (index as int) < pow2i(old(self)@.levels - order as int),
        ensures
            final(self)@.levels == old(self)@.levels,
            final(self)@.base_order == old(self)@.base_order,
            final(self)@.cells == climb(
                old(self)@.cells,
                index as int,
                order as int,
                old(self)@.levels - 1,
            ),
    {
        let ghost m0 = old(self)@;
        let max_order = self.levels - 1;
        let mut node_index = index;
        let mut o = order;
        while o < max_order
            invariant
                self@.levels == m0.levels,
                self@.base_order == m0.base_order,
                self@.cells.len() == m0.cells.len(),
                m0.cells.len() == tree_len(m0.levels),
                1 <= m0.levels <= 255,
                max_order as int == m0.levels - 1,
                order <= o <= max_order,
                pow2i(m0.levels - 1 - o as int) <= node_index as int,
                (node_index as int) < pow2i(m0.levels - o as int),
                climb(self@.cells, node_index as int, o as int, m0.levels - 1) == climb(
                    m0.cells,
                    index as int,
                    order as int,
                    m0.levels - 1,
                ),
            decreases max_order as int - o as int,
        {
            let ghost d = m0.levels - 1 - o as int;
            let ghost cells_cur = self@.cells;
            let ghost ni = node_index as int;
            proof {
                lemma_parent_bracket(ni, d);
                lemma_pow2i_unfold(d + 1);
                lemma_pow2i_increases(d + 1, m0.levels);
                lemma_pow2i_unfold(m0.levels);
                lemma_pow2i_pos(m0.levels - 1);
                lemma_pow2i_pos(d - 1);
            }
            node_index = parent(node_index);
            o = o + 1;
            self.update_block(node_index, o);
            proof {
                assert(self@.cells == cells_cur.update(
                    ni / 2 - 1,
                    (merge_val(
                        cellv(cells_cur, 2 * (ni / 2)),
                        cellv(cells_cur, 2 * (ni / 2) + 1),
                        o as int,
                    ) as u8),
                ));
                assert(climb(cells_cur, ni, o as int - 1, m0.levels - 1) == climb(
                    self@.cells,
                    node_index as int,
                    o as int,
                    m0.levels - 1,
                ));
            }
        }
    }

    /// Allocate a block of exactly `desired_order`, if one is available,
    /// returning its address relative to the start of the region (so `0` is
    /// the region's first byte).
    ///
    /// Succeeds exactly when the root caches an order above `desired_order`.
    /// On success the returned address belongs to the leftmost free block of
    /// that order, is aligned to the block size `2^(base_order +
    /// desired_order)`, and lies inside the region; the chosen node flips
    /// from entirely free to used and its ancestors are recomputed.  On
    /// failure the tree is untouched.
    pub fn alloc_order(&mut self, desired_order: u8) -> (r: Option<usize>)
        requires
            wf(old(self)@),
            desired_order as int <= old(self)@.levels - 1,
        ensures
            alloc_order_post(old(self)@, final(self)@, desired_order as int, r),
    {
        let ghost m = old(self)@;
        let ghost k = desired_order as int;
        proof {
            lemma_pow2i_unfold(m.levels);
            lemma_pow2i_pos(m.levels - 1);
        }
        let root = self.blocks[0].order_free;
        proof {
            assert(cellv(m.cells, 1) == root as int);
        }
        if root == 0 || root - 1 < desired_order {
            proof {
                assert(cellv(m.cells, 1) <= k);
            }
            return None;
        }
        let max_order = self.levels - 1;
        let max_order_size = max_order + self.base_order;
        let max_level = max_order - desired_order;
        let mut addr: usize = 0;
        let mut node_index: usize = 1;
        let mut level: u8 = 0;
        proof {
            lemma_pow2i_zero();
            lemma_pow2i_unfold(1);
            lemma_pow2i_adds(0, max_order_size as int);
        }
        while level < max_level
            invariant
                self@ == m,
                wf(m),
                k == desired_order as int,
                0 <= k <= m.levels - 1,
                max_order as int == m.levels - 1,
                max_level as int == m.levels - 1 - k,
                max_order_size as int == m.levels - 1 + m.base_order,
                level <= max_level,
                pow2i(level as int) <= node_index as int,
                (node_index as int) < pow2i(level as int + 1),
                cellv(m.cells, node_index as int) > k,
                chosen_node(m.cells, node_index as int, max_level as int - level as int, k)
                    == alloc_chosen(m, k),
                addr as int == (node_index as int - pow2i(level as int)) * pow2i(
                    max_order_size as int - level as int,
                ),
            decreases max_level as int - level as int,
        {
            let ghost ni = node_index as int;
            let ghost lvl = level as int;
            let ghost mos = max_order_size as int;
            proof {
                lemma_pow2i_pos(lvl);
                lemma_pow2i_unfold(lvl + 1);
                lemma_pow2i_unfold(lvl + 2);
                lemma_pow2i_increases(lvl + 2, m.levels);
                lemma_pow2i_unfold(m.levels);
                lemma_pow2i_pos(m.levels - 1);
                lemma_depth_bracket(ni, lvl);
                lemma_pow2i_unfold(mos - lvl);
                lemma_pow2i_increases(mos - lvl, mos);
                lemma_pow2i_pos(mos - lvl - 1);
                // The accumulated address never exceeds the region minus the
                // remaining subtree's span.
                assert(addr as int + pow2i(mos - lvl) <= pow2i(mos)) by {
                    lemma_pow2i_adds(lvl, mos - lvl);
                    assert((ni - pow2i(lvl)) * pow2i(mos - lvl) + pow2i(mos - lvl) <= pow2i(lvl)
                        * pow2i(mos - lvl)) by (nonlinear_arith)
                        requires
                            ni < 2 * pow2i(lvl),
                            pow2i(mos - lvl) >= 1,
                    ;
                }
            }
            let left_child_index = left_child(node_index);
            let left = self.blocks[left_child_index - 1].order_free;
            proof {
                assert(cellv(m.cells, 2 * ni) == left as int);
            }
            if left != 0 && left > desired_order {
                node_index = left_child_index;
                proof {
                    assert((2 * ni - 2 * pow2i(lvl)) * pow2i(mos - lvl - 1) == (ni - pow2i(lvl))
                        * pow2i(mos - lvl)) by (nonlinear_arith)
                        requires
                            pow2i(mos - lvl) == 2 * pow2i(mos - lvl - 1),
                    ;
                }
            } else {
                proof {
                    lemma_pow2i_increases(lvl + 1, m.levels - 1);
                    lemma_step_right(m.cells, m.levels, ni, k);
                }
                addr = addr + pow2_usize(max_order_size - level - 1);
                node_index = left_child_index + 1;
                proof {
                    assert((2 * ni + 1 - 2 * pow2i(lvl)) * pow2i(mos - lvl - 1) == (ni - pow2i(
                        lvl,
                    )) * pow2i(mos - lvl) + pow2i(mos - lvl - 1)) by (nonlinear_arith)
                        requires
                            pow2i(mos - lvl) == 2 * pow2i(mos - lvl - 1),
                    ;
                }
            }
            level = level + 1;
        }
        let ghost n = node_index as int;
        proof {
            lemma_pow2i_increases(max_level as int + 1, m.levels);
            lemma_pow2i_unfold(m.levels);
            lemma_pow2i_pos(m.levels - 1);
            lemma_depth_bracket(n, max_level as int);
            assert(bound_ok(m.cells, m.levels, n));
            assert(cellv(m.cells, n) == k + 1);
            assert(n == alloc_chosen(m, k));
            if desired_order >= 1 {
                lemma_pow2i_increases(m.levels - k, m.levels - 1);
                lemma_full_free_children(m.cells, m.levels, n);
            }
        }
        self.set_block(node_index - 1, Block::new_used());
        proof {
            lemma_mark_climb(m.cells, m.levels, n, k, 0u8);
            assert(self@.cells == m.cells.update(n - 1, 0u8));
            assert(self@.cells.len() == tree_len(m.levels));
        }
        self.update_blocks_above(node_index, desired_order);
        proof {
            assert(self@.cells == alloc_cells(m, k));
            // Alignment and range of the returned address.
            let bk = m.base_order + k;
            lemma_pow2i_pos(bk);
            lemma_pow2i_unfold(max_level as int + 1);
            lemma_mod_multiples_basic(n - pow2i(max_level as int), pow2i(bk));
            lemma_pow2i_adds(max_level as int, bk);
            assert((n - pow2i(max_level as int)) * pow2i(bk) + pow2i(bk) <= pow2i(
                max_level as int,
            ) * pow2i(bk)) by (nonlinear_arith)
                requires
                    n < 2 * pow2i(max_level as int),
                    pow2i(bk) >= 1,
            ;
            assert((n - pow2i(max_level as int)) * pow2i(bk) >= 0) by (nonlinear_arith)
                requires
                    n >= pow2i(max_level as int),
                    pow2i(bk) >= 1,
            ;
            lemma_pow2i_unfold(max_level as int + 1);
            assert(alloc_addr(m, k) == addr as int);
            assert(wf(self@));
        }
        Some(addr)
    }

    /// Return a block of the given order, previously handed out by a
    /// matching `alloc_order` on this tree, to the allocator.  The node
    /// derived from the pointer is marked free at that order and its
    /// ancestors are recomputed, re-coalescing buddies where possible.
    pub fn dealloc_order(&mut self, ptr: usize, order: u8)
        requires
            wf(old(self)@),
            dealloc_pre(old(self)@, ptr as int, order as int),
        ensures
            dealloc_order_post(old(self)@, final(self)@, ptr as int, order as int),
    {
        let ghost m = old(self)@;
        let ghost k = order as int;
        let ghost n = dealloc_index(m, ptr as int, k);
        let max_order = self.levels - 1;
        let level = max_order - order;
        proof {
            lemma_pow2i_increases(level as int, m.levels);
            lemma_pow2i_increases(k + m.base_order, m.levels - 1 + m.base_order);
        }
        let level_offset = blocks_in_tree(level);
        let sz = pow2_usize(order + self.base_order);
        proof {
            lemma_pow2i_pos(k + m.base_order);
            lemma_pow2i_adds(level as int, k + m.base_order);
            assert(pow2i(level as int) * sz as int == sz as int * pow2i(level as int));
            vstd::arithmetic::div_mod::lemma_multiply_divide_lt(
                ptr as int,
                sz as int,
                pow2i(level as int),
            );
            vstd::arithmetic::div_mod::lemma_div_pos_is_pos(ptr as int, sz as int);
            lemma_pow2i_unfold(level as int + 1);
            lemma_pow2i_increases(level as int + 1, m.levels);
            lemma_pow2i_unfold(m.levels);
            lemma_pow2i_pos(m.levels - 1);
        }
        let index = level_offset + ptr / sz + 1;
        proof {
            assert(index as int == n);
        }
        self.set_block(index - 1, Block::new_free(order));
        proof {
            assert(self@.cells == m.cells.update(n - 1, (k + 1) as u8));
            lemma_mark_climb(m.cells, m.levels, n, k, (k + 1) as u8);
            assert(self@.cells.len() == tree_len(m.levels));
        }
        self.update_blocks_above(index, order);
        proof {
            assert(self@.cells == dealloc_cells(m, ptr as int, k));
            assert(wf(self@));
        }
    }

    /// Build a tree over caller-provided storage (whose contents are
    /// ignored) from a set of usable byte ranges, each a closed interval
    /// `(lo, hi)` relative to the region, in any order, possibly
    /// overlapping.  A leaf is marked free exactly when its whole block lies
    /// inside some range; every interior node is then computed bottom-up.
    pub fn new(usable: &Vec<(usize, usize)>, flat_blocks: Vec<Block>, levels: u8, base_order: u8) -> (r: Tree)
        requires
            1 <= levels,
            levels as int - 1 + base_order as int <= 63,
            pow2i(levels as int) <= usize::MAX as int,
            pow2i(levels as int - 1 + base_order as int) <= usize::MAX as int,
            flat_blocks@.len() == tree_len(levels as int),
        ensures
            r@.levels == levels as int,
            r@.base_order == base_order as int,
            wf(r@),
            built(r@.cells, levels as int),
            forall|j: int|
                pow2i(levels as int - 1) <= j < pow2i(levels as int) ==> #[trigger] cellv(
                    r@.cells,
                    j,
                ) == leaf_value(usable@, levels as int, base_order as int, j),
    {
        let ghost lv = levels as int;
        let ghost bo = base_order as int;
        let mut tree = Tree { blocks: flat_blocks, levels, base_order };
        let max_order = levels - 1;
        proof {
            lemma_pow2i_increases(lv - 1, lv);
            lemma_pow2i_unfold(lv);
            lemma_pow2i_pos(lv - 1);
            lemma_pow2i_increases(bo, lv - 1 + bo);
            lemma_pow2i_pos(bo);
        }
        let leaf_start = pow2_usize(max_order);
        let block_size = pow2_usize(base_order);
        let leaf_end = leaf_start + leaf_start;
        let mut block_begin: usize = 0;
        let mut block_index: usize = leaf_start;
        while block_index < leaf_end
            invariant
                tree@.levels == lv,
                tree@.base_order == bo,
                tree@.cells.len() == tree_len(lv),
                1 <= lv,
                0 <= bo,
                lv - 1 + bo <= 63,
                pow2i(lv) <= usize::MAX as int,
                pow2i(lv - 1 + bo) <= usize::MAX as int,
                leaf_start as int == pow2i(lv - 1),
                leaf_end as int == 2 * pow2i(lv - 1),
                block_size as int == pow2i(bo),
                leaf_start <= block_index,
                block_index as int <= 2 * pow2i(lv - 1),
                block_begin as int == (block_index as int - pow2i(lv - 1)) * pow2i(bo),
                forall|j: int|
                    pow2i(lv - 1) <= j < block_index as int ==> #[trigger] cellv(tree@.cells, j)
                        == leaf_value(usable@, lv, bo, j),
            decreases 2 * pow2i(lv - 1) - block_index as int,
        {
            let ghost bi = block_index as int;
            let ghost cells_before = tree@.cells;
            proof {
                lemma_pow2i_unfold(lv);
                lemma_pow2i_pos(lv - 1);
                lemma_pow2i_pos(bo);
                lemma_pow2i_adds(lv - 1, bo);
                assert((bi - pow2i(lv - 1)) * pow2i(bo) + pow2i(bo) <= pow2i(lv - 1) * pow2i(bo))
                    by (nonlinear_arith)
                    requires
                        bi < 2 * pow2i(lv - 1),
                        pow2i(bo) >= 1,
                ;
                assert((bi - pow2i(lv - 1)) * pow2i(bo) >= 0) by (nonlinear_arith)
                    requires
                        bi >= pow2i(lv - 1),
                        pow2i(bo) >= 1,
                ;
            }
            let block_end = block_begin + (block_size - 1);
            let usable_found = range_covers(usable, block_begin, block_end);
            if usable_found {
                tree.set_block(block_index - 1, Block::new_free(0));
            } else {
                tree.set_block(block_index - 1, Block::new_used());
            }
            block_begin = block_begin + block_size;
            block_index = block_index + 1;
            proof {
                assert(leaf_low(lv, bo, bi) == (bi - pow2i(lv - 1)) * pow2i(bo));
                assert(cellv(tree@.cells, bi) == leaf_value(usable@, lv, bo, bi));
                assert((bi + 1 - pow2i(lv - 1)) * pow2i(bo) == (bi - pow2i(lv - 1)) * pow2i(bo)
                    + pow2i(bo)) by (nonlinear_arith);
                assert forall|j: int| pow2i(lv - 1) <= j < bi implies #[trigger] cellv(
                    tree@.cells,
                    j,
                ) == leaf_value(usable@, lv, bo, j) by {
                    assert(cellv(tree@.cells, j) == cellv(cells_before, j));
                }
            }
        }
        proof {
            lemma_pow2i_unfold(lv);
            assert forall|j: int| pow2i(lv - 1) <= j < pow2i(lv) implies #[trigger] bound_ok(
                tree@.cells,
                lv,
                j,
            ) by {
                lemma_depth_bracket(j, lv - 1);
                assert(cellv(tree@.cells, j) == leaf_value(usable@, lv, bo, j));
            }
        }
        if max_order >= 1 {
            proof {
                lemma_pow2i_increases(max_order as int - 1, lv);
            }
            let mut start = pow2_usize(max_order - 1);
            let mut order: u8 = 1;
            while order <= max_order
                invariant
                    tree@.levels == lv,
                    tree@.base_order == bo,
                    tree@.cells.len() == tree_len(lv),
                    2 <= lv,
                    lv <= 64,
                    max_order as int == lv - 1,
                    pow2i(lv) <= usize::MAX as int,
                    1 <= order as int <= lv,
                    order as int <= max_order as int ==> start as int == pow2i(
                        lv - 1 - order as int,
                    ),
                    forall|j: int|
                        pow2i(lv - 1) <= j < pow2i(lv) ==> #[trigger] bound_ok(
                            tree@.cells,
                            lv,
                            j,
                        ),
                    forall|j: int|
                        pow2i(lv - 1) <= j < pow2i(lv) ==> #[trigger] cellv(tree@.cells, j)
                            == leaf_value(usable@, lv, bo, j),
                    forall|j: int|
                        pow2i(lv - order as int) <= j < pow2i(lv - 1) ==> #[trigger] recomputed(
                            tree@.cells,
                            lv,
                            j,
                        ),
                    forall|j: int|
                        pow2i(lv - order as int) <= j < pow2i(lv) ==> #[trigger] bound_ok(
                            tree@.cells,
                            lv,
                            j,
                        ),
                decreases lv - order as int,
            {
                let ghost d = lv - 1 - order as int;
                proof {
                    lemma_pow2i_unfold(d + 1);
                    lemma_pow2i_unfold(lv);
                    lemma_pow2i_pos(d);
                    lemma_pow2i_increases(d + 1, lv - 1);
                    lemma_pow2i_increases(lv - 1, lv);
                }
                let level_end = start + start;
                let mut node_index = start;
                while node_index < level_end
                    invariant
                        tree@.levels == lv,
                        tree@.base_order == bo,
                        tree@.cells.len() == tree_len(lv),
                        2 <= lv,
                        lv <= 64,
                        1 <= order as int <= lv - 1,
                        d == lv - 1 - order as int,
                        start as int == pow2i(d),
                        level_end as int == 2 * pow2i(d),
                        pow2i(lv) <= usize::MAX as int,
                        start <= node_index,
                        node_index as int <= 2 * pow2i(d),
                        pow2i(d + 1) == 2 * pow2i(d),
                        forall|j: int|
                            pow2i(lv - 1) <= j < pow2i(lv) ==> #[trigger] cellv(tree@.cells, j)
                                == leaf_value(usable@, lv, bo, j),
                        forall|j: int|
                            pow2i(lv - 1) <= j < pow2i(lv) ==> #[trigger] bound_ok(
                                tree@.cells,
                                lv,
                                j,
                            ),
                        forall|j: int|
                            pow2i(d + 1) <= j < pow2i(lv - 1) ==> #[trigger] recomputed(
                                tree@.cells,
                                lv,
                                j,
                            ),
                        forall|j: int|
                            pow2i(d + 1) <= j < pow2i(lv) ==> #[trigger] bound_ok(
                                tree@.cells,
                                lv,
                                j,
                            ),
                        forall|j: int|
                            start as int <= j < node_index as int ==> #[trigger] recomputed(
                                tree@.cells,
                                lv,
                                j,
                            ),
                        forall|j: int|
                            start as int <= j < node_index as int ==> #[trigger] bound_ok(
                                tree@.cells,
                                lv,
                                j,
                            ),
                    decreases 2 * pow2i(d) - node_index as int,
                {
                    let ghost ni = node_index as int;
                    let ghost cells_before = tree@.cells;
                    proof {
                        lemma_pow2i_unfold(lv);
                        lemma_pow2i_pos(lv - 1);
                        lemma_pow2i_unfold(d + 2);
                        lemma_pow2i_increases(d + 2, lv);
                        lemma_depth_bracket(ni, d);
                        lemma_depth_children(ni);
                    }
                    tree.update_block(node_index, order);
                    node_index = node_index + 1;
                    proof {
                        assert forall|j: int|
                            1 <= j < pow2i(lv) && j != ni implies #[trigger] cellv(tree@.cells, j)
                            == cellv(cells_before, j) by {}
                        assert(cellv(tree@.cells, 2 * ni) == cellv(cells_before, 2 * ni));
                        assert(cellv(tree@.cells, 2 * ni + 1) == cellv(cells_before, 2 * ni + 1));
                        assert(bound_ok(cells_before, lv, 2 * ni));
                        assert(bound_ok(cells_before, lv, 2 * ni + 1));
                        assert(recomputed(tree@.cells, lv, ni));
                        assert(bound_ok(tree@.cells, lv, ni));
                        assert forall|j: int|
                            pow2i(lv - 1) <= j < pow2i(lv) implies #[trigger] cellv(
                            tree@.cells,
                            j,
                        ) == leaf_value(usable@, lv, bo, j) by {
                            assert(cellv(tree@.cells, j) == cellv(cells_before, j));
                            assert(cellv(cells_before, j) == leaf_value(usable@, lv, bo, j));
                        }
                        assert forall|j: int|
                            pow2i(lv - 1) <= j < pow2i(lv) implies #[trigger] bound_ok(
                            tree@.cells,
                            lv,
                            j,
                        ) by {
                            assert(cellv(tree@.cells, j) == cellv(cells_before, j));
                            assert(bound_ok(cells_before, lv, j));
                        }
                        assert forall|j: int|
                            pow2i(d + 1) <= j < pow2i(lv - 1) implies #[trigger] recomputed(
                            tree@.cells,
                            lv,
                            j,
                        ) by {
                            assert(recomputed(cells_before, lv, j));
                            assert(cellv(tree@.cells, j) == cellv(cells_before, j));
                            assert(cellv(tree@.cells, 2 * j) == cellv(cells_before, 2 * j));
                            assert(cellv(tree@.cells, 2 * j + 1) == cellv(cells_before, 2 * j + 1));
                        }
                        assert forall|j: int|
                            pow2i(d + 1) <= j < pow2i(lv) implies #[trigger] bound_ok(
                            tree@.cells,
                            lv,
                            j,
                        ) by {
                            assert(cellv(tree@.cells, j) == cellv(cells_before, j));
                            assert(bound_ok(cells_before, lv, j));
                        }
                        assert forall|j: int|
                            start as int <= j < ni + 1 implies #[trigger] recomputed(
                            tree@.cells,
                            lv,
                            j,
                        ) by {
                            if j != ni {
                                assert(recomputed(cells_before, lv, j));
                                assert(cellv(tree@.cells, j) == cellv(cells_before, j));
                                assert(cellv(tree@.cells, 2 * j) == cellv(cells_before, 2 * j));
                                assert(cellv(tree@.cells, 2 * j + 1) == cellv(
                                    cells_before,
                                    2 * j + 1,
                                ));
                            }
                        }
                        assert forall|j: int|
                            start as int <= j < ni + 1 implies #[trigger] bound_ok(
                            tree@.cells,
                            lv,
                            j,
                        ) by {
                            if j != ni {
                                assert(bound_ok(cells_before, lv, j));
                                assert(cellv(tree@.cells, j) == cellv(cells_before, j));
                            }
                        }
                    }
                }
                proof {
                    lemma_pow2i_unfold(d + 1);
                    assert forall|j: int|
                        pow2i(d) <= j < pow2i(lv) implies #[trigger] bound_ok(
                        tree@.cells,
                        lv,
                        j,
                    ) by {
                        if j < pow2i(d + 1) {
                            assert(bound_ok(tree@.cells, lv, j));
                        }
                    }
                    assert forall|j: int|
                        pow2i(d) <= j < pow2i(lv - 1) implies #[trigger] recomputed(
                        tree@.cells,
                        lv,
                        j,
                    ) by {
                        if j < pow2i(d + 1) {
                            assert(recomputed(tree@.cells, lv, j));
                        }
                    }
                    if d >= 1 {
                        lemma_pow2i_unfold(d);
                        crate::lemmas::lemma_div2(pow2i(d - 1));
                    }
                    }
                start = start / 2;
                order = order + 1;
            }
        }
        proof {
            lemma_pow2i_zero();
            lemma_pow2i_unfold(lv);
            lemma_pow2i_pos(lv - 1);
            if max_order == 0 {
                assert forall|j: int| 1 <= j < pow2i(lv) implies #[trigger] bound_ok(
                    tree@.cells,
                    lv,
                    j,
                ) by {
                    lemma_depth_bracket(j, 0);
                    assert(cellv(tree@.cells, j) == leaf_value(usable@, lv, bo, j));
                }
                assert forall|j: int| 1 <= j < pow2i(lv - 1) implies #[trigger] recomputed(
                    tree@.cells,
                    lv,
                    j,
                ) by {}
            }
            assert forall|j: int| 1 <= j < pow2i(lv - 1) implies #[trigger] interior_ok(
                tree@.cells,
                lv,
                j,
            ) by {
                assert(recomputed(tree@.cells, lv, j));
            }
        }
        tree
    }

    /// Build a tree over caller-provided storage with the whole region free:
    /// the same as passing the single usable range covering every byte.
    pub fn new_free(flat_blocks: Vec<Block>, levels: u8, base_order: u8) -> (r: Tree)
        requires
            1 <= levels,
            levels as int - 1 + base_order as int <= 63,
            pow2i(levels as int) <= usize::MAX as int,
            pow2i(levels as int - 1 + base_order as int) <= usize::MAX as int,
            flat_blocks@.len() == tree_len(levels as int),
        ensures
            r@.levels == levels as int,
            r@.base_order == base_order as int,
            wf(r@),
            built(r@.cells, levels as int),
            all_free(r@),
    {
        let ghost lv = levels as int;
        let ghost bo = base_order as int;
        proof {
            lemma_pow2i_pos(lv - 1 + bo);
        }
        let last_addr = pow2_usize(levels - 1 + base_order) - 1;
        let mut usable: Vec<(usize, usize)> = Vec::new();
        usable.push((0, last_addr));
        let t = Tree::new(&usable, flat_blocks, levels, base_order);
        proof {
            lemma_pow2i_pos(bo);
            lemma_pow2i_pos(lv - 1);
            lemma_pow2i_adds(lv - 1, bo);
            assert forall|j: int| pow2i(lv - 1) <= j < pow2i(lv) implies #[trigger] cellv(
                t@.cells,
                j,
            ) == 1 by {
                lemma_pow2i_unfold(lv);
                assert((j - pow2i(lv - 1)) * pow2i(bo) + pow2i(bo) <= pow2i(lv - 1) * pow2i(bo))
                    by (nonlinear_arith)
                    requires
                        j < 2 * pow2i(lv - 1),
                        pow2i(bo) >= 1,
                ;
                assert((j - pow2i(lv - 1)) * pow2i(bo) >= 0) by (nonlinear_arith)
                    requires
                        j >= pow2i(lv - 1),
                        pow2i(bo) >= 1,
                ;
                let lo = leaf_low(lv, bo, j);
                let hi = leaf_high(lv, bo, j);
                assert(usable@[0].0 <= lo && hi <= usable@[0].1);
                assert(covered(usable@, lo, hi));
            }
            assert forall|j: int| 1 <= j < pow2i(lv) implies #[trigger] cellv(t@.cells, j)
                == node_order(lv, j) + 1 by {
                crate::lemmas::lemma_bracket_of_depth(j);
                crate::lemmas::lemma_depth_below(j, lv);
                crate::lemmas::lemma_depth_nonneg(j);
                lemma_built_all_free(t@.cells, lv, j, crate::model::node_depth(j));
            }
        }
        t
    }

    /// The block order serving a `(size, align)` layout request: the size is
    /// padded to the alignment, rounded up to the next power of two, and
    /// translated into an order relative to the base order.
    fn order(&self, size: usize, align: usize) -> (r: u8)
        requires
            1 <= align,
            size as int + align as int <= usize::MAX as int,
        ensures
            r as int == layout_order(size as int, align as int, self@.base_order),
    {
        proof {
            let x = size as int + align as int - 1;
            let a = align as int;
            lemma_fundamental_div_mod(x, a);
            vstd::arithmetic::div_mod::lemma_mod_division_less_than_divisor(x, a);
            vstd::arithmetic::div_mod::lemma_div_pos_is_pos(x, a);
            assert((x / a) * a == a * (x / a)) by (nonlinear_arith);
            assert((x / a) * a <= x);
        }
        let padded = ((size + align - 1) / align) * align;
        let log2 = log2_ceil(padded) + 1;
        if log2 > self.base_order {
            log2 - self.base_order
        } else {
            0
        }
    }

    /// Serve a `(size, align)` layout request.  A zero-sized request returns
    /// the alignment without touching the tree; otherwise the request is
    /// mapped to a block order and forwarded to `alloc_order`, with requests
    /// larger than the whole region reported as no-space.
    pub fn alloc_layout(&mut self, size: usize, align: usize) -> (r: Option<usize>)
        requires
            wf(old(self)@),
            1 <= align,
            size as int + align as int <= usize::MAX as int,
        ensures
            size == 0 ==> r == Some(align) && final(self)@ == old(self)@,
            size != 0 && layout_order(size as int, align as int, old(self)@.base_order) > old(
                self,
            )@.levels - 1 ==> r is None && final(self)@ == old(self)@,
            size != 0 && layout_order(size as int, align as int, old(self)@.base_order) <= old(
                self,
            )@.levels - 1 ==> alloc_order_post(
                old(self)@,
                final(self)@,
                layout_order(size as int, align as int, old(self)@.base_order),
                r,
            ),
    {
        if size == 0 {
            return Some(align);
        }
        let order = self.order(size, align);
        if order > self.max_order() {
            return None;
        }
        self.alloc_order(order)
    }

    /// Return a block previously handed out by a matching `alloc_layout`.
    /// A zero-sized request touches nothing.
    pub fn dealloc_layout(&mut self, ptr: usize, size: usize, align: usize)
        requires
            wf(old(self)@),
            1 <= align,
            size as int + align as int <= usize::MAX as int,
            size != 0 ==> layout_order(size as int, align as int, old(self)@.base_order) <= old(
                self,
            )@.levels - 1 && dealloc_pre(
                old(self)@,
                ptr as int,
                layout_order(size as int, align as int, old(self)@.base_order),
            ),
        ensures
            size == 0 ==> final(self)@ == old(self)@,
            size != 0 ==> dealloc_order_post(
                old(self)@,
                final(self)@,
                ptr as int,
                layout_order(size as int, align as int, old(self)@.base_order),
            ),
    {
        if size == 0 {
            return ;
        }
        let order = self.order(size, align);
        self.dealloc_order(ptr, order);
    }
}

} // verus!
