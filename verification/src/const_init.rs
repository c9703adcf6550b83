//! A convenience builder for an entirely-free tree that owns its own
//! storage: the result is a pure function of the two shape parameters.

use vstd::prelude::*;
use crate::model::all_free;
use crate::model::built;
use crate::model::pow2i;
use crate::model::wf;
use crate::tree::Block;
use crate::tree::Tree;
use crate::tree::blocks_in_tree;

verus! {

impl Tree {
    /// Build a tree with the entire region free, allocating the cell array
    /// itself.  Equivalent to `new_free` over fresh storage.
    pub fn new_all_free(levels: u8, base_order: u8) -> (r: Tree)
        requires
            1 <= levels,
            levels as int - 1 + base_order as int <= 63,
            pow2i(levels as int) <= usize::MAX as int,
            pow2i(levels as int - 1 + base_order as int) <= usize::MAX as int,
        ensures
            r@.levels == levels as int,
            r@.base_order == base_order as int,
            wf(r@),
            built(r@.cells, levels as int),
            all_free(r@),
    {
        let total = blocks_in_tree(levels);
        let mut flat_blocks: Vec<Block> = Vec::new();
        while flat_blocks.len() < total
            invariant
                flat_blocks@.len() <= total as int,
            decreases total as int - flat_blocks@.len(),
        {
            flat_blocks.push(Block::new_free(0));
        }
        Tree::new_free(flat_blocks, levels, base_order)
    }
}

} // verus!
