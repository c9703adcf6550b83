use friendly::tree::Block;
use friendly::tree::Tree;
use friendly::tree::left_child;
use friendly::tree::parent;

#[test]
fn block_cell_values() {
    assert_eq!(Block::new_free(0).order_free, 1);
    assert_eq!(Block::new_free(5).order_free, 6);
    assert_eq!(Block::new_used().order_free, 0);
}

#[test]
fn index_arithmetic() {
    assert_eq!(left_child(1), 2);
    assert_eq!(left_child(3), 6);
    assert_eq!(parent(2), 1);
    assert_eq!(parent(3), 1);
    assert_eq!(parent(7), 3);
}

// A fully-free allocation of any order starts at address 0 (leftmost-first).
#[test]
fn leftmost_first_every_order() {
    for k in 0..=4u8 {
        let mut tree = Tree::new_all_free(5, 4);
        assert_eq!(tree.alloc_order(k), Some(0));
    }
}

// Every returned address is a multiple of the block size 2^(base + order),
// and same-order allocations come out in increasing address order.
#[test]
fn alignment_and_increasing_addresses() {
    let mut tree = Tree::new_all_free(5, 4);
    let mut last: Option<usize> = None;
    for _ in 0..4 {
        let addr = tree.alloc_order(2).unwrap();
        assert_eq!(addr % 64, 0);
        if let Some(prev) = last {
            assert!(addr > prev);
        }
        last = Some(addr);
    }
    assert_eq!(tree.alloc_order(2), None);
}

// Identical trees fed identical operation sequences produce identical
// outputs.
#[test]
fn deterministic_runs() {
    let ranges: Vec<(usize, usize)> = vec![(0, 127), (200, 255)];
    let mut a = Tree::new(&ranges, vec![Block::new_used(); 31], 5, 3);
    let mut b = Tree::new(&ranges, vec![Block::new_used(); 31], 5, 3);
    for k in [0u8, 2, 1, 0, 3, 4, 0] {
        assert_eq!(a.alloc_order(k), b.alloc_order(k));
    }
}

// A fully-free tree of 2^(max_order - k) blocks of order k is exhausted by
// exactly that many allocations.
#[test]
fn capacity_per_order() {
    let mut tree = Tree::new_all_free(4, 0);
    for _ in 0..4 {
        assert!(tree.alloc_order(1).is_some());
    }
    assert_eq!(tree.alloc_order(1), None);
}

// Allocate, free, allocate again: the same address comes back.
#[test]
fn free_reuse_roundtrip() {
    let mut tree = Tree::new_all_free(6, 2);
    tree.alloc_order(1).unwrap();
    let p = tree.alloc_order(2).unwrap();
    tree.dealloc_order(p, 2);
    assert_eq!(tree.alloc_order(2), Some(p));
}

// A leaf that straddles the edge of the usable area is left unusable.
#[test]
fn partial_leaf_is_used() {
    let ranges: Vec<(usize, usize)> = vec![(0, 30)];
    let mut tree = Tree::new(&ranges, vec![Block::new_used(); 3], 2, 4);
    assert_eq!(tree.alloc_order(1), None);
    assert_eq!(tree.alloc_order(0), Some(0));
    assert_eq!(tree.alloc_order(0), None);
}

// Deallocating both buddies re-coalesces them into the parent block.
#[test]
fn buddies_coalesce() {
    let mut tree = Tree::new_all_free(3, 0);
    let p1 = tree.alloc_order(0).unwrap();
    let p2 = tree.alloc_order(0).unwrap();
    let p3 = tree.alloc_order(1).unwrap();
    assert_eq!((p1, p2, p3), (0, 1, 2));
    tree.dealloc_order(p1, 0);
    tree.dealloc_order(p2, 0);
    assert_eq!(tree.alloc_order(1), Some(0));
    tree.dealloc_order(p3, 1);
    tree.dealloc_order(0, 1);
    assert_eq!(tree.alloc_order(2), Some(0));
}

// Every cell stays within [0, max_order + 1] across a workload, and every
// live (non-allocated) interior node is the merge of its children.
#[test]
fn cells_stay_bounded_and_consistent() {
    let mut tree = Tree::new_all_free(4, 0);
    let a = tree.alloc_order(1).unwrap();
    let _b = tree.alloc_order(0).unwrap();
    tree.dealloc_order(a, 1);
    let total = tree.total_blocks();
    for slot in 0..total {
        assert!(tree.block(slot).order_free <= 4);
    }
    // node 1 (root, order 3) caches the best of its children (nodes 2, 3)
    let l = tree.block(1).order_free;
    let r = tree.block(2).order_free;
    let root = tree.block(0).order_free;
    assert_eq!(root, if l == 3 && r == 3 { 4 } else { l.max(r) });
}

// Zero-sized layout requests return the alignment and leave the tree alone.
#[test]
fn layout_zero_size() {
    let mut tree = Tree::new_all_free(5, 4);
    assert_eq!(tree.alloc_layout(0, 16), Some(16));
    assert_eq!(tree.alloc_order(4), Some(0));
}

#[test]
fn layout_small_request() {
    let mut tree = Tree::new_all_free(19, 12);
    assert_eq!(tree.alloc_layout(1, 1), Some(0));
}

// The order computation keeps its historical +1: a one-page request takes
// an order-1 block, so the second allocation starts one order-1 block in.
#[test]
fn layout_page_request() {
    let mut tree = Tree::new_all_free(19, 12);
    assert_eq!(tree.alloc_layout(4096, 4096), Some(0));
    assert_eq!(tree.alloc_layout(4096, 4096), Some(0x2000));
}

// A request larger than the whole region is no-space.
#[test]
fn layout_oversized_request() {
    let mut tree = Tree::new_all_free(5, 4);
    assert_eq!(tree.alloc_layout(1 << 20, 1), None);
    assert_eq!(tree.alloc_order(4), Some(0));
}

#[test]
fn layout_dealloc_zero_is_noop() {
    let mut tree = Tree::new_all_free(4, 3);
    tree.dealloc_layout(0, 0, 8);
    assert_eq!(tree.alloc_order(3), Some(0));
}

#[test]
fn layout_roundtrip() {
    let mut tree = Tree::new_all_free(19, 12);
    let p = tree.alloc_layout(100, 8).unwrap();
    tree.dealloc_layout(p, 100, 8);
    assert_eq!(tree.alloc_layout(100, 8), Some(p));
}

#[test]
fn max_order_accessors() {
    let tree = Tree::new_all_free(19, 12);
    assert_eq!(tree.max_order(), 18);
    assert_eq!(tree.max_order_size(), 30);
    assert_eq!(tree.total_blocks(), (1 << 19) - 1);
}

// A usable range reaching past the region only frees the in-region leaves:
// of the 8-byte region, bytes 4..=7 become usable and nothing else.
#[test]
fn range_past_region_is_clipped() {
    let ranges: Vec<(usize, usize)> = vec![(4, 100)];
    let mut tree = Tree::new(&ranges, vec![Block::new_used(); 15], 4, 0);
    assert_eq!(tree.alloc_order(3), None);
    assert_eq!(tree.alloc_order(2), Some(4));
    assert_eq!(tree.alloc_order(2), None);
    assert_eq!(tree.alloc_order(0), None);
}
