use std::collections::BTreeSet;
use friendly::tree::Block;
use friendly::tree::Tree;
use friendly::tree::blocks_in_tree;

const MAX_ORDER: u8 = 18;
const BASE_ORDER: u8 = 12;
const MAX_ORDER_SIZE: u8 = BASE_ORDER + MAX_ORDER;

fn new_flat_blocks() -> Vec<Block> {
    vec![Block::new_used(); blocks_in_tree(19)]
}

#[test]
fn test_usable() {
    let ranges: Vec<(usize, usize)> = vec![
        (0x100000, 0x385df7),
        (0x386241, 0x386999),
        (0x786ff9, 0x7fd9999),
    ];
    let mut tree = Tree::new(&ranges, new_flat_blocks(), 19, BASE_ORDER);
    assert_eq!(tree.alloc_order(0), Some(0x100000));
}

#[test]
fn test_blocks_in_tree() {
    assert_eq!(blocks_in_tree(3), 1 + 2 + 4);
    assert_eq!(blocks_in_tree(1), 1);
}

#[test]
fn test_blocks_in_level() {
    let tree = Tree::new_all_free(19, BASE_ORDER);
    assert_eq!(tree.blocks_in_order(tree.max_order() - 2), 4);
    assert_eq!(tree.blocks_in_order(tree.max_order()), 1);
}

#[test]
fn test_tree_runs_out_of_blocks() {
    let mut tree = Tree::new_free(new_flat_blocks(), 19, BASE_ORDER);
    let max_blocks = tree.blocks_in_order(0);

    for _ in 0..max_blocks {
        assert_ne!(tree.alloc_order(0), None);
    }
    assert_eq!(tree.alloc_order(0), None);
}

#[test]
fn test_allocate_exact() {
    let mut tree = Tree::new_free(new_flat_blocks(), 19, BASE_ORDER);
    tree.alloc_order(3).unwrap();

    tree = Tree::new_free(new_flat_blocks(), 19, BASE_ORDER);
    assert_eq!(tree.alloc_order(MAX_ORDER - 1), Some(0x0));
    assert_eq!(
        tree.alloc_order(MAX_ORDER - 1),
        Some(2usize.pow(MAX_ORDER_SIZE as u32) / 2)
    );
    assert_eq!(tree.alloc_order(0), None);
    assert_eq!(tree.alloc_order(MAX_ORDER - 1), None);

    tree = Tree::new_free(new_flat_blocks(), 19, BASE_ORDER);
    assert_eq!(tree.alloc_order(MAX_ORDER), Some(0x0));
    assert_eq!(tree.alloc_order(MAX_ORDER), None);
}

#[test]
fn test_free() {
    let ranges: Vec<(usize, usize)> = vec![(0, (1 << 30) - 1)];
    let mut tree = Tree::new(&ranges, new_flat_blocks(), 19, BASE_ORDER);

    let ptr = tree.alloc_order(3).unwrap();
    tree.dealloc_order(ptr, 3);

    let ptr2 = tree.alloc_order(3).unwrap();
    assert_eq!(ptr2, ptr);
    tree.dealloc_order(ptr2, 3);

    let ptr = tree.alloc_order(1).unwrap();
    tree.dealloc_order(ptr, 1);

    let ptr = tree.alloc_order(0).unwrap();
    let ptr2 = tree.alloc_order(0).unwrap();

    tree.dealloc_order(ptr, 0);
    assert_eq!(tree.alloc_order(0).unwrap(), ptr);
    tree.dealloc_order(ptr, 0);
    tree.dealloc_order(ptr2, 0);

    assert_eq!(tree.alloc_order(5).unwrap(), 0x0);
}

#[test]
fn test_alloc_unique_addresses() {
    let mut tree = Tree::new_free(new_flat_blocks(), 19, BASE_ORDER);
    let max_blocks = tree.blocks_in_order(0);
    let mut seen = BTreeSet::new();

    for _ in 0..max_blocks {
        let addr = tree.alloc_order(0).unwrap();

        if seen.contains(&addr) {
            panic!("Allocator must return addresses never been allocated before!");
        } else {
            seen.insert(addr);
        }
    }
}
