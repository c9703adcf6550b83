use friendly::tree::Block;
use friendly::tree::Tree;
use friendly::tree::blocks_in_tree;

fn new_flat_blocks() -> Vec<Block> {
    vec![Block::new_used(); blocks_in_tree(19)]
}

#[test]
fn test_init_tree() {
    let ranges: Vec<(usize, usize)> = vec![(0, (1 << 30) - 1)];
    let tree = Tree::new(&ranges, new_flat_blocks(), 19, 12);

    // Highest level has 1 block, next has 2, next 4
    assert_eq!(tree.block(0).order_free, 19);

    assert_eq!(tree.block(1).order_free, 18);
    assert_eq!(tree.block(2).order_free, 18);

    assert_eq!(tree.block(3).order_free, 17);
    assert_eq!(tree.block(4).order_free, 17);
    assert_eq!(tree.block(5).order_free, 17);
    assert_eq!(tree.block(6).order_free, 17);
}
