use maze::{SortedTree, Tree};

fn sample() -> Tree<u32> {
    // 50 is the root; 30 and 70 hang below it, 10 and 40 below 30, 60 below 70.
    let mut tree = Tree::new(50);
    tree.append(30, 0);
    tree.append(70, 0);
    tree.append(10, 1);
    tree.append(60, 2);
    tree.append(40, 1);
    tree
}

#[test]
fn new_tree_holds_its_root() {
    let tree = Tree::new(7u32);
    assert_eq!(tree.len(), 1);
    assert_eq!(tree.get(0), Some(&7));
    assert_eq!(tree.get(1), None);
    assert_eq!(tree.parent(0), None);
    assert_eq!(tree.parent(1), None);
    assert_eq!(tree.search(&7), Some(0));
    assert_eq!(tree.search(&8), None);
}

#[test]
fn appended_nodes_keep_their_order_and_parents() {
    let tree = sample();
    assert_eq!(tree.len(), 6);
    assert_eq!(tree.get(0), Some(&50));
    assert_eq!(tree.get(3), Some(&10));
    assert_eq!(tree.get(5), Some(&40));
    assert_eq!(tree.get(6), None);
    assert_eq!(tree.parent(0), None);
    assert_eq!(tree.parent(1), Some(0));
    assert_eq!(tree.parent(3), Some(1));
    assert_eq!(tree.parent(4), Some(2));
    assert_eq!(tree.parent(5), Some(1));
    assert_eq!(tree.parent(6), None);
}

#[test]
fn search_finds_the_first_inserted_node() {
    let mut tree = sample();
    tree.append(30, 4);
    assert_eq!(tree.search(&30), Some(1));
    assert_eq!(tree.search(&60), Some(4));
    assert_eq!(tree.search(&61), None);
}

#[test]
fn into_nodes_hands_out_values_and_parents() {
    assert_eq!(
        sample().into_nodes(),
        vec![(50, 0), (30, 0), (70, 0), (10, 1), (60, 2), (40, 1)]
    );
}

#[test]
fn sorted_tree_lists_values_in_ascending_order() {
    let sorted = SortedTree::new(sample());
    assert_eq!(sorted.len(), 6);
    let values: Vec<u32> = (0..6).map(|i| *sorted.get(i).unwrap()).collect();
    assert_eq!(values, vec![10, 30, 40, 50, 60, 70]);
    assert_eq!(sorted.get(6), None);
}

#[test]
fn sorted_tree_renumbers_parents() {
    let sorted = SortedTree::new(sample());
    // places: 10 -> 0, 30 -> 1, 40 -> 2, 50 -> 3, 60 -> 4, 70 -> 5
    assert_eq!(sorted.parent(0), Some(1));
    assert_eq!(sorted.parent(1), Some(3));
    assert_eq!(sorted.parent(2), Some(1));
    assert_eq!(sorted.parent(3), None);
    assert_eq!(sorted.parent(4), Some(5));
    assert_eq!(sorted.parent(5), Some(3));
    assert_eq!(sorted.parent(6), None);
}

#[test]
fn sorted_tree_search_is_by_value() {
    let sorted = SortedTree::new(sample());
    assert_eq!(sorted.search(&10), Some(0));
    assert_eq!(sorted.search(&50), Some(3));
    assert_eq!(sorted.search(&70), Some(5));
    assert_eq!(sorted.search(&0), None);
    assert_eq!(sorted.search(&45), None);
    assert_eq!(sorted.search(&99), None);
}

#[test]
fn sorted_tree_of_one_node() {
    let sorted = SortedTree::new(Tree::new(5u32));
    assert_eq!(sorted.len(), 1);
    assert_eq!(sorted.get(0), Some(&5));
    assert_eq!(sorted.parent(0), None);
    assert_eq!(sorted.search(&5), Some(0));
    assert_eq!(sorted.search(&6), None);
}

#[test]
fn sorting_keeps_values_and_the_values_of_parents() {
    let mut tree = Tree::new(900u32);
    let mut state = 12345u32;
    for i in 1..200usize {
        state = state.wrapping_mul(1664525).wrapping_add(1013904223);
        let value = state >> 8;
        state = state.wrapping_mul(1664525).wrapping_add(1013904223);
        let parent = (state >> 8) as usize % i;
        tree.append(value, parent);
    }
    let sorted = SortedTree::new(tree.clone());
    assert_eq!(sorted.len(), tree.len());
    let mut before: Vec<u32> = (0..tree.len()).map(|i| *tree.get(i).unwrap()).collect();
    let after: Vec<u32> = (0..sorted.len()).map(|i| *sorted.get(i).unwrap()).collect();
    before.sort_unstable();
    assert_eq!(before, after);
    for i in 0..tree.len() {
        let value = tree.get(i).unwrap();
        let at = sorted.search(value).unwrap();
        assert_eq!(sorted.get(at), Some(value));
        let parent = tree.parent(i).map(|p| tree.get(p).unwrap());
        let sorted_parent = sorted.parent(at).map(|p| sorted.get(p).unwrap());
        assert_eq!(parent, sorted_parent);
    }
}

#[test]
fn sorting_keeps_nodes_with_equal_values() {
    let mut tree = Tree::new(4u32);
    tree.append(4, 0);
    tree.append(2, 1);
    tree.append(4, 2);
    let sorted = SortedTree::new(tree);
    let values: Vec<u32> = (0..4).map(|i| *sorted.get(i).unwrap()).collect();
    assert_eq!(values, vec![2, 4, 4, 4]);
    let roots = (0..4).filter(|&i| sorted.parent(i).is_none()).count();
    assert_eq!(roots, 1);
    let found = sorted.search(&4).unwrap();
    assert!((1..4).contains(&found));
    // The node that holds 2 hangs below a node that holds 4, which hangs below the root.
    let above = sorted.parent(0).unwrap();
    assert_eq!(sorted.get(above), Some(&4));
    let root = sorted.parent(above).unwrap();
    assert_eq!(sorted.parent(root), None);
}
