use ordered_tree::{Tree, TreeIter};

fn walk(tree: &Tree<i32>) -> Vec<i32> {
    let mut it = tree.iter();
    let mut out = Vec::new();
    while let Some(v) = it.next_item() {
        out.push(*v);
    }
    out
}

#[test]
fn create_a_root_node() {
    let mut tree = Tree::new();
    tree.insert(8);
    tree.insert(10);
    tree.insert(4);
    tree.insert(6);
    tree.insert(5);
    let mut tree_iter = TreeIter::new(&tree);
    let expected = [Some(4), Some(5), Some(6), Some(8), Some(10)];
    for i in 1..12 {
        let got = tree_iter.next().copied();
        if i <= 5 {
            assert_eq!(got, expected[i - 1]);
        } else {
            assert_eq!(got, None);
        }
    }
}

#[test]
fn insert_order_walks_ascending() {
    let mut tree = Tree::new();
    for v in [8, 10, 4, 6, 5] {
        tree.insert(v);
    }
    assert_eq!(walk(&tree), vec![4, 5, 6, 8, 10]);
}

#[test]
fn empty_tree_walk_stays_exhausted() {
    let tree: Tree<i32> = Tree::new();
    let mut it = tree.iter();
    assert_eq!(it.next(), None);
    assert_eq!(it.next(), None);
    assert_eq!(it.next_item(), None);
}

#[test]
fn duplicates_are_kept_once() {
    let mut tree = Tree::new();
    for v in [3, 1, 3, 2, 1, 3, 2] {
        tree.insert(v);
    }
    assert_eq!(walk(&tree), vec![1, 2, 3]);
}

#[test]
fn walk_is_sorted_distinct_of_inserted() {
    let inserted = [50, -7, 12, 50, 99, 0, -7, 33, 12, 1, 75, -100];
    let mut tree = Tree::new();
    for v in inserted {
        tree.insert(v);
    }
    let mut expected: Vec<i32> = inserted.to_vec();
    expected.sort();
    expected.dedup();
    assert_eq!(walk(&tree), expected);
}

#[test]
fn descending_inserts_make_a_deep_tree() {
    let mut tree = Tree::new();
    for v in (0..2000).rev() {
        tree.insert(v);
    }
    let got = walk(&tree);
    assert_eq!(got.len(), 2000);
    assert_eq!(got, (0..2000).collect::<Vec<i32>>());
}

#[test]
fn single_value_walk() {
    let mut tree = Tree::new();
    tree.insert(42);
    let mut it = tree.iter();
    assert_eq!(it.next(), Some(&42));
    assert_eq!(it.next(), None);
    assert_eq!(it.next(), None);
}

#[test]
fn strings_walk_in_order() {
    let mut tree = Tree::new();
    for w in ["pear", "apple", "fig", "apple", "kiwi"] {
        tree.insert(w.to_string());
    }
    let mut it = tree.iter();
    let mut out = Vec::new();
    while let Some(v) = it.next() {
        out.push(v.clone());
    }
    assert_eq!(out, vec!["apple", "fig", "kiwi", "pear"]);
}

#[test]
fn inserts_fill_the_slot_where_the_search_ends() {
    let mut tree = Tree::new();
    for v in [8, 10, 4, 6, 5] {
        tree.insert(v);
    }
    let shape = format!("{:?}", tree);
    assert_eq!(
        shape,
        "Tree { root: Some(Node { value: 8, \
         left: Some(Node { value: 4, left: None, \
         right: Some(Node { value: 6, left: Some(Node { value: 5, left: None, right: None }), right: None }) }), \
         right: Some(Node { value: 10, left: None, right: None }) }) }"
    );
    tree.insert(6);
    assert_eq!(format!("{:?}", tree), shape);
}

#[test]
fn default_tree_is_empty() {
    let tree: Tree<i32> = Tree::default();
    let mut it = tree.iter();
    assert_eq!(it.next(), None);
    let mut tree = tree;
    tree.insert(1);
    assert_eq!(walk(&tree), vec![1]);
}
