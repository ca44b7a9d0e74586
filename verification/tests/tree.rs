use dutree::filetree::Tree;

fn build_sample() -> Tree {
    // root "/a" with dir "b" (inserted size 0), file "c.txt" of 10 under "b"
    let mut tree = Tree::new("/a");
    let b = tree.add_elem(0, "b".to_string(), "/a/b".to_string(), false, 0);
    assert_eq!(b, 1);
    let c = tree.add_elem(b, "c.txt".to_string(), "/a/b/c.txt".to_string(), true, 10);
    assert_eq!(c, 2);
    tree
}

#[test]
fn sizes_aggregate_on_insert() {
    let tree = build_sample();
    assert_eq!(tree.get_elem(0).size, 10);
    assert_eq!(tree.get_elem(1).size, 10);
    assert_eq!(tree.get_elem(2).size, 10);
}

#[test]
fn size_is_sum_of_children() {
    let mut tree = Tree::new("/");
    let d = tree.add_elem(0, "d".to_string(), "/d".to_string(), false, 0);
    tree.add_elem(d, "x".to_string(), "/d/x".to_string(), true, 3);
    tree.add_elem(d, "y".to_string(), "/d/y".to_string(), true, 4);
    tree.add_elem(0, "z".to_string(), "/z".to_string(), true, 5);
    // every directory's size equals the sum of its direct children's sizes
    let d_node = tree.get_elem(d);
    let d_children_sum: u64 = d_node.children.iter().map(|c| tree.get_elem(*c).size).sum();
    assert_eq!(d_node.size, d_children_sum);
    let root = tree.get_elem(0);
    let root_children_sum: u64 = root.children.iter().map(|c| tree.get_elem(*c).size).sum();
    assert_eq!(root.size, root_children_sum);
    assert_eq!(root.size, 12);
}

#[test]
fn depth_is_parent_plus_one() {
    let tree = build_sample();
    assert_eq!(tree.get_elem(0).depth, 0);
    for id in 1..=2 {
        let n = tree.get_elem(id);
        let p = n.parent.expect("non-root node has a parent");
        assert_eq!(n.depth, tree.get_elem(p).depth + 1);
    }
}

#[test]
fn ids_are_sequential_and_distinct() {
    let mut tree = Tree::new("/r");
    let n = 6u64;
    let mut got = Vec::new();
    for k in 0..n {
        let id = tree.add_elem(0, format!("f{}", k), format!("/r/f{}", k), true, k);
        got.push(id);
    }
    // inserting N entries yields ids 1..=N in insertion order
    let expect: Vec<usize> = (1..=n as usize).collect();
    assert_eq!(got, expect);
    for id in 0..=n as usize {
        assert_eq!(tree.get_elem(id).id, id);
    }
    assert_eq!(tree.last_id, n as usize);
}

#[test]
fn invalidate_subtracts_exactly_and_unlinks() {
    let mut tree = Tree::new("/");
    let d = tree.add_elem(0, "d".to_string(), "/d".to_string(), false, 0);
    let x = tree.add_elem(d, "x".to_string(), "/d/x".to_string(), true, 7);
    let y = tree.add_elem(d, "y".to_string(), "/d/y".to_string(), true, 5);
    assert_eq!(tree.get_elem(0).size, 12);

    tree.invalidate_elem(x);
    // exactly x's size is gone from every ancestor
    assert_eq!(tree.get_elem(d).size, 5);
    assert_eq!(tree.get_elem(0).size, 5);
    // x left its parent's child list but keeps its readable slot
    assert_eq!(tree.get_elem(d).children, vec![y]);
    assert_eq!(tree.get_elem(x).size, 7);
    assert!(!tree.is_linked_elem(x));
    assert!(tree.is_linked_elem(y));

    // re-deriving the root size from the remaining leaves matches
    let rederived: u64 = tree
        .get_elem(d)
        .children
        .iter()
        .map(|c| tree.get_elem(*c).size)
        .sum();
    assert_eq!(tree.get_elem(0).size, rederived);
}

#[test]
fn invalidate_directory_removes_whole_subtree_size() {
    let mut tree = Tree::new("/");
    let d = tree.add_elem(0, "d".to_string(), "/d".to_string(), false, 0);
    tree.add_elem(d, "x".to_string(), "/d/x".to_string(), true, 7);
    let e = tree.add_elem(0, "e".to_string(), "/e".to_string(), true, 2);
    assert_eq!(tree.get_elem(0).size, 9);
    tree.invalidate_elem(d);
    assert_eq!(tree.get_elem(0).size, 2);
    assert_eq!(tree.get_elem(0).children, vec![e]);
}

#[test]
fn full_path_round_trip() {
    let tree = build_sample();
    assert_eq!(tree.get_full_path(2), "/a/b/c.txt");
    assert_eq!(tree.get_full_path(1), "/a/b");
    assert_eq!(tree.get_full_path(0), "/a");
    // and the ancestor's size includes the leaf's 10 bytes
    assert_eq!(tree.get_elem(0).size, 10);
}

#[test]
fn full_path_no_duplicate_separator_at_root() {
    let mut tree = Tree::new("/");
    let etc = tree.add_elem(0, "etc".to_string(), "/etc".to_string(), false, 0);
    let hosts = tree.add_elem(etc, "hosts".to_string(), "/etc/hosts".to_string(), true, 1);
    assert_eq!(tree.get_full_path(etc), "/etc");
    assert_eq!(tree.get_full_path(hosts), "/etc/hosts");
}

#[test]
fn set_root_resets_everything() {
    let mut tree = build_sample();
    tree.set_root("/new");
    assert_eq!(tree.elems.len(), 1);
    assert_eq!(tree.last_id, 0);
    assert_eq!(tree.get_elem(0).name, "/new");
    assert_eq!(tree.get_elem(0).path, "/new");
    assert_eq!(tree.get_elem(0).size, 0);
    assert!(tree.get_elem(0).children.is_empty());
    // ids restart: the next insertion is id 1 again
    let next = tree.add_elem(0, "x".to_string(), "/new/x".to_string(), true, 1);
    assert_eq!(next, 1);
}

#[test]
fn default_tree_is_single_empty_root() {
    let tree = Tree::default();
    assert_eq!(tree.elems.len(), 1);
    assert_eq!(tree.get_elem(0).name, "");
    assert_eq!(tree.get_elem(0).size, 0);
}

#[test]
fn equal_sizes_and_zero_sizes_aggregate() {
    let mut tree = Tree::new("/");
    for k in 0..3 {
        tree.add_elem(0, format!("same{}", k), format!("/same{}", k), true, 4);
    }
    tree.add_elem(0, "empty".to_string(), "/empty".to_string(), true, 0);
    assert_eq!(tree.get_elem(0).size, 12);
}
