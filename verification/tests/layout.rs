use dutree::filetree::Tree;
use dutree::squarify::compute_gui_nodes;
use dutree::squarify::locate_node;
use dutree::squarify::Rect;

fn square_bound() -> Rect {
    Rect { x: 0, y: 0, w: 100, h: 100 }
}

fn two_children_tree() -> Tree {
    let mut tree = Tree::new("/");
    tree.add_elem(0, "small".to_string(), "/small".to_string(), true, 1);
    tree.add_elem(0, "large".to_string(), "/large".to_string(), true, 3);
    tree
}

#[test]
fn two_children_tile_the_bound_proportionally() {
    let tree = two_children_tree();
    let map = compute_gui_nodes(&tree, tree.get_elem(0), square_bound());

    let root = map.get(&0).expect("root is laid out");
    assert_eq!(root.rect, Rect { x: 0, y: 0, w: 100, h: 100 });

    let small = map.get(&1).expect("small child is laid out").rect;
    let large = map.get(&2).expect("large child is laid out").rect;

    // non-overlapping: the small group ends before the large group starts
    assert!(small.x + small.w <= large.x || small.y + small.h <= large.y);
    // both lie inside the bound
    for r in [small, large] {
        assert!(r.x >= 0 && r.y >= 0);
        assert!(r.x + r.w <= 100 && r.y + r.h <= 100);
    }
    // together they tile the inner area up to insets and padding
    let area = (small.w * small.h + large.w * large.h) as f64;
    let inner_area = (94 * 84) as f64;
    assert!(area > 0.85 * inner_area);
    // the size-3 child's area is roughly three times the size-1 child's
    let ratio = (large.w * large.h) as f64 / (small.w * small.h) as f64;
    assert!(2.5 < ratio && ratio < 3.7, "ratio was {}", ratio);
}

#[test]
fn layout_exact_rectangles() {
    let tree = two_children_tree();
    let map = compute_gui_nodes(&tree, tree.get_elem(0), square_bound());
    assert_eq!(map.len(), 3);
    assert_eq!(map.get(&0).unwrap().rect, Rect { x: 0, y: 0, w: 100, h: 100 });
    assert_eq!(map.get(&1).unwrap().rect, Rect { x: 4, y: 14, w: 21, h: 82 });
    assert_eq!(map.get(&2).unwrap().rect, Rect { x: 27, y: 14, w: 69, h: 82 });
}

#[test]
fn layout_is_deterministic() {
    let tree = two_children_tree();
    let first = compute_gui_nodes(&tree, tree.get_elem(0), square_bound());
    for _ in 0..5 {
        let again = compute_gui_nodes(&tree, tree.get_elem(0), square_bound());
        assert_eq!(again.len(), first.len());
        for (id, node) in &first {
            let other = again.get(id).expect("same ids in every run");
            assert_eq!(other.rect, node.rect);
            assert_eq!(other.node_id, node.node_id);
        }
    }
}

#[test]
fn tiny_bound_yields_nothing() {
    let tree = two_children_tree();
    let map = compute_gui_nodes(&tree, tree.get_elem(0), Rect { x: 0, y: 0, w: 10, h: 10 });
    assert!(map.is_empty());
}

#[test]
fn lone_root_gets_the_whole_bound() {
    let tree = Tree::new("/");
    let map = compute_gui_nodes(&tree, tree.get_elem(0), square_bound());
    assert_eq!(map.len(), 1);
    assert_eq!(map.get(&0).unwrap().rect, Rect { x: 0, y: 0, w: 100, h: 100 });
}

#[test]
fn zero_sized_children_terminate() {
    let mut tree = Tree::new("/");
    tree.add_elem(0, "a".to_string(), "/a".to_string(), true, 0);
    tree.add_elem(0, "b".to_string(), "/b".to_string(), true, 0);
    tree.add_elem(0, "c".to_string(), "/c".to_string(), true, 0);
    // a degenerate all-zero subtree must still produce a finite answer
    let map = compute_gui_nodes(&tree, tree.get_elem(0), square_bound());
    assert!(map.contains_key(&0));
}

#[test]
fn equal_sizes_break_ties_by_id() {
    let mut tree = Tree::new("/");
    tree.add_elem(0, "a".to_string(), "/a".to_string(), true, 5);
    tree.add_elem(0, "b".to_string(), "/b".to_string(), true, 5);
    let first = compute_gui_nodes(&tree, tree.get_elem(0), square_bound());
    let again = compute_gui_nodes(&tree, tree.get_elem(0), square_bound());
    // stable order: repeated runs agree even with equal sizes
    assert_eq!(first.get(&1).unwrap().rect, again.get(&1).unwrap().rect);
    assert_eq!(first.get(&2).unwrap().rect, again.get(&2).unwrap().rect);
}

#[test]
fn nested_layout_stays_inside_the_bound() {
    let mut tree = Tree::new("/");
    let docs = tree.add_elem(0, "docs".to_string(), "/docs".to_string(), false, 0);
    tree.add_elem(docs, "a.pdf".to_string(), "/docs/a.pdf".to_string(), true, 400);
    tree.add_elem(docs, "b.pdf".to_string(), "/docs/b.pdf".to_string(), true, 100);
    let media = tree.add_elem(0, "media".to_string(), "/media".to_string(), false, 0);
    tree.add_elem(media, "c.mkv".to_string(), "/media/c.mkv".to_string(), true, 900);
    tree.add_elem(media, "d.mp3".to_string(), "/media/d.mp3".to_string(), true, 50);
    tree.add_elem(0, "note.txt".to_string(), "/note.txt".to_string(), true, 30);

    let bound = Rect { x: 0, y: 0, w: 640, h: 480 };
    let map = compute_gui_nodes(&tree, tree.get_elem(0), bound);
    assert!(map.len() >= 5);
    for gui in map.values() {
        let r = gui.rect;
        assert!(r.x >= bound.x && r.y >= bound.y);
        assert!(r.x + r.w <= bound.x + bound.w);
        assert!(r.y + r.h <= bound.y + bound.h);
    }
}

#[test]
fn hit_test_finds_deepest_node() {
    let tree = two_children_tree();
    let map = compute_gui_nodes(&tree, tree.get_elem(0), square_bound());
    // inside the small child's rectangle
    assert_eq!(locate_node(&tree, &map, 0, 10, 50), Some(1));
    // inside the large child's rectangle
    assert_eq!(locate_node(&tree, &map, 0, 50, 50), Some(2));
    // inside the root but outside both children (header strip)
    assert_eq!(locate_node(&tree, &map, 0, 50, 5), Some(0));
    // outside everything
    assert_eq!(locate_node(&tree, &map, 0, 200, 200), None);
}
