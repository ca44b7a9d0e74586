use dutree::scan::Scan;
use dutree::scan::ScanEntry;

fn entry(name: &str, depth: usize, is_file: bool, size: u64) -> ScanEntry {
    ScanEntry {
        name: name.to_string(),
        path: format!("/r/{}", name),
        depth,
        is_file,
        size,
    }
}

#[test]
fn walk_order_resolves_parents() {
    let mut scan = Scan::new("/r", 2);
    // descend: parent is the node just recorded
    assert!(scan.record_entry(&entry("b", 1, false, 0)));
    assert!(scan.record_entry(&entry("c.txt", 2, true, 10)));
    // shallower: walk back up to a sibling of "b"
    assert!(scan.record_entry(&entry("d.txt", 1, true, 5)));
    // equal depth: sibling of "d.txt"
    assert!(scan.record_entry(&entry("e.txt", 1, true, 2)));

    assert_eq!(scan.tree.get_elem(1).parent, Some(0)); // b under root
    assert_eq!(scan.tree.get_elem(2).parent, Some(1)); // c.txt under b
    assert_eq!(scan.tree.get_elem(3).parent, Some(0)); // d.txt under root
    assert_eq!(scan.tree.get_elem(4).parent, Some(0)); // e.txt under root
    assert_eq!(scan.tree.get_elem(0).size, 17);
    assert_eq!(scan.tree.get_elem(1).size, 10);
}

#[test]
fn equal_depth_at_root_is_dropped() {
    let mut scan = Scan::new("/r", 1);
    // the cursor still sits at the root; an entry at the root's own depth
    // has no parent to attach to
    assert!(!scan.record_entry(&entry("stray", 0, true, 9)));
    assert_eq!(scan.tree.elems.len(), 1);
    assert_eq!(scan.tree.get_elem(0).size, 0);
}

#[test]
fn oversized_entry_is_dropped() {
    let mut scan = Scan::new("/r", 1);
    assert!(scan.record_entry(&entry("huge", 1, true, u64::MAX)));
    assert_eq!(scan.tree.get_elem(0).size, u64::MAX);
    // a second byte would overflow the aggregate: the entry is dropped
    assert!(!scan.record_entry(&entry("straw", 1, true, 1)));
    assert_eq!(scan.tree.elems.len(), 2);
    assert_eq!(scan.tree.get_elem(0).size, u64::MAX);
}

#[test]
fn entry_under_invalidated_parent_is_dropped() {
    let mut scan = Scan::new("/r", 1);
    assert!(scan.record_entry(&entry("b", 1, false, 0)));
    scan.tree.invalidate_elem(1);
    // the walk cursor still points at "b", but "b" is unreachable now
    assert!(!scan.record_entry(&entry("c.txt", 2, true, 10)));
    assert_eq!(scan.tree.get_elem(0).size, 0);
}

#[test]
fn device_boundary_is_pinned_by_first_directory() {
    let mut scan = Scan::new("/r", 1);
    // the first directory visited pins the scan's device
    assert!(scan.is_same_device(11));
    assert!(scan.is_same_device(11));
    // a directory on another device is not descended into
    assert!(!scan.is_same_device(22));
    // ... but it is still recorded with its own size
    assert!(scan.record_entry(&entry("other_volume", 1, false, 4096)));
    assert_eq!(scan.tree.get_elem(0).size, 4096);
    assert!(scan.tree.get_elem(1).children.is_empty());
    // the pin survives: the original device still matches
    assert!(scan.is_same_device(11));
}

#[test]
fn cancellation_stops_batches() {
    let mut scan = Scan::new("/r", 1);
    let batch = vec![entry("b", 1, false, 0), entry("c.txt", 2, true, 10)];
    scan.apply_batch(&batch);
    assert_eq!(scan.tree.get_elem(0).size, 10);

    scan.request_cancel();
    let len_before = scan.tree.elems.len();
    let size_before = scan.tree.get_elem(0).size;
    scan.apply_batch(&vec![entry("late", 1, true, 99)]);
    // a batch starting after cancellation changes nothing
    assert_eq!(scan.tree.elems.len(), len_before);
    assert_eq!(scan.tree.get_elem(0).size, size_before);
}

#[test]
fn batches_apply_in_order_across_boundaries() {
    let mut scan = Scan::new("/r", 2);
    scan.apply_batch(&vec![entry("b", 1, false, 0), entry("c", 2, false, 0)]);
    // the walk cursor carries over: the next batch keeps descending
    scan.apply_batch(&vec![entry("d.txt", 3, true, 8), entry("e.txt", 1, true, 1)]);
    assert_eq!(scan.tree.get_elem(3).parent, Some(2)); // d.txt under c
    assert_eq!(scan.tree.get_elem(4).parent, Some(0)); // e.txt back under root
    assert_eq!(scan.tree.get_elem(0).size, 9);
    assert_eq!(scan.tree.get_elem(1).size, 8);
    assert_eq!(scan.tree.get_elem(2).size, 8);
    assert!(scan.update_signal);
}

#[test]
fn root_entry_at_depth_zero_is_ignored() {
    let mut scan = Scan::new("/r", 1);
    // a directory walker reports the root itself first; it is already in
    // the tree and attaches to nothing
    assert!(!scan.record_entry(&entry("r", 0, false, 4096)));
    assert_eq!(scan.tree.elems.len(), 1);
    // the walk then proceeds normally
    assert!(scan.record_entry(&entry("a.txt", 1, true, 2)));
    assert_eq!(scan.tree.get_elem(1).parent, Some(0));
}

#[test]
fn no_mutation_after_completion() {
    let mut scan = Scan::new("/r", 1);
    assert!(scan.record_entry(&entry("b", 1, true, 3)));
    scan.mark_complete();
    assert!(!scan.record_entry(&entry("late", 1, true, 99)));
    assert_eq!(scan.tree.elems.len(), 2);
    assert_eq!(scan.tree.get_elem(0).size, 3);
    assert_eq!(scan.progress_permille(), 1000);
}

#[test]
fn progress_is_monotone_and_exact() {
    let mut scan = Scan::new("/r", 4);
    assert_eq!(scan.progress_permille(), 0);
    assert!(scan.record_entry(&entry("a", 1, true, 1)));
    // one of four expected children, scaled by 0.9: 225 permille
    assert_eq!(scan.progress_permille(), 225);
    assert!(scan.record_entry(&entry("b", 1, true, 1)));
    assert_eq!(scan.progress_permille(), 450);
    assert!(scan.record_entry(&entry("c", 1, true, 1)));
    assert!(scan.record_entry(&entry("d", 1, true, 1)));
    assert_eq!(scan.progress_permille(), 900);
    // more children than the preliminary count: clamped, never above one
    assert!(scan.record_entry(&entry("e", 1, true, 1)));
    assert!(scan.record_entry(&entry("f", 1, true, 1)));
    assert_eq!(scan.progress_permille(), 1000);
    scan.mark_complete();
    assert_eq!(scan.progress_permille(), 1000);
}

#[test]
fn zero_preliminary_count_reports_full_progress() {
    let scan = Scan::new("/empty", 0);
    assert_eq!(scan.progress_permille(), 1000);
}
