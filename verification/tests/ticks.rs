use dir_budget::evict::Eviction;
use dir_budget::inventory::Inventory;
use dir_budget::policy::Policy;
use dir_budget::scan::{ChildReport, Listing, ScanAction, Scanner};

const MEGABYTE: u64 = 1024 * 1024;

#[test]
fn three_files_of_40_mb_lose_the_oldest() {
    let mut inventory = Inventory::new("root".to_string());
    inventory.add_file("root/second".to_string(), 40 * MEGABYTE, 2_000, None);
    inventory.add_file("root/oldest".to_string(), 40 * MEGABYTE, 1_000, None);
    inventory.add_file("root/newest".to_string(), 40 * MEGABYTE, 3_000, None);
    assert_eq!(inventory.total_size(), 120 * MEGABYTE as u128);
    let policy = Policy::new(100, Some(85)).unwrap();
    assert_eq!(policy.target_bytes(), 85 * MEGABYTE as u128);

    let eviction = Eviction::begin(inventory, policy);
    assert!(eviction.needed());
    let victim = eviction.next_victim();
    assert_eq!(victim, Some(1));
    assert_eq!(eviction.inventory().path_of(1).map(|p| p.as_str()), Some("root/oldest"));
    let eviction = eviction.record(true);
    assert_eq!(eviction.running_total(), 80 * MEGABYTE as u128);
    assert_eq!(eviction.next_victim(), None);
    assert_eq!(eviction.given_up(), 1);
    assert_eq!(eviction.inventory().file_count() - eviction.given_up(), 2);
}

#[test]
fn single_file_that_cannot_be_deleted_still_counts_as_removed() {
    let mut inventory = Inventory::new("root".to_string());
    let dir = inventory.add_directory("root/locked".to_string(), None);
    inventory.add_file("root/locked/big".to_string(), 200 * MEGABYTE, 1_000, dir);
    let policy = Policy::new(100, Some(50)).unwrap();
    assert_eq!(policy.target_bytes(), 50 * MEGABYTE as u128);

    let eviction = Eviction::begin(inventory, policy);
    assert_eq!(eviction.next_victim(), Some(1));
    let eviction = eviction.record(false);
    assert_eq!(eviction.running_total(), 0);
    assert_eq!(eviction.next_victim(), None);
    // The file is still there, so the directory that holds it is not offered.
    assert_eq!(eviction.count(0), Some(1));
    assert_eq!(eviction.prune_candidates(), Vec::<usize>::new());
}

#[test]
fn single_file_that_is_deleted_leaves_its_directory_to_prune() {
    let mut inventory = Inventory::new("root".to_string());
    let dir = inventory.add_directory("root/open".to_string(), None);
    inventory.add_file("root/open/big".to_string(), 200 * MEGABYTE, 1_000, dir);
    let policy = Policy::new(100, Some(50)).unwrap();

    let eviction = Eviction::begin(inventory, policy);
    assert_eq!(eviction.next_victim(), Some(1));
    let eviction = eviction.record(true);
    assert_eq!(eviction.running_total(), 0);
    assert_eq!(eviction.next_victim(), None);
    assert_eq!(eviction.count(0), Some(0));
    assert_eq!(eviction.prune_candidates(), vec![0]);
}

#[test]
fn empty_tree_needs_no_action() {
    let scanner = Scanner::new("root".to_string());
    let scanner = scanner.absorb(Listing::Children(Vec::new())).unwrap();
    assert_eq!(scanner.next_action(), ScanAction::Finish);
    let inventory = scanner.finish().unwrap();
    assert_eq!(inventory.total_size(), 0);
    for (mb, margin) in [(1u64, 0u8), (1, 85), (100, 100), (u64::MAX, 85)] {
        let policy = Policy::new(mb, Some(margin)).unwrap();
        let eviction = Eviction::begin(Inventory::new("root".to_string()), policy);
        assert!(!eviction.needed());
        assert_eq!(eviction.next_victim(), None);
        assert_eq!(eviction.prune_candidates(), Vec::<usize>::new());
    }
}

#[test]
fn tree_of_empty_directories_needs_no_action() {
    let mut inventory = Inventory::new("root".to_string());
    let a = inventory.add_directory("root/a".to_string(), None);
    inventory.add_directory("root/a/b".to_string(), a);
    let policy = Policy::new(1, Some(85)).unwrap();
    let eviction = Eviction::begin(inventory, policy);
    assert!(!eviction.needed());
    assert_eq!(eviction.next_victim(), None);
    assert_eq!(eviction.prune_candidates(), Vec::<usize>::new());
}

#[test]
fn ceiling_of_zero_calls_for_a_cleanup_even_of_an_empty_tree() {
    let mut inventory = Inventory::new("root".to_string());
    inventory.add_directory("root/a".to_string(), None);
    let policy = Policy::new(0, Some(85)).unwrap();
    let eviction = Eviction::begin(inventory, policy);
    assert!(eviction.needed());
    assert_eq!(eviction.next_victim(), None);
    assert_eq!(eviction.prune_candidates(), vec![0]);
}

#[test]
fn nested_file_is_taken_off_the_directory_that_holds_it() {
    // root/a/b/file.txt, found by a scan.
    let scanner = Scanner::new("root".to_string());
    let scanner = scanner
        .absorb(Listing::Children(vec![ChildReport::Directory { path: "root/a".to_string() }]))
        .unwrap();
    let scanner = scanner
        .absorb(Listing::Children(vec![ChildReport::Directory { path: "root/a/b".to_string() }]))
        .unwrap();
    let scanner = scanner
        .absorb(Listing::Children(vec![ChildReport::File {
            path: "root/a/b/file.txt".to_string(),
            size: 2 * MEGABYTE,
            modified: Some(1_000),
            created: None,
        }]))
        .unwrap();
    let inventory = scanner.finish().unwrap();
    let policy = Policy::new(1, Some(85)).unwrap();

    let eviction = Eviction::begin(inventory, policy);
    // Both directories are above the file.
    assert_eq!(eviction.count(0), Some(1));
    assert_eq!(eviction.count(1), Some(1));
    assert_eq!(eviction.next_victim(), Some(2));
    let eviction = eviction.record(true);
    assert_eq!(eviction.next_victim(), None);
    // The deletion is taken off root/a/b, which held the file; root/a keeps
    // its count until the next scan finds nothing under it.
    assert_eq!(eviction.count(1), Some(0));
    assert_eq!(eviction.count(0), Some(1));
    assert_eq!(eviction.prune_candidates(), vec![1]);
}

#[test]
fn emptied_parent_is_offered_on_the_next_tick() {
    // What a scan finds after root/a/b/file.txt and root/a/b are gone, with
    // a file in the root that keeps the tree at its ceiling.
    let mut inventory = Inventory::new("root".to_string());
    inventory.add_directory("root/a".to_string(), None);
    inventory.add_file("root/keep".to_string(), MEGABYTE, 1_000, None);
    let policy = Policy::new(1, Some(100)).unwrap();
    let eviction = Eviction::begin(inventory, policy);
    assert!(eviction.needed());
    assert_eq!(eviction.next_victim(), None);
    assert_eq!(eviction.prune_candidates(), vec![0]);
}

#[test]
fn nested_empty_directories_are_both_offered_child_first() {
    let mut inventory = Inventory::new("root".to_string());
    let a = inventory.add_directory("root/a".to_string(), None);
    inventory.add_directory("root/a/b".to_string(), a);
    inventory.add_file("root/big".to_string(), 3 * MEGABYTE, 1_000, None);
    let policy = Policy::new(1, Some(85)).unwrap();
    let eviction = Eviction::begin(inventory, policy).record(true);
    assert_eq!(eviction.next_victim(), None);
    assert_eq!(eviction.prune_candidates(), vec![1, 0]);
}
