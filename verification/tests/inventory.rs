use dir_budget::counts::DirFileCount;
use dir_budget::inventory::{Entry, Inventory};
use dir_budget::order::oldest_first;

fn nested() -> Inventory {
    // root/a, root/a/b, root/a/b/file.txt, root/top.txt, root/empty
    let mut inventory = Inventory::new("root".to_string());
    let a = inventory.add_directory("root/a".to_string(), None);
    let b = inventory.add_directory("root/a/b".to_string(), a);
    inventory.add_file("root/a/b/file.txt".to_string(), 10, 100, b);
    inventory.add_file("root/top.txt".to_string(), 5, 50, None);
    inventory.add_directory("root/empty".to_string(), None);
    inventory
}

#[test]
fn new_inventory_is_empty() {
    let inventory = Inventory::new("root".to_string());
    assert_eq!(inventory.len(), 0);
    assert_eq!(inventory.total_size(), 0);
    assert_eq!(inventory.file_count(), 0);
    assert_eq!(inventory.root(), "root");
    assert!(inventory.entries().is_empty());
}

#[test]
fn entries_get_indices_in_order_of_discovery() {
    let mut inventory = Inventory::new("root".to_string());
    assert_eq!(inventory.add_directory("root/a".to_string(), None), Some(0));
    assert_eq!(inventory.add_file("root/a/x".to_string(), 3, 7, Some(0)), Some(1));
    assert_eq!(inventory.add_file("root/y".to_string(), 4, 8, None), Some(2));
    assert_eq!(inventory.len(), 3);
    match &inventory.entries()[1] {
        Entry::File(file) => {
            assert_eq!(file.path, "root/a/x");
            assert_eq!(file.size, 3);
            assert_eq!(file.modified, 7);
            assert_eq!(file.parent, Some(0));
        }
        Entry::Directory(_) => panic!("entry 1 is a file"),
    }
    match &inventory.entries()[0] {
        Entry::Directory(dir) => {
            assert_eq!(dir.path, "root/a");
            assert_eq!(dir.parent, None);
        }
        Entry::File(_) => panic!("entry 0 is a directory"),
    }
}

#[test]
fn total_is_the_sum_of_the_file_sizes() {
    let inventory = nested();
    assert_eq!(inventory.total_size(), 15);
    assert_eq!(inventory.file_count(), 2);
    assert_eq!(inventory.len(), 5);
}

#[test]
fn total_does_not_overflow_on_huge_files() {
    let mut inventory = Inventory::new("root".to_string());
    inventory.add_file("root/a".to_string(), u64::MAX, 1, None);
    inventory.add_file("root/b".to_string(), u64::MAX, 2, None);
    inventory.add_file("root/c".to_string(), u64::MAX, 3, None);
    assert_eq!(inventory.total_size(), 3 * (u64::MAX as u128));
}

#[test]
fn entry_in_unknown_directory_is_not_recorded() {
    let mut inventory = Inventory::new("root".to_string());
    assert_eq!(inventory.add_file("root/x".to_string(), 3, 7, Some(0)), None);
    assert_eq!(inventory.add_directory("root/d".to_string(), Some(5)), None);
    assert_eq!(inventory.len(), 0);
    assert_eq!(inventory.total_size(), 0);
}

#[test]
fn entry_in_a_file_is_not_recorded() {
    let mut inventory = Inventory::new("root".to_string());
    let file = inventory.add_file("root/x".to_string(), 3, 7, None);
    assert_eq!(file, Some(0));
    assert_eq!(inventory.add_file("root/x/y".to_string(), 1, 1, file), None);
    assert_eq!(inventory.add_directory("root/x/d".to_string(), file), None);
    assert_eq!(inventory.len(), 1);
    assert_eq!(inventory.total_size(), 3);
    assert_eq!(inventory.file_count(), 1);
}

#[test]
fn places_are_the_root_and_the_directories() {
    let inventory = nested();
    assert!(inventory.holds_place(None));
    assert!(inventory.holds_place(Some(0)));
    assert!(inventory.holds_place(Some(1)));
    assert!(!inventory.holds_place(Some(2)));
    assert!(!inventory.holds_place(Some(3)));
    assert!(inventory.holds_place(Some(4)));
    assert!(!inventory.holds_place(Some(5)));
}

#[test]
fn paths_are_handed_back_as_given() {
    let inventory = nested();
    assert_eq!(inventory.path_of(2).map(|p| p.as_str()), Some("root/a/b/file.txt"));
    assert_eq!(inventory.path_of(0).map(|p| p.as_str()), Some("root/a"));
    assert_eq!(inventory.path_of(5), None);
    assert_eq!(inventory.place_path(None).map(|p| p.as_str()), Some("root"));
    assert_eq!(inventory.place_path(Some(1)).map(|p| p.as_str()), Some("root/a/b"));
    assert_eq!(inventory.place_path(Some(2)), None);
    assert_eq!(inventory.place_path(Some(9)), None);
}

#[test]
fn oldest_file_comes_first() {
    let mut inventory = Inventory::new("root".to_string());
    inventory.add_file("root/new".to_string(), 1, 300, None);
    inventory.add_file("root/old".to_string(), 1, 100, None);
    inventory.add_file("root/mid".to_string(), 1, 200, None);
    assert_eq!(oldest_first(&inventory), vec![1, 2, 0]);
}

#[test]
fn files_of_one_age_keep_the_order_of_discovery() {
    let mut inventory = Inventory::new("root".to_string());
    inventory.add_file("root/a".to_string(), 1, 5, None);
    inventory.add_file("root/b".to_string(), 1, 3, None);
    inventory.add_file("root/c".to_string(), 1, 5, None);
    inventory.add_file("root/d".to_string(), 1, 3, None);
    inventory.add_file("root/e".to_string(), 1, 5, None);
    assert_eq!(oldest_first(&inventory), vec![1, 3, 0, 2, 4]);
}

#[test]
fn directories_are_not_in_the_eviction_order() {
    let inventory = nested();
    assert_eq!(oldest_first(&inventory), vec![3, 2]);
    let empty = Inventory::new("root".to_string());
    assert_eq!(oldest_first(&empty), Vec::<usize>::new());
}

#[test]
fn order_of_many_files_is_sorted_and_complete() {
    let mut inventory = Inventory::new("root".to_string());
    let dir = inventory.add_directory("root/d".to_string(), None);
    let mut seed: u64 = 12345;
    for i in 0..500u64 {
        seed = seed.wrapping_mul(6364136223846793005).wrapping_add(1442695040888963407);
        let modified = (seed >> 33) % 50;
        inventory.add_file(format!("root/d/{i}"), i, modified, dir);
    }
    let order = oldest_first(&inventory);
    assert_eq!(order.len(), 500);
    let modified_of = |i: usize| match &inventory.entries()[i] {
        Entry::File(file) => file.modified,
        Entry::Directory(_) => panic!("a directory in the order"),
    };
    for pair in order.windows(2) {
        let (a, b) = (pair[0], pair[1]);
        assert!(modified_of(a) < modified_of(b) || (modified_of(a) == modified_of(b) && a < b));
    }
    let mut seen = order.clone();
    seen.sort();
    assert_eq!(seen, (1..=500).collect::<Vec<usize>>());
}

#[test]
fn counts_cover_every_directory_above_a_file() {
    let inventory = nested();
    let counts = DirFileCount::seed(&inventory);
    assert_eq!(counts.get(0), Some(1));
    assert_eq!(counts.get(1), Some(1));
    assert_eq!(counts.get(2), None);
    assert_eq!(counts.get(3), None);
    assert_eq!(counts.get(4), Some(0));
    assert_eq!(counts.get(5), None);
}

#[test]
fn counts_add_up_over_a_subtree() {
    let mut inventory = Inventory::new("root".to_string());
    let a = inventory.add_directory("root/a".to_string(), None);
    inventory.add_file("root/a/1".to_string(), 1, 1, a);
    let b = inventory.add_directory("root/a/b".to_string(), a);
    inventory.add_file("root/a/b/2".to_string(), 1, 1, b);
    inventory.add_file("root/a/b/3".to_string(), 1, 1, b);
    let c = inventory.add_directory("root/c".to_string(), None);
    inventory.add_file("root/c/4".to_string(), 1, 1, c);
    inventory.add_file("root/5".to_string(), 1, 1, None);
    let counts = DirFileCount::seed(&inventory);
    assert_eq!(counts.get(a.unwrap()), Some(3));
    assert_eq!(counts.get(b.unwrap()), Some(2));
    assert_eq!(counts.get(c.unwrap()), Some(1));
}

#[test]
fn empty_directories_come_deepest_first() {
    let mut inventory = Inventory::new("root".to_string());
    let a = inventory.add_directory("root/a".to_string(), None);
    let b = inventory.add_directory("root/a/b".to_string(), a);
    inventory.add_directory("root/a/b/c".to_string(), b);
    let d = inventory.add_directory("root/d".to_string(), None);
    inventory.add_file("root/d/f".to_string(), 1, 1, d);
    let counts = DirFileCount::seed(&inventory);
    assert_eq!(counts.empty_directories(), vec![2, 1, 0]);
}
