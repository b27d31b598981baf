use dir_budget::inventory::Entry;
use dir_budget::scan::{ChildReport, Listing, ScanAction, ScanError, Scanner};

fn file(path: &str, size: u64, modified: u64) -> ChildReport {
    ChildReport::File { path: path.to_string(), size, modified: Some(modified), created: None }
}

fn directory(path: &str) -> ChildReport {
    ChildReport::Directory { path: path.to_string() }
}

#[test]
fn scan_starts_with_the_root() {
    let scanner = Scanner::new("root".to_string());
    assert_eq!(scanner.next_action(), ScanAction::List { dir: None });
    assert_eq!(scanner.path_of(None).map(|p| p.as_str()), Some("root"));
    assert_eq!(scanner.path_of(Some(0)), None);
}

#[test]
fn scan_of_an_empty_root_finds_nothing() {
    let scanner = Scanner::new("root".to_string());
    let scanner = scanner.absorb(Listing::Children(Vec::new())).unwrap();
    assert_eq!(scanner.next_action(), ScanAction::Finish);
    let inventory = scanner.finish().unwrap();
    assert_eq!(inventory.len(), 0);
    assert_eq!(inventory.total_size(), 0);
    assert_eq!(inventory.root(), "root");
}

#[test]
fn scan_walks_into_every_directory() {
    let scanner = Scanner::new("root".to_string());
    let scanner = scanner
        .absorb(Listing::Children(vec![
            file("root/top.txt", 5, 50),
            directory("root/a"),
            directory("root/z"),
        ]))
        .unwrap();
    // The directory found last is listed first.
    assert_eq!(scanner.next_action(), ScanAction::List { dir: Some(2) });
    assert_eq!(scanner.path_of(Some(2)).map(|p| p.as_str()), Some("root/z"));
    let scanner = scanner.absorb(Listing::Children(vec![file("root/z/f", 7, 70)])).unwrap();
    assert_eq!(scanner.next_action(), ScanAction::List { dir: Some(1) });
    let scanner = scanner
        .absorb(Listing::Children(vec![directory("root/a/b"), file("root/a/g", 1, 10)]))
        .unwrap();
    assert_eq!(scanner.next_action(), ScanAction::List { dir: Some(4) });
    let scanner = scanner.absorb(Listing::Children(vec![file("root/a/b/h", 2, 20)])).unwrap();
    assert_eq!(scanner.next_action(), ScanAction::Finish);
    let inventory = scanner.finish().unwrap();
    assert_eq!(inventory.len(), 7);
    assert_eq!(inventory.file_count(), 4);
    assert_eq!(inventory.total_size(), 15);
    let parents: Vec<Option<usize>> = inventory
        .entries()
        .iter()
        .map(|e| match e {
            Entry::File(f) => f.parent,
            Entry::Directory(d) => d.parent,
        })
        .collect();
    assert_eq!(parents, vec![None, None, None, Some(2), Some(1), Some(1), Some(4)]);
    assert_eq!(inventory.path_of(6).map(|p| p.as_str()), Some("root/a/b/h"));
}

#[test]
fn unreadable_child_is_skipped() {
    let scanner = Scanner::new("root".to_string());
    let scanner = scanner
        .absorb(Listing::Children(vec![
            file("root/a", 5, 50),
            ChildReport::Unreadable { path: "root/broken".to_string() },
            file("root/b", 6, 60),
        ]))
        .unwrap();
    let inventory = scanner.finish().unwrap();
    assert_eq!(inventory.len(), 2);
    assert_eq!(inventory.total_size(), 11);
    assert_eq!(inventory.path_of(1).map(|p| p.as_str()), Some("root/b"));
}

#[test]
fn unlistable_root_fails_the_scan() {
    let scanner = Scanner::new("root".to_string());
    assert_eq!(scanner.absorb(Listing::Failed).unwrap_err(), ScanError::Unlistable);
}

#[test]
fn unlistable_subdirectory_fails_the_scan() {
    let scanner = Scanner::new("root".to_string());
    let scanner = scanner
        .absorb(Listing::Children(vec![file("root/f", 1, 1), directory("root/locked")]))
        .unwrap();
    assert_eq!(scanner.absorb(Listing::Failed).unwrap_err(), ScanError::Unlistable);
}

#[test]
fn file_without_any_timestamp_fails_the_scan() {
    let scanner = Scanner::new("root".to_string());
    let listing = Listing::Children(vec![
        file("root/f", 1, 1),
        ChildReport::File {
            path: "root/timeless".to_string(),
            size: 9,
            modified: None,
            created: None,
        },
        directory("root/d"),
    ]);
    assert_eq!(scanner.absorb(listing).unwrap_err(), ScanError::NoTimestamp);
}

#[test]
fn unfinished_scan_hands_out_no_inventory() {
    let scanner = Scanner::new("root".to_string());
    let scanner = match scanner.finish() {
        Ok(_) => panic!("nothing has been listed yet"),
        Err(scanner) => scanner,
    };
    assert_eq!(scanner.next_action(), ScanAction::List { dir: None });
    let scanner = scanner.absorb(Listing::Children(vec![directory("root/d")])).unwrap();
    let scanner = match scanner.finish() {
        Ok(_) => panic!("root/d has not been listed yet"),
        Err(scanner) => scanner,
    };
    assert_eq!(scanner.next_action(), ScanAction::List { dir: Some(0) });
}

#[test]
fn listing_after_the_end_changes_nothing() {
    let scanner = Scanner::new("root".to_string());
    let scanner = scanner.absorb(Listing::Children(vec![file("root/f", 4, 1)])).unwrap();
    assert_eq!(scanner.next_action(), ScanAction::Finish);
    let scanner = scanner.absorb(Listing::Children(vec![file("root/g", 4, 1)])).unwrap();
    let scanner = scanner.absorb(Listing::Failed).unwrap();
    let inventory = scanner.finish().unwrap();
    assert_eq!(inventory.len(), 1);
    assert_eq!(inventory.total_size(), 4);
}

#[test]
fn file_is_aged_by_its_modification_time() {
    let scanner = Scanner::new("root".to_string());
    let scanner = scanner
        .absorb(Listing::Children(vec![ChildReport::File {
            path: "root/f".to_string(),
            size: 1,
            modified: Some(700),
            created: Some(300),
        }]))
        .unwrap();
    let inventory = scanner.finish().unwrap();
    match &inventory.entries()[0] {
        Entry::File(f) => assert_eq!(f.modified, 700),
        Entry::Directory(_) => panic!("entry 0 is a file"),
    }
}

#[test]
fn file_without_modification_time_is_aged_by_its_creation() {
    let scanner = Scanner::new("root".to_string());
    let scanner = scanner
        .absorb(Listing::Children(vec![ChildReport::File {
            path: "root/f".to_string(),
            size: 1,
            modified: None,
            created: Some(300),
        }]))
        .unwrap();
    let inventory = scanner.finish().unwrap();
    assert_eq!(inventory.len(), 1);
    match &inventory.entries()[0] {
        Entry::File(f) => assert_eq!(f.modified, 300),
        Entry::Directory(_) => panic!("entry 0 is a file"),
    }
}
