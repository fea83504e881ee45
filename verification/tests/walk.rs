use std::path::PathBuf;
use dupdirfinder::index::{assemble, check_totals, crawl_directory, Bucket, FileEntry, FingerprintIndex, Summary};
use dupdirfinder::inode::{check_inode, select_entries, EntryKind, Identity, InodeGuard};

fn on_disk(inode: u64) -> Identity {
    Identity { device: 1, inode }
}

fn file(name: &str, size: u64) -> FileEntry {
    FileEntry { name: Some(name.as_bytes().to_vec()), size }
}

#[test]
fn guard_lets_an_identity_pass_once() {
    let mut guard = InodeGuard::new();
    assert!(guard.visit(on_disk(42)));
    assert!(!guard.visit(on_disk(42)));
    assert!(!guard.visit(on_disk(42)));
    assert!(guard.visit(on_disk(43)));
}

#[test]
fn directory_without_identity_is_always_walked() {
    let mut guard = InodeGuard::new();
    assert!(check_inode(&mut guard, None));
    assert!(check_inode(&mut guard, None));
    assert!(check_inode(&mut guard, Some(on_disk(1))));
    assert!(!check_inode(&mut guard, Some(on_disk(1))));
    assert!(check_inode(&mut guard, None));
}

#[test]
fn selection_parts_files_from_directories() {
    let mut guard = InodeGuard::new();
    let entries = vec![
        EntryKind::File,
        EntryKind::Directory(Some(on_disk(7))),
        EntryKind::Other,
        EntryKind::File,
        EntryKind::Directory(Some(on_disk(8))),
    ];
    let chosen = select_entries(&entries, &mut guard);
    assert_eq!(chosen.files, vec![0, 3]);
    assert_eq!(chosen.subdirs, vec![1, 4]);
    assert!(!guard.visit(on_disk(7)));
    assert!(!guard.visit(on_disk(8)));
}

#[test]
fn directory_seen_before_is_dropped() {
    let mut guard = InodeGuard::new();
    assert!(guard.visit(on_disk(7)));
    let entries = vec![
        EntryKind::Directory(Some(on_disk(7))),
        EntryKind::Directory(Some(on_disk(9))),
        EntryKind::Directory(Some(on_disk(9))),
        EntryKind::Directory(None),
        EntryKind::Directory(None),
    ];
    let chosen = select_entries(&entries, &mut guard);
    assert_eq!(chosen.subdirs, vec![1, 3, 4]);
    assert!(chosen.files.is_empty());
}

#[test]
fn guard_serves_every_root() {
    let mut guard = InodeGuard::new();
    let first = select_entries(&vec![EntryKind::Directory(Some(on_disk(5)))], &mut guard);
    let second = select_entries(&vec![EntryKind::Directory(Some(on_disk(5)))], &mut guard);
    assert_eq!(first.subdirs, vec![0]);
    assert!(second.subdirs.is_empty());
}

#[test]
fn empty_listing_selects_nothing() {
    let mut guard = InodeGuard::new();
    let chosen = select_entries(&Vec::new(), &mut guard);
    assert!(chosen.files.is_empty());
    assert!(chosen.subdirs.is_empty());
}

#[test]
fn assembled_record_adds_up_its_entries() {
    let leaf = assemble(PathBuf::from("r/a"), &Vec::new(), &vec![file("f", 10), file("g", 5)]);
    assert_eq!(leaf.descendant_number, 2);
    assert_eq!(leaf.disk_size, 15);
    let below = Summary {
        hash: leaf.hash(),
        descendant_number: leaf.descendant_number,
        disk_size: leaf.disk_size,
    };
    let empty = assemble(PathBuf::from("r/e"), &Vec::new(), &Vec::new());
    assert_eq!(empty.descendant_number, 0);
    assert_eq!(empty.disk_size, 0);
    let nothing = Summary { hash: empty.hash(), descendant_number: 0, disk_size: 0 };
    let root = assemble(PathBuf::from("r"), &vec![below.clone(), nothing.clone()], &vec![file("h", 1)]);
    assert_eq!(root.path, PathBuf::from("r"));
    assert_eq!(root.descendant_number, 5);
    assert_eq!(root.disk_size, 16);
    assert_eq!(root.children_hashes.len(), 3);
    assert_eq!(root.children_hashes[0], below.hash);
    assert_eq!(root.children_hashes[1], nothing.hash);
}

#[test]
fn crawl_inserts_under_the_directorys_hash() {
    let mut index = FingerprintIndex::new();
    let a = crawl_directory(PathBuf::from("r/a"), &Vec::new(), &vec![file("f", 10)], &mut index);
    let b = crawl_directory(PathBuf::from("r/b"), &Vec::new(), &vec![file("f", 10)], &mut index);
    let c = crawl_directory(PathBuf::from("r/c"), &Vec::new(), &vec![file("g", 10)], &mut index);
    assert_eq!(a, b);
    assert_ne!(a.hash, c.hash);
    assert_eq!(index.len(), 2);
    assert_eq!(index.buckets[0].key, a.hash);
    assert_eq!(index.buckets[0].members.len(), 2);
    assert_eq!(index.buckets[0].members[0].path, PathBuf::from("r/a"));
    assert_eq!(index.buckets[0].members[1].path, PathBuf::from("r/b"));
    assert_eq!(index.buckets[1].key, c.hash);
    assert_eq!(index.buckets[1].members.len(), 1);
    assert_eq!(a.descendant_number, 1);
    assert_eq!(a.disk_size, 10);
}

#[test]
fn walking_the_same_tree_twice_gives_the_same_hashes() {
    let mut first = FingerprintIndex::new();
    let mut second = FingerprintIndex::new();
    let files = vec![file("f", 10), file("g", 0)];
    let a = crawl_directory(PathBuf::from("r/a"), &Vec::new(), &files, &mut first);
    let r = crawl_directory(PathBuf::from("r"), &vec![a], &Vec::new(), &mut first);
    let a2 = crawl_directory(PathBuf::from("r/a"), &Vec::new(), &files, &mut second);
    let r2 = crawl_directory(PathBuf::from("r"), &vec![a2], &Vec::new(), &mut second);
    assert_eq!(r, r2);
}

#[test]
fn totals_that_fit_are_accepted() {
    let big = Summary {
        hash: assemble(PathBuf::from("b"), &Vec::new(), &Vec::new()).hash(),
        descendant_number: u64::MAX - 2,
        disk_size: u64::MAX - 5,
    };
    assert!(check_totals(&Vec::new(), &Vec::new()));
    assert!(check_totals(&vec![big.clone()], &vec![file("f", 5)]));
    let root = assemble(PathBuf::from("r"), &vec![big.clone()], &vec![file("f", 5)]);
    assert_eq!(root.descendant_number, u64::MAX);
    assert_eq!(root.disk_size, u64::MAX);
}

#[test]
fn totals_beyond_64_bits_are_refused() {
    let big = Summary {
        hash: assemble(PathBuf::from("b"), &Vec::new(), &Vec::new()).hash(),
        descendant_number: u64::MAX - 2,
        disk_size: u64::MAX - 5,
    };
    assert!(!check_totals(&vec![big.clone()], &vec![file("f", 6)]));
    assert!(!check_totals(&vec![big.clone()], &vec![file("f", 1), file("g", 1)]));
    assert!(!check_totals(&vec![big.clone(), big.clone()], &Vec::new()));
    let full = Summary { descendant_number: u64::MAX, ..big };
    assert!(!check_totals(&vec![full], &Vec::new()));
}

#[test]
fn same_inode_on_two_devices_is_two_directories() {
    let mut guard = InodeGuard::new();
    let e1 = Identity { device: 1, inode: 77 };
    let e2 = Identity { device: 2, inode: 77 };
    assert!(check_inode(&mut guard, Some(e1)));
    assert!(check_inode(&mut guard, Some(e2)));
    assert!(!check_inode(&mut guard, Some(e1)));
    assert!(!check_inode(&mut guard, Some(e2)));
    assert!(check_inode(&mut guard, Some(Identity { device: 77, inode: 1 })));
    assert!(check_inode(&mut guard, Some(Identity { device: 0, inode: u64::MAX })));
    assert!(check_inode(&mut guard, Some(Identity { device: 1, inode: 0 })));
    assert!(check_inode(&mut guard, Some(Identity { device: u64::MAX, inode: u64::MAX })));
    assert!(!check_inode(&mut guard, Some(Identity { device: u64::MAX, inode: u64::MAX })));
}

#[test]
fn selection_keeps_directories_of_one_inode_on_two_devices() {
    let mut guard = InodeGuard::new();
    let entries = vec![
        EntryKind::Directory(Some(Identity { device: 1, inode: 5 })),
        EntryKind::Directory(Some(Identity { device: 2, inode: 5 })),
        EntryKind::Directory(Some(Identity { device: 1, inode: 5 })),
    ];
    let chosen = select_entries(&entries, &mut guard);
    assert_eq!(chosen.subdirs, vec![0, 1]);
}

#[test]
fn index_built_by_the_library_is_well_formed() {
    let mut index = FingerprintIndex::new();
    assert!(index.is_wf());
    let a = crawl_directory(PathBuf::from("r/a"), &Vec::new(), &vec![file("f", 10)], &mut index);
    let b = crawl_directory(PathBuf::from("r/b"), &Vec::new(), &vec![file("f", 10)], &mut index);
    assert!(index.is_wf());
    crawl_directory(PathBuf::from("r"), &vec![a, b], &Vec::new(), &mut index);
    assert!(index.is_wf());
}

#[test]
fn index_with_an_empty_bucket_is_not_well_formed() {
    let mut index = FingerprintIndex::new();
    let a = crawl_directory(PathBuf::from("r/a"), &Vec::new(), &vec![file("f", 10)], &mut index);
    index.buckets.push(Bucket { key: a.hash.copy(), members: Vec::new() });
    assert!(!index.is_wf());
}

#[test]
fn index_with_a_fingerprint_twice_is_not_well_formed() {
    let mut index = FingerprintIndex::new();
    let record = assemble(PathBuf::from("r/a"), &Vec::new(), &vec![file("f", 10)]);
    let twin = assemble(PathBuf::from("r/b"), &Vec::new(), &vec![file("f", 10)]);
    index.buckets.push(Bucket { key: record.hash(), members: vec![record] });
    assert!(index.is_wf());
    index.buckets.push(Bucket { key: twin.hash(), members: vec![twin] });
    assert!(!index.is_wf());
}

#[test]
fn index_with_a_record_under_another_fingerprint_is_not_well_formed() {
    let mut index = FingerprintIndex::new();
    let record = assemble(PathBuf::from("r/a"), &Vec::new(), &vec![file("f", 10)]);
    let other = assemble(PathBuf::from("r/b"), &Vec::new(), &vec![file("g", 10)]);
    index.buckets.push(Bucket { key: other.hash(), members: vec![record] });
    assert!(!index.is_wf());
}

#[test]
fn insert_into_an_index_with_a_fingerprint_twice_takes_the_first_bucket() {
    let mut index = FingerprintIndex::new();
    let first = assemble(PathBuf::from("r/a"), &Vec::new(), &vec![file("f", 10)]);
    let second = assemble(PathBuf::from("r/b"), &Vec::new(), &vec![file("f", 10)]);
    index.buckets.push(Bucket { key: first.hash(), members: vec![first] });
    index.buckets.push(Bucket { key: second.hash(), members: vec![second] });
    index.insert(assemble(PathBuf::from("r/c"), &Vec::new(), &vec![file("f", 10)]));
    assert_eq!(index.len(), 2);
    assert_eq!(index.buckets[0].members.len(), 2);
    assert_eq!(index.buckets[0].members[1].path, PathBuf::from("r/c"));
    assert_eq!(index.buckets[1].members.len(), 1);
}

#[test]
fn hashes_have_64_bytes() {
    let mut index = FingerprintIndex::new();
    let a = crawl_directory(PathBuf::from("r/a"), &Vec::new(), &vec![file("f", 10)], &mut index);
    assert_eq!(a.hash.0.len(), 64);
    assert_eq!(assemble(PathBuf::from("e"), &Vec::new(), &Vec::new()).hash().0.len(), 64);
}
