use std::path::PathBuf;
use dupdirfinder::index::{crawl_directory, FileEntry, FingerprintIndex, Summary};
use dupdirfinder::record::DirectoryData;
use dupdirfinder::reduce::{list_duplicates, wasted_space};

fn file(name: &str, size: u64) -> FileEntry {
    FileEntry { name: Some(name.as_bytes().to_vec()), size }
}

fn leaf(path: &str, files: Vec<FileEntry>, index: &mut FingerprintIndex) -> Summary {
    crawl_directory(PathBuf::from(path), &Vec::new(), &files, index)
}

fn paths(group: &Vec<DirectoryData>) -> Vec<String> {
    group.iter().map(|d| d.path.to_str().unwrap().to_string()).collect()
}

#[test]
fn two_directories_with_the_same_file() {
    let mut index = FingerprintIndex::new();
    let a = leaf("r/A", vec![file("f", 10)], &mut index);
    let b = leaf("r/B", vec![file("f", 10)], &mut index);
    crawl_directory(PathBuf::from("r"), &vec![a, b], &Vec::new(), &mut index);
    let groups = list_duplicates(index, 1);
    assert_eq!(groups.len(), 1);
    assert_eq!(paths(&groups[0]), vec!["r/A", "r/B"]);
    assert_eq!(wasted_space(&groups[0]), 10);
}

#[test]
fn directory_without_a_twin_is_in_no_group() {
    let mut index = FingerprintIndex::new();
    let a = leaf("r/A", vec![file("f", 5)], &mut index);
    let b = leaf("r/B", vec![file("f", 5)], &mut index);
    let c = leaf("r/C", vec![file("g", 3)], &mut index);
    crawl_directory(PathBuf::from("r"), &vec![a, b, c], &Vec::new(), &mut index);
    let groups = list_duplicates(index, 1);
    assert_eq!(groups.len(), 1);
    assert_eq!(paths(&groups[0]), vec!["r/A", "r/B"]);
}

#[test]
fn duplicated_parents_hide_their_duplicated_children() {
    let mut index = FingerprintIndex::new();
    let q1 = leaf("r/P1/Q", vec![file("h", 1)], &mut index);
    let p1 = crawl_directory(PathBuf::from("r/P1"), &vec![q1], &Vec::new(), &mut index);
    let q2 = leaf("r/P2/Q", vec![file("h", 1)], &mut index);
    let p2 = crawl_directory(PathBuf::from("r/P2"), &vec![q2], &Vec::new(), &mut index);
    crawl_directory(PathBuf::from("r"), &vec![p1, p2], &Vec::new(), &mut index);
    let groups = list_duplicates(index, 1);
    assert_eq!(groups.len(), 1);
    assert_eq!(paths(&groups[0]), vec!["r/P1", "r/P2"]);
    assert_eq!(wasted_space(&groups[0]), 1);
}

#[test]
fn child_with_a_twin_elsewhere_is_reported_too() {
    let mut index = FingerprintIndex::new();
    let q1 = leaf("r/P1/Q", vec![file("h", 1)], &mut index);
    let p1 = crawl_directory(PathBuf::from("r/P1"), &vec![q1], &Vec::new(), &mut index);
    let q2 = leaf("r/P2/Q", vec![file("h", 1)], &mut index);
    let p2 = crawl_directory(PathBuf::from("r/P2"), &vec![q2], &Vec::new(), &mut index);
    let q3 = leaf("r/Q", vec![file("h", 1)], &mut index);
    crawl_directory(PathBuf::from("r"), &vec![p1, p2, q3], &Vec::new(), &mut index);
    let groups = list_duplicates(index, 1);
    assert_eq!(groups.len(), 2);
    assert_eq!(paths(&groups[0]), vec!["r/P1", "r/P2"]);
    assert_eq!(paths(&groups[1]), vec!["r/P1/Q", "r/P2/Q", "r/Q"]);
    assert_eq!(wasted_space(&groups[1]), 2);
}

fn two_empty_directories() -> FingerprintIndex {
    let mut index = FingerprintIndex::new();
    let e1 = leaf("r/E1", Vec::new(), &mut index);
    let e2 = leaf("r/E2", Vec::new(), &mut index);
    crawl_directory(PathBuf::from("r"), &vec![e1, e2], &Vec::new(), &mut index);
    index
}

#[test]
fn empty_directories_form_no_group() {
    assert!(list_duplicates(two_empty_directories(), 0).is_empty());
    assert!(list_duplicates(two_empty_directories(), 1).is_empty());
}

fn two_directories_of_500_bytes() -> FingerprintIndex {
    let mut index = FingerprintIndex::new();
    let a = leaf("r/A", vec![file("f", 500)], &mut index);
    let b = leaf("r/B", vec![file("f", 500)], &mut index);
    crawl_directory(PathBuf::from("r"), &vec![a, b], &Vec::new(), &mut index);
    index
}

#[test]
fn group_below_the_threshold_is_left_out() {
    assert!(list_duplicates(two_directories_of_500_bytes(), 1000).is_empty());
    assert!(list_duplicates(two_directories_of_500_bytes(), 501).is_empty());
    let groups = list_duplicates(two_directories_of_500_bytes(), 500);
    assert_eq!(groups.len(), 1);
    assert_eq!(paths(&groups[0]), vec!["r/A", "r/B"]);
    assert_eq!(wasted_space(&groups[0]), 500);
}

#[test]
fn groups_come_by_falling_number_of_descendants() {
    let mut index = FingerprintIndex::new();
    let s1 = leaf("r/S1", vec![file("x", 1)], &mut index);
    let s2 = leaf("r/S2", vec![file("x", 1)], &mut index);
    let b1 = leaf("r/B1", vec![file("a", 1), file("b", 1), file("c", 1)], &mut index);
    let b2 = leaf("r/B2", vec![file("a", 1), file("b", 1), file("c", 1)], &mut index);
    let m1 = leaf("r/M1", vec![file("a", 1), file("b", 1)], &mut index);
    let m2 = leaf("r/M2", vec![file("a", 1), file("b", 1)], &mut index);
    crawl_directory(PathBuf::from("r"), &vec![s1, s2, b1, b2, m1, m2], &Vec::new(), &mut index);
    let groups = list_duplicates(index, 1);
    assert_eq!(groups.len(), 3);
    assert_eq!(paths(&groups[0]), vec!["r/B1", "r/B2"]);
    assert_eq!(paths(&groups[1]), vec!["r/M1", "r/M2"]);
    assert_eq!(paths(&groups[2]), vec!["r/S1", "r/S2"]);
}

#[test]
fn groups_of_one_rank_keep_the_order_of_first_occurrence() {
    let mut index = FingerprintIndex::new();
    let x1 = leaf("r/X1", vec![file("x", 1)], &mut index);
    let y1 = leaf("r/Y1", vec![file("y", 1)], &mut index);
    let y2 = leaf("r/Y2", vec![file("y", 1)], &mut index);
    let x2 = leaf("r/X2", vec![file("x", 1)], &mut index);
    crawl_directory(PathBuf::from("r"), &vec![x1, y1, y2, x2], &Vec::new(), &mut index);
    let groups = list_duplicates(index, 1);
    assert_eq!(groups.len(), 2);
    assert_eq!(paths(&groups[0]), vec!["r/X1", "r/X2"]);
    assert_eq!(paths(&groups[1]), vec!["r/Y1", "r/Y2"]);
}

#[test]
fn three_copies_waste_twice_the_size() {
    let mut index = FingerprintIndex::new();
    let a = leaf("r/A", vec![file("f", 7)], &mut index);
    let b = leaf("r/B", vec![file("f", 7)], &mut index);
    let c = leaf("r/C", vec![file("f", 7)], &mut index);
    crawl_directory(PathBuf::from("r"), &vec![a, b, c], &Vec::new(), &mut index);
    let groups = list_duplicates(index, 1);
    assert_eq!(groups.len(), 1);
    assert_eq!(groups[0].len(), 3);
    assert_eq!(wasted_space(&groups[0]), 14);
}

#[test]
fn empty_index_has_no_duplicates() {
    assert!(list_duplicates(FingerprintIndex::new(), 1).is_empty());
}

#[test]
fn directories_without_a_twin_explain_nothing() {
    let mut index = FingerprintIndex::new();
    let q1 = leaf("r/X/Q", vec![file("h", 1)], &mut index);
    let x = crawl_directory(PathBuf::from("r/X"), &vec![q1], &vec![file("a", 1)], &mut index);
    let q2 = leaf("r/Y/Q", vec![file("h", 1)], &mut index);
    let y = crawl_directory(PathBuf::from("r/Y"), &vec![q2], &vec![file("b", 1)], &mut index);
    crawl_directory(PathBuf::from("r"), &vec![x, y], &Vec::new(), &mut index);
    let groups = list_duplicates(index, 1);
    assert_eq!(groups.len(), 1);
    assert_eq!(paths(&groups[0]), vec!["r/X/Q", "r/Y/Q"]);
}

#[test]
fn entry_that_stands_twice_is_explained_twice() {
    let mut index = FingerprintIndex::new();
    let a1 = leaf("r/P1/A", vec![file("h", 1)], &mut index);
    let b1 = leaf("r/P1/B", vec![file("h", 1)], &mut index);
    let p1 = crawl_directory(PathBuf::from("r/P1"), &vec![a1, b1], &Vec::new(), &mut index);
    let a2 = leaf("r/P2/A", vec![file("h", 1)], &mut index);
    let b2 = leaf("r/P2/B", vec![file("h", 1)], &mut index);
    let p2 = crawl_directory(PathBuf::from("r/P2"), &vec![a2, b2], &Vec::new(), &mut index);
    crawl_directory(PathBuf::from("r"), &vec![p1, p2], &Vec::new(), &mut index);
    let groups = list_duplicates(index, 1);
    assert_eq!(groups.len(), 1);
    assert_eq!(paths(&groups[0]), vec!["r/P1", "r/P2"]);
    assert_eq!(groups[0][0].descendant_number, 4);
    assert_eq!(groups[0][0].disk_size, 2);
    assert_eq!(wasted_space(&groups[0]), 2);
}
