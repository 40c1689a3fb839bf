use deduplicator::fileinfo::{FileInfo, FileSource};
use deduplicator::group::{add_if_new_path, contains_path, every_member_processed, mark_path, single};
use deduplicator::text::{decimal_string, instances_warning, listed_path};

fn file(path: &str, size: u64) -> FileInfo {
    FileInfo::new(path.to_string(), size)
}

#[test]
fn decimal_string_writes_numbers() {
    assert_eq!(decimal_string(0), "0");
    assert_eq!(decimal_string(7), "7");
    assert_eq!(decimal_string(10), "10");
    assert_eq!(decimal_string(109), "109");
    assert_eq!(decimal_string(1234567890), "1234567890");
    assert_eq!(decimal_string(usize::MAX), usize::MAX.to_string());
}

#[test]
fn instances_warning_names_the_count() {
    assert_eq!(instances_warning(2), "Warning: Hash has 2 instances in target folder:");
    assert_eq!(instances_warning(15), "Warning: Hash has 15 instances in target folder:");
}

#[test]
fn listed_path_is_indented() {
    assert_eq!(listed_path(&"target/a.txt".to_string()), "  - target/a.txt");
    assert_eq!(listed_path(&String::new()), "  - ");
}

#[test]
fn new_file_is_untouched_and_untagged() {
    let mut f = file("some/where", 42);
    assert_eq!(f.path, "some/where");
    assert_eq!(f.size, 42);
    assert_eq!(f.source, None);
    assert!(!f.is_sw_processed());
    f.sw_processed();
    assert!(f.is_sw_processed());
    f.sw_processed();
    assert!(f.is_sw_processed());
    let copy = f.clone();
    assert_eq!(copy.path, "some/where");
    assert_eq!(copy.size, 42);
    assert!(copy.is_sw_processed());
    assert_ne!(FileSource::Staging, FileSource::Target);
}

#[test]
fn group_takes_a_path_once() {
    let mut group = single(&file("a", 1));
    assert_eq!(group.len(), 1);
    assert!(contains_path(&group, &"a".to_string()));
    assert!(!contains_path(&group, &"b".to_string()));

    add_if_new_path(&mut group, &file("b", 1));
    add_if_new_path(&mut group, &file("a", 1));
    add_if_new_path(&mut group, &file("b", 2));

    let names: Vec<&str> = group.iter().map(|f| f.path.as_str()).collect();
    assert_eq!(names, vec!["a", "b"]);
    assert_eq!(group[1].size, 1);
}

#[test]
fn marking_touches_the_named_path_only() {
    let mut group = vec![file("a", 1), file("b", 1), file("c", 1)];
    assert!(!every_member_processed(&group));

    mark_path(&mut group, &"b".to_string());
    assert!(!group[0].is_sw_processed());
    assert!(group[1].is_sw_processed());
    assert!(!group[2].is_sw_processed());

    mark_path(&mut group, &"missing".to_string());
    mark_path(&mut group, &"a".to_string());
    assert!(!every_member_processed(&group));
    mark_path(&mut group, &"c".to_string());
    assert!(every_member_processed(&group));
    assert!(every_member_processed(&vec![]));
}
