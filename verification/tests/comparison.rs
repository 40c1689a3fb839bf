use deduplicator::digest::full_hash;
use deduplicator::fileinfo::{FileInfo, FileSource};
use deduplicator::processor::{ComparisonResult, Processor};

fn tagged(path: &str, size: u64, source: FileSource) -> FileInfo {
    let mut file = FileInfo::new(path.to_string(), size);
    file.source = Some(source);
    file
}

fn paths(files: &[FileInfo]) -> Vec<String> {
    let mut paths: Vec<String> = files.iter().map(|f| f.path.clone()).collect();
    paths.sort();
    paths
}

#[test]
fn staging_copy_of_a_target_file_is_marked_for_deletion() {
    let content = b"the same bytes in both trees".to_vec();
    let processor = Processor::new(vec![
        tagged("staging/report.txt", 28, FileSource::Staging),
        tagged("target/report.txt", 28, FileSource::Target),
    ]);

    let result = processor.comparison_mode(&vec![Some(content.clone()), Some(content)]);

    assert_eq!(result.files_to_delete.len(), 1);
    assert_eq!(result.files_to_delete[0].path, "staging/report.txt");
    assert_eq!(result.files_to_delete[0].source, Some(FileSource::Staging));
    assert!(result.warnings.is_empty());
}

#[test]
fn two_target_copies_give_one_warning_and_no_deletion() {
    let content = b"twice in the target tree".to_vec();
    let processor = Processor::new(vec![
        tagged("target/a.txt", 24, FileSource::Target),
        tagged("target/b.txt", 24, FileSource::Target),
    ]);

    let result = processor.comparison_mode(&vec![Some(content.clone()), Some(content)]);

    assert!(result.files_to_delete.is_empty());
    assert_eq!(
        result.warnings,
        vec![
            "Warning: Hash has 2 instances in target folder:".to_string(),
            "  - target/a.txt".to_string(),
            "  - target/b.txt".to_string(),
        ]
    );
}

#[test]
fn every_staging_copy_goes_and_target_copies_are_listed() {
    let content = vec![7u8; 300];
    let processor = Processor::new(vec![
        tagged("staging/one", 300, FileSource::Staging),
        tagged("target/one", 300, FileSource::Target),
        tagged("staging/two", 300, FileSource::Staging),
        tagged("target/two", 300, FileSource::Target),
        tagged("target/three", 300, FileSource::Target),
    ]);
    let contents = vec![Some(content.clone()); 5];

    let result = processor.comparison_mode(&contents);

    assert_eq!(paths(&result.files_to_delete), vec!["staging/one", "staging/two"]);
    assert_eq!(
        result.warnings,
        vec![
            "Warning: Hash has 3 instances in target folder:".to_string(),
            "  - target/one".to_string(),
            "  - target/two".to_string(),
            "  - target/three".to_string(),
        ]
    );
}

#[test]
fn files_in_one_tree_only_give_no_action() {
    let processor = Processor::new(vec![
        tagged("staging/a", 3, FileSource::Staging),
        tagged("staging/b", 3, FileSource::Staging),
        tagged("target/c", 3, FileSource::Target),
    ]);
    let contents = vec![Some(b"aaa".to_vec()), Some(b"aaa".to_vec()), Some(b"ccc".to_vec())];

    let result = processor.comparison_mode(&contents);

    assert!(result.files_to_delete.is_empty());
    assert!(result.warnings.is_empty());
}

#[test]
fn differing_content_is_not_a_duplicate() {
    let processor = Processor::new(vec![
        tagged("staging/a", 4, FileSource::Staging),
        tagged("target/a", 4, FileSource::Target),
    ]);

    let result = processor.comparison_mode(&vec![Some(b"abcd".to_vec()), Some(b"abce".to_vec())]);

    assert!(result.files_to_delete.is_empty());
    assert!(result.warnings.is_empty());
}

#[test]
fn unreadable_file_is_left_out_of_the_comparison() {
    let content = b"content".to_vec();
    let processor = Processor::new(vec![
        tagged("staging/a", 7, FileSource::Staging),
        tagged("target/a", 7, FileSource::Target),
    ]);

    let lost_target = processor.comparison_mode(&vec![Some(content.clone()), None]);
    assert!(lost_target.files_to_delete.is_empty());

    let lost_staging = processor.comparison_mode(&vec![None, Some(content.clone())]);
    assert!(lost_staging.files_to_delete.is_empty());

    let short = processor.comparison_mode(&vec![Some(content)]);
    assert!(short.files_to_delete.is_empty());
}

#[test]
fn untagged_files_take_no_part() {
    let content = b"content".to_vec();
    let processor = Processor::new(vec![
        FileInfo::new("somewhere/a".to_string(), 7),
        tagged("target/a", 7, FileSource::Target),
    ]);

    let result = processor.comparison_mode(&vec![Some(content.clone()), Some(content)]);

    assert!(result.files_to_delete.is_empty());
    assert!(result.warnings.is_empty());
}

#[test]
fn comparison_of_nothing_is_empty() {
    let processor = Processor::new(vec![]);
    let result = processor.comparison_mode(&vec![]);
    assert!(result.files_to_delete.is_empty());
    assert!(result.warnings.is_empty());
}

#[test]
fn index_files_each_path_once_under_its_full_digest() {
    let processor = Processor::new(vec![
        tagged("staging/a", 3, FileSource::Staging),
        tagged("target/a", 3, FileSource::Target),
        tagged("staging/a", 3, FileSource::Staging),
        tagged("target/b", 3, FileSource::Target),
        tagged("target/lost", 3, FileSource::Target),
    ]);
    let contents = vec![
        Some(b"aaa".to_vec()),
        Some(b"aaa".to_vec()),
        Some(b"aaa".to_vec()),
        Some(b"bbb".to_vec()),
        None,
    ];

    let table = processor.index(&contents, 300);

    assert_eq!(table.len(), 2);
    let group = table.get(&full_hash(b"aaa", 300)).unwrap().clone();
    let names: Vec<&str> = group.iter().map(|f| f.path.as_str()).collect();
    assert_eq!(names, vec!["staging/a", "target/a"]);
    assert_eq!(table.get(&full_hash(b"bbb", 300)).unwrap().len(), 1);
}

#[test]
fn classify_goes_group_by_group() {
    let entries = vec![
        (
            1u128,
            vec![
                tagged("t/1", 1, FileSource::Target),
                tagged("s/1", 1, FileSource::Staging),
                tagged("t/2", 1, FileSource::Target),
            ],
        ),
        (2u128, vec![tagged("s/2", 2, FileSource::Staging)]),
        (
            3u128,
            vec![
                tagged("s/3", 3, FileSource::Staging),
                tagged("s/4", 3, FileSource::Staging),
                tagged("t/3", 3, FileSource::Target),
            ],
        ),
    ];

    let result: ComparisonResult = Processor::classify(&entries);

    let names: Vec<&str> = result.files_to_delete.iter().map(|f| f.path.as_str()).collect();
    assert_eq!(names, vec!["s/1", "s/3", "s/4"]);
    assert_eq!(
        result.warnings,
        vec![
            "Warning: Hash has 2 instances in target folder:".to_string(),
            "  - t/1".to_string(),
            "  - t/2".to_string(),
        ]
    );
    let copy = result.clone();
    assert_eq!(copy.warnings, result.warnings);
}

#[test]
fn processor_keeps_its_files() {
    let processor = Processor::new(vec![tagged("a", 1, FileSource::Staging)]);
    assert_eq!(processor.files.len(), 1);
    assert_eq!(processor.files[0].path, "a");
}
