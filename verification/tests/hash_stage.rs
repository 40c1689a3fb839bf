use dashmap::DashMap;
use deduplicator::digest::{full_hash, prefix_hash, read_len, stage_hash, PREFIX_LEN};
use deduplicator::fileinfo::FileInfo;
use deduplicator::processor::Processor;
use rand::Rng;

fn generate_bytes(size: usize) -> Vec<u8> {
    let mut rng = rand::rng();
    (0..size).map(|_| rng.random::<u8>()).collect::<Vec<u8>>()
}

fn discovered(files: &[(&str, Vec<u8>)]) -> Vec<FileInfo> {
    files
        .iter()
        .map(|f| FileInfo::new(f.0.to_string(), f.1.len() as u64))
        .collect::<Vec<FileInfo>>()
}

fn read(files: &[(&str, Vec<u8>)], jobs: &[FileInfo]) -> Vec<Option<Vec<u8>>> {
    jobs.iter()
        .map(|job| files.iter().find(|f| f.0 == job.path).map(|f| f.1.clone()))
        .collect()
}

fn run_stages(files: &[(&str, Vec<u8>)], strict: bool) -> (DashMap<u128, Vec<FileInfo>>, u64) {
    let mut dupstore: DashMap<u64, Vec<FileInfo>> = DashMap::new();
    let mut file_queue = discovered(files);
    let mut hw_dupstore: DashMap<u128, Vec<FileInfo>> = DashMap::new();
    let mut max_file_size: u64 = 32;

    assert!(Processor::sizewise(true, &mut dupstore, &mut file_queue));

    let jobs = Processor::pending(&dupstore);
    let contents = read(files, &jobs);
    let finished = Processor::hashwise(
        strict,
        &mut dupstore,
        &mut hw_dupstore,
        &mut max_file_size,
        300,
        true,
        &jobs,
        &contents,
    );
    assert!(finished);
    assert!(Processor::pending(&dupstore).is_empty());
    (hw_dupstore, max_file_size)
}

#[test]
fn hashwise_sorting_two_files_with_identical_init_pages_only_strict_mode() {
    let content = generate_bytes(16384);

    let mut content_x = content.clone();
    let mut content_y = content.clone();

    content_x.extend(generate_bytes(1720320));
    content_y.extend(generate_bytes(1720320));

    let files = [("fileone.bin", content_x), ("filetwo.bin", content_y)];

    let (hw_dupstore, _) = run_stages(&files, true);

    assert_eq!(hw_dupstore.len(), 2);
}

#[test]
fn hashwise_sorting_two_files_with_identical_init_pages_only_fast_mode() {
    let content = generate_bytes(16384);

    let mut content_x = content.clone();
    let mut content_y = content.clone();

    content_x.extend(generate_bytes(1720320));
    content_y.extend(generate_bytes(1720320));

    let files = [("fileone.bin", content_x), ("filetwo.bin", content_y)];

    let (hw_dupstore, _) = run_stages(&files, false);

    assert_eq!(hw_dupstore.len(), 1);
}

#[test]
fn hashwise_sorting_two_files_with_identical_data() {
    let content = generate_bytes(282624);
    let files = [("fileone.bin", content.clone()), ("filetwo.bin", content.clone())];

    let (hw_dupstore, _) = run_stages(&files, false);

    assert_eq!(hw_dupstore.len(), 1);
    let group = hw_dupstore.iter().next().unwrap().value().clone();
    assert_eq!(group.len(), 2);
    assert!(group.iter().all(|f| f.is_sw_processed()));
    assert!(group.iter().any(|f| f.path == "fileone.bin"));
    assert!(group.iter().any(|f| f.path == "filetwo.bin"));
}

#[test]
fn files_of_different_sizes_never_reach_the_hash_stage() {
    let files = [("fileone.bin", generate_bytes(282624)), ("filetwo.bin", generate_bytes(1720320))];
    let mut dupstore: DashMap<u64, Vec<FileInfo>> = DashMap::new();
    let mut file_queue = discovered(&files);

    Processor::sizewise(true, &mut dupstore, &mut file_queue);

    assert_eq!(dupstore.len(), 2);
    assert_eq!(dupstore.get(&282624).unwrap().len(), 1);
    assert_eq!(dupstore.get(&1720320).unwrap().len(), 1);
    assert!(Processor::pending(&dupstore).is_empty());

    let (hw_dupstore, width) = run_stages(&files, true);
    assert_eq!(hw_dupstore.len(), 0);
    assert_eq!(width, 32);
}

#[test]
fn full_hash_of_equal_content_is_equal() {
    let content = generate_bytes(100000);
    let copy = content.clone();
    assert_eq!(full_hash(&content, 300), full_hash(&copy, 300));
    assert_eq!(full_hash(&[], 7), full_hash(&[], 7));
}

#[test]
fn full_hash_tells_contents_and_seeds_apart() {
    let content = generate_bytes(100000);
    let mut other = content.clone();
    other[99999] ^= 1;
    assert_ne!(full_hash(&content, 300), full_hash(&other, 300));
    assert_ne!(full_hash(&content, 300), full_hash(&content, 301));
    assert_ne!(full_hash(b"fileone", 0), full_hash(b"filetwo", 0));
}

#[test]
fn prefix_hash_reads_the_leading_region_only() {
    let content = generate_bytes(PREFIX_LEN + 5000);
    let mut other = content.clone();
    other[PREFIX_LEN] ^= 1;
    assert_eq!(prefix_hash(&content, 300), prefix_hash(&other, 300));
    assert_eq!(prefix_hash(&content, 300), full_hash(&content[..PREFIX_LEN], 300));
    assert_ne!(prefix_hash(&content, 300), full_hash(&content, 300));

    other[PREFIX_LEN - 1] ^= 1;
    assert_ne!(prefix_hash(&content, 300), prefix_hash(&other, 300));
}

#[test]
fn prefix_hash_of_short_content_is_its_full_hash() {
    let content = generate_bytes(PREFIX_LEN);
    assert_eq!(prefix_hash(&content, 5), full_hash(&content, 5));
    assert_eq!(prefix_hash(&content[..10], 5), full_hash(&content[..10], 5));
    assert_eq!(prefix_hash(&[], 5), full_hash(&[], 5));
}

#[test]
fn stage_hash_follows_the_mode() {
    let content = generate_bytes(PREFIX_LEN * 2);
    assert_eq!(stage_hash(true, &content, 9), full_hash(&content, 9));
    assert_eq!(stage_hash(false, &content, 9), prefix_hash(&content, 9));
}

#[test]
fn read_len_is_the_size_or_the_leading_region() {
    assert_eq!(PREFIX_LEN, 16384);
    assert_eq!(read_len(true, 0), 0);
    assert_eq!(read_len(false, 0), 0);
    assert_eq!(read_len(true, 1720320), 1720320);
    assert_eq!(read_len(false, 1720320), 16384);
    assert_eq!(read_len(false, 16384), 16384);
    assert_eq!(read_len(false, 16383), 16383);
    assert_eq!(read_len(false, 16385), 16384);
    assert_eq!(read_len(true, u64::MAX), u64::MAX);
}

#[test]
fn stage_hash_of_the_bytes_read_is_the_stage_hash() {
    let content = generate_bytes(50000);
    for strict in [true, false] {
        let len = read_len(strict, content.len() as u64) as usize;
        assert_eq!(stage_hash(strict, &content[..len], 11), stage_hash(strict, &content, 11));
    }
}

#[test]
fn display_width_counts_grapheme_clusters() {
    let content = generate_bytes(64);
    let files = [
        ("a\u{310}e\u{301}o\u{308}\u{332}", content.clone()),
        ("b", content.clone()),
    ];
    let mut dupstore: DashMap<u64, Vec<FileInfo>> = DashMap::new();
    let mut hw_dupstore: DashMap<u128, Vec<FileInfo>> = DashMap::new();
    let mut file_queue = discovered(&files);
    let mut width: u64 = 0;

    Processor::sizewise(true, &mut dupstore, &mut file_queue);
    let jobs = Processor::pending(&dupstore);
    let contents = read(&files, &jobs);
    Processor::hashwise(false, &mut dupstore, &mut hw_dupstore, &mut width, 1, true, &jobs, &contents);

    assert_eq!(width, 3);
}

#[test]
fn display_width_never_shrinks() {
    let mut width: u64 = 0;
    Processor::compare_and_update_max_path_len(&mut width, 12);
    assert_eq!(width, 12);
    Processor::compare_and_update_max_path_len(&mut width, 7);
    assert_eq!(width, 12);
    Processor::compare_and_update_max_path_len(&mut width, 12);
    assert_eq!(width, 12);
    Processor::compare_and_update_max_path_len(&mut width, 13);
    assert_eq!(width, 13);
}

#[test]
fn unreadable_file_is_marked_and_left_out() {
    let content = generate_bytes(128);
    let files = [("one", content.clone()), ("two", content.clone()), ("three", content.clone())];
    let mut dupstore: DashMap<u64, Vec<FileInfo>> = DashMap::new();
    let mut hw_dupstore: DashMap<u128, Vec<FileInfo>> = DashMap::new();
    let mut file_queue = discovered(&files);
    let mut width: u64 = 0;

    Processor::sizewise(true, &mut dupstore, &mut file_queue);
    let jobs = Processor::pending(&dupstore);
    assert_eq!(jobs.len(), 3);
    let mut contents = read(&files, &jobs);
    let lost = jobs.iter().position(|f| f.path == "three").unwrap();
    contents[lost] = None;

    let finished = Processor::hashwise(
        true, &mut dupstore, &mut hw_dupstore, &mut width, 42, true, &jobs, &contents,
    );

    assert!(finished);
    assert!(dupstore.get(&128).unwrap().iter().all(|f| f.is_sw_processed()));
    assert_eq!(hw_dupstore.len(), 1);
    let group = hw_dupstore.get(&full_hash(&content, 42)).unwrap().clone();
    assert_eq!(group.len(), 2);
    assert!(group.iter().all(|f| f.path != "three"));
    assert_eq!(width, 3);
}

#[test]
fn readings_that_are_missing_count_as_unreadable() {
    let content = generate_bytes(128);
    let files = [("one", content.clone()), ("two", content.clone())];
    let mut dupstore: DashMap<u64, Vec<FileInfo>> = DashMap::new();
    let mut hw_dupstore: DashMap<u128, Vec<FileInfo>> = DashMap::new();
    let mut file_queue = discovered(&files);
    let mut width: u64 = 0;

    Processor::sizewise(true, &mut dupstore, &mut file_queue);
    let jobs = Processor::pending(&dupstore);
    let finished =
        Processor::hashwise(true, &mut dupstore, &mut hw_dupstore, &mut width, 42, true, &jobs, &vec![]);

    assert!(finished);
    assert_eq!(hw_dupstore.len(), 0);
    assert_eq!(width, 0);
}

#[test]
fn hash_stage_waits_for_the_size_stage() {
    let content = generate_bytes(128);
    let files = [("one", content.clone()), ("two", content.clone())];
    let mut dupstore: DashMap<u64, Vec<FileInfo>> = DashMap::new();
    let mut hw_dupstore: DashMap<u128, Vec<FileInfo>> = DashMap::new();
    let mut file_queue = discovered(&files);
    let mut width: u64 = 0;

    assert!(!Processor::sizewise(false, &mut dupstore, &mut file_queue));
    let jobs = Processor::pending(&dupstore);
    let contents = read(&files, &jobs);

    let idle = Processor::hashwise(
        false, &mut dupstore, &mut hw_dupstore, &mut width, 42, true, &vec![], &vec![],
    );
    assert!(!idle);

    let early = Processor::hashwise(
        false, &mut dupstore, &mut hw_dupstore, &mut width, 42, false, &jobs, &contents,
    );
    assert!(!early);
    assert_eq!(hw_dupstore.len(), 1);

    let done = Processor::hashwise(
        false, &mut dupstore, &mut hw_dupstore, &mut width, 42, true, &vec![], &vec![],
    );
    assert!(done);
}

#[test]
fn late_arrival_in_a_hashed_group_is_taken_up() {
    let content = generate_bytes(128);
    let files = [("one", content.clone()), ("two", content.clone()), ("three", content.clone())];
    let mut dupstore: DashMap<u64, Vec<FileInfo>> = DashMap::new();
    let mut hw_dupstore: DashMap<u128, Vec<FileInfo>> = DashMap::new();
    let mut width: u64 = 0;

    let mut first = discovered(&files[..2]);
    Processor::sizewise(false, &mut dupstore, &mut first);
    let jobs = Processor::pending(&dupstore);
    assert_eq!(jobs.len(), 2);
    let contents = read(&files, &jobs);
    Processor::hashwise(false, &mut dupstore, &mut hw_dupstore, &mut width, 1, false, &jobs, &contents);
    assert!(Processor::pending(&dupstore).is_empty());

    let mut second = discovered(&files[2..]);
    Processor::sizewise(true, &mut dupstore, &mut second);
    let jobs = Processor::pending(&dupstore);
    assert_eq!(jobs.len(), 1);
    assert_eq!(jobs[0].path, "three");
    let contents = read(&files, &jobs);
    let finished =
        Processor::hashwise(false, &mut dupstore, &mut hw_dupstore, &mut width, 1, true, &jobs, &contents);

    assert!(finished);
    assert_eq!(hw_dupstore.len(), 1);
    assert_eq!(hw_dupstore.get(&prefix_hash(&content, 1)).unwrap().len(), 3);
    assert_eq!(width, 5);
}

#[test]
fn select_pending_follows_the_listing() {
    let mut done = FileInfo::new("done".to_string(), 5);
    done.sw_processed();
    let entries = vec![
        (7u64, vec![FileInfo::new("alone".to_string(), 7)]),
        (5u64, vec![done.clone(), FileInfo::new("fresh".to_string(), 5)]),
        (9u64, vec![FileInfo::new("x".to_string(), 9), FileInfo::new("y".to_string(), 9)]),
        (3u64, vec![done.clone(), done.clone()]),
    ];

    let jobs = Processor::select_pending(&entries);

    let paths: Vec<&str> = jobs.iter().map(|f| f.path.as_str()).collect();
    assert_eq!(paths, vec!["fresh", "x", "y"]);
    assert!(Processor::select_pending(&vec![]).is_empty());
}
