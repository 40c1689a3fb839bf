use dashmap::DashMap;
use deduplicator::fileinfo::FileInfo;
use deduplicator::processor::Processor;

fn file(path: &str, size: u64) -> FileInfo {
    FileInfo::new(path.to_string(), size)
}

#[test]
fn sizewise_sorting_two_files_of_different_sizes() {
    let mut file_queue = vec![file("fileone.bin", 282624), file("filetwo.bin", 1720320)];
    let mut dupstore: DashMap<u64, Vec<FileInfo>> = DashMap::new();

    let finished = Processor::sizewise(true, &mut dupstore, &mut file_queue);

    assert!(finished);
    assert!(file_queue.is_empty());
    assert_eq!(dupstore.len(), 2);
}

#[test]
fn sizewise_sorting_two_files_of_same_size() {
    let mut file_queue = vec![file("fileone.bin", 282624), file("filetwo.bin", 282624)];
    let mut dupstore: DashMap<u64, Vec<FileInfo>> = DashMap::new();

    Processor::sizewise(true, &mut dupstore, &mut file_queue);

    assert_eq!(dupstore.len(), 1);
    assert_eq!(dupstore.get(&282624).unwrap().len(), 2);
}

#[test]
fn sizewise_files_a_path_once() {
    let mut file_queue = vec![file("a", 10), file("b", 10), file("a", 10), file("a", 11)];
    let mut dupstore: DashMap<u64, Vec<FileInfo>> = DashMap::new();

    Processor::sizewise(true, &mut dupstore, &mut file_queue);

    assert_eq!(dupstore.len(), 2);
    let tens = dupstore.get(&10).unwrap().clone();
    assert_eq!(tens.len(), 2);
    assert_eq!(tens[0].path, "a");
    assert_eq!(tens[1].path, "b");
    assert_eq!(dupstore.get(&11).unwrap().len(), 1);
}

#[test]
fn sizewise_takes_files_from_the_back_of_the_queue() {
    let mut file_queue = vec![file("first", 4), file("second", 4), file("third", 4)];
    let mut dupstore: DashMap<u64, Vec<FileInfo>> = DashMap::new();

    Processor::sizewise(false, &mut dupstore, &mut file_queue);

    let group = dupstore.get(&4).unwrap().clone();
    let paths: Vec<&str> = group.iter().map(|f| f.path.as_str()).collect();
    assert_eq!(paths, vec!["third", "second", "first"]);
}

#[test]
fn sizewise_is_finished_only_after_discovery() {
    let mut dupstore: DashMap<u64, Vec<FileInfo>> = DashMap::new();
    let mut file_queue = vec![file("a", 1)];
    assert!(!Processor::sizewise(false, &mut dupstore, &mut file_queue));
    assert!(file_queue.is_empty());
    assert_eq!(dupstore.len(), 1);

    let mut file_queue = vec![file("b", 1)];
    assert!(Processor::sizewise(true, &mut dupstore, &mut file_queue));
    assert_eq!(dupstore.get(&1).unwrap().len(), 2);
}

#[test]
fn sizewise_keeps_members_to_their_size() {
    let mut file_queue = vec![file("a", 1), file("b", 2), file("c", 1), file("d", 3), file("e", 2)];
    let mut dupstore: DashMap<u64, Vec<FileInfo>> = DashMap::new();

    Processor::sizewise(true, &mut dupstore, &mut file_queue);

    assert_eq!(dupstore.len(), 3);
    for entry in dupstore.iter() {
        assert!(entry.value().iter().all(|f| f.size == *entry.key()));
    }
}

#[test]
fn sizewise_on_an_empty_queue_changes_nothing() {
    let mut dupstore: DashMap<u64, Vec<FileInfo>> = DashMap::new();
    let mut file_queue: Vec<FileInfo> = vec![];
    assert!(Processor::sizewise(true, &mut dupstore, &mut file_queue));
    assert_eq!(dupstore.len(), 0);
}
