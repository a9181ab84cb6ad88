use fortnite_downloader::downloader::DownloadProgress;
use fortnite_downloader::model::{ChunkPart, FileEntry, Guid, ShaHash};
use fortnite_downloader::worker::{part_step, worker_step, CounterOverflow, PartOutsideChunk, ProgressUpdate, WorkerAction, WorkerEvent, WorkerState};

const ABC_SHA1: [u8; 20] = [
    0xa9, 0x99, 0x3e, 0x36, 0x47, 0x06, 0x81, 0x6a, 0xba, 0x3e, 0x25, 0x71, 0x78, 0x50, 0xc2, 0x6c, 0x9c, 0xd0, 0xd8, 0x9d,
];

fn file(name: &str, size: u32) -> FileEntry {
    FileEntry {
        filename: name.to_string(),
        file_size: size,
        sha_hash: ShaHash::new(ABC_SHA1),
        install_tags: vec![],
        chunk_parts: vec![],
    }
}

fn progress_for(files: &Vec<FileEntry>) -> DownloadProgress {
    DownloadProgress::for_files(files)
}

#[test]
fn empty_queue_finishes_only_when_all_is_accounted() {
    let mut p = progress_for(&vec![file("a", 3)]);
    let (s, a, us) = worker_step(WorkerState::Idle, WorkerEvent::QueueEmpty, false);
    assert!(matches!(s, WorkerState::Idle) && matches!(a, WorkerAction::TryFinish));
    p.apply_all(&us).unwrap();
    assert!(!p.finished);
    p.apply(&ProgressUpdate::Downloaded).unwrap();
    p.apply_all(&us).unwrap();
    assert!(p.finished && !p.downloading);
}

#[test]
fn intact_file_on_disk_is_credited() {
    let mut p = progress_for(&vec![file("a", 3)]);
    let (s, a, us) = worker_step(WorkerState::Idle, WorkerEvent::NextFile(file("a", 3), Some(b"abc".to_vec())), false);
    assert!(matches!(s, WorkerState::Idle) && matches!(a, WorkerAction::KeepExisting));
    p.apply_all(&us).unwrap();
    assert_eq!((p.downloaded_files_number, p.downloaded_bytes), (1, 3));
}

#[test]
fn corrupted_or_missing_file_is_downloaded() {
    let (s, a, us) = worker_step(WorkerState::Idle, WorkerEvent::NextFile(file("a", 3), Some(b"abd".to_vec())), false);
    assert!(matches!(s, WorkerState::Fetching(_)));
    assert!(matches!(a, WorkerAction::Download { delete_corrupted: true }));
    assert!(us.is_empty());
    let (_, a, _) = worker_step(WorkerState::Idle, WorkerEvent::NextFile(file("a", 3), None), false);
    assert!(matches!(a, WorkerAction::Download { delete_corrupted: false }));
}

#[test]
fn a_whole_file_run() {
    let f = file("a", 3);
    let mut p = progress_for(&vec![file("a", 3)]);
    let part = ChunkPart { guid: Guid { a: 0, b: 0, c: 0, d: 0 }, offset: 1, size: 2, file_offset: 1 };
    let (data, update) = part_step(&"a".to_string(), &part, &vec![9u8, b'b', b'c', 9], 1, 2).unwrap();
    assert_eq!(data, b"bc".to_vec());
    p.apply(&update).unwrap();
    assert_eq!(p.downloaded_bytes, 2);
    assert_eq!(p.downloading_files.get(&"a".to_string()), Some((1, 2)));
    let results = vec![Some((b"a".to_vec(), 0usize)), Some((data, 1))];
    let (s, a, us) = worker_step(WorkerState::Fetching(f), WorkerEvent::PartsDone(results), false);
    assert!(matches!(s, WorkerState::Writing(_)));
    match a {
        WorkerAction::Write { data, failed_parts } => {
            assert_eq!(data, b"abc".to_vec());
            assert_eq!(failed_parts, 0);
        }
        _ => panic!("the file should be written"),
    }
    p.apply_all(&us).unwrap();
    assert_eq!(p.downloading_files.get(&"a".to_string()), None);
    let (s, a, us) = worker_step(s, WorkerEvent::Written, false);
    assert!(matches!(s, WorkerState::Idle) && matches!(a, WorkerAction::Next));
    p.apply_all(&us).unwrap();
    assert_eq!((p.downloaded_files_number, p.failed_files_number), (1, 0));
}

#[test]
fn wrong_digest_discards_and_counts_failures() {
    let mut p = progress_for(&vec![file("a", 3)]);
    let results = vec![Some((b"xy".to_vec(), 0usize)), None];
    let (s, a, us) = worker_step(WorkerState::Fetching(file("a", 3)), WorkerEvent::PartsDone(results), false);
    assert!(matches!(s, WorkerState::Idle));
    assert!(matches!(a, WorkerAction::Discard { failed_parts: 1 }));
    p.apply_all(&us).unwrap();
    assert_eq!(p.failed_files_number, 2);
}

#[test]
fn part_past_the_end_stops_the_worker() {
    let results = vec![Some((b"xyz".to_vec(), 2usize))];
    let (s, a, us) = worker_step(WorkerState::Fetching(file("a", 3)), WorkerEvent::PartsDone(results), false);
    assert!(matches!(s, WorkerState::Stopped) && matches!(a, WorkerAction::PartOutOfRange));
    assert!(us.is_empty());
    let part = ChunkPart { guid: Guid { a: 0, b: 0, c: 0, d: 0 }, offset: 3, size: 2, file_offset: 0 };
    assert_eq!(part_step(&"a".to_string(), &part, &vec![0u8; 4], 1, 1).err(), Some(PartOutsideChunk));
}

#[test]
fn counter_overflow_is_refused() {
    let mut p = progress_for(&vec![]);
    p.downloaded_bytes = usize::MAX - 1;
    assert_eq!(p.apply(&ProgressUpdate::PresentFile(2)), Err(CounterOverflow));
    assert_eq!(p.downloaded_bytes, usize::MAX - 1);
    assert_eq!(p.apply_all(&vec![ProgressUpdate::Failures(1), ProgressUpdate::PresentFile(5)]), Err(CounterOverflow));
    assert_eq!(p.failed_files_number, 1);
}
