use fortnite_downloader::downloader::{downloaded_file_ok, existing_file_ok, part_url, DownloadManager, DownloadProgress};
use fortnite_downloader::model::{ChunkInfo, ChunkPart, FileEntry, Guid, ShaHash};

const ABC_SHA1: [u8; 20] = [
    0xa9, 0x99, 0x3e, 0x36, 0x47, 0x06, 0x81, 0x6a, 0xba, 0x3e, 0x25, 0x71, 0x78, 0x50, 0xc2, 0x6c, 0x9c, 0xd0, 0xd8, 0x9d,
];

fn file(name: &str, size: u32) -> FileEntry {
    FileEntry {
        filename: name.to_string(),
        file_size: size,
        sha_hash: ShaHash::new(ABC_SHA1),
        install_tags: vec![],
        chunk_parts: vec![],
    }
}

#[test]
fn manager_counts_and_queues_the_files() {
    let m = DownloadManager::new(3, 15, vec![file("a", 10), file("b", 20)], vec![], false);
    assert_eq!(m.progress.total_files_number, 2);
    assert_eq!(m.progress.total_bytes, 30);
    assert_eq!(m.progress.downloaded_files_number, 0);
    assert!(!m.progress.finished && !m.progress.downloading && !m.downloading);
    let order: Vec<String> = m.file_list.iter().map(|f| f.filename.clone()).collect();
    assert_eq!(order, vec!["a", "b"]);
    assert_eq!((m.max_threads, m.max_chunk_concurrency), (3, 15));
}

#[test]
fn progress_bookkeeping() {
    let mut p = DownloadProgress::for_files(&vec![file("a", 3), file("b", 4)]);
    p.begin();
    assert!(p.downloading);
    p.count_part("b".to_string(), 2, 1, 2);
    assert_eq!(p.downloading_files.get(&"b".to_string()), Some((1, 2)));
    p.count_part("b".to_string(), 2, 2, 2);
    assert_eq!(p.downloading_files.get(&"b".to_string()), Some((2, 2)));
    assert_eq!(p.downloaded_bytes, 4);
    p.end_file(&"b".to_string());
    assert_eq!(p.downloading_files.get(&"b".to_string()), None);
    assert!(!p.try_finish());
    p.count_downloaded_file();
    p.count_present_file(3);
    assert_eq!(p.downloaded_bytes, 7);
    assert!(p.try_finish());
    assert!(p.finished && !p.downloading);
}

#[test]
fn failures_count_toward_finishing() {
    let mut p = DownloadProgress::for_files(&vec![file("a", 3), file("b", 4)]);
    p.count_failures(1);
    assert!(!p.try_finish());
    p.count_downloaded_file();
    assert!(p.try_finish());
}

#[test]
fn existing_file_checks_size_then_digest() {
    let f = file("a", 3);
    assert!(existing_file_ok(&f, &b"abc".to_vec(), false));
    assert!(!existing_file_ok(&f, &b"abd".to_vec(), false));
    assert!(!existing_file_ok(&f, &b"abcd".to_vec(), false));
    assert!(existing_file_ok(&f, &b"abcd".to_vec(), true));
    assert!(downloaded_file_ok(&f, &b"abc".to_vec(), false));
    assert!(!downloaded_file_ok(&f, &b"xyz".to_vec(), false));
    assert!(downloaded_file_ok(&f, &b"xyz".to_vec(), true));
}

#[test]
fn part_url_uses_the_chunk_of_the_part() {
    let g = Guid { a: 0xA, b: 0xB, c: 0xC, d: 0xD };
    let chunks = vec![ChunkInfo {
        guid: g,
        hash: 0xFF,
        sha_hash: ShaHash::new([0u8; 20]),
        group_num: 12,
        uncompressed_size: 0,
        compressed_size: 0,
    }];
    let part = ChunkPart { guid: g, offset: 0, size: 1, file_offset: 0 };
    assert_eq!(
        part_url(&chunks, &part, &"base".to_string()),
        Some("base/12/00000000000000FF_       A       B       C       D.chunk".to_string())
    );
    let other = ChunkPart { guid: Guid { a: 1, b: 1, c: 1, d: 1 }, offset: 0, size: 1, file_offset: 0 };
    assert_eq!(part_url(&chunks, &other, &"base".to_string()), None);
}
