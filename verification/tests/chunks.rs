use fortnite_downloader::chunks::{chunk_url, find_chunk, part_data, part_fits};
use fortnite_downloader::model::{ChunkInfo, ChunkPart, Guid, ShaHash};

fn chunk(guid: Guid, hash: u64, group_num: u8) -> ChunkInfo {
    ChunkInfo {
        guid,
        hash,
        sha_hash: ShaHash::new([0u8; 20]),
        group_num,
        uncompressed_size: 0,
        compressed_size: 0,
    }
}

#[test]
fn chunk_url_pads_group_and_hash() {
    let c = chunk(Guid { a: 1, b: 2, c: 3, d: 0xABCDEF12 }, 0x1A2B, 5);
    let url = chunk_url(&"https://cdn/ChunksV4".to_string(), &c);
    assert_eq!(url, "https://cdn/ChunksV4/05/0000000000001A2B_       1       2       3ABCDEF12.chunk");
}

#[test]
fn chunk_url_with_full_words() {
    let c = chunk(Guid { a: 0x12345678, b: 0x9ABCDEF0, c: 0xFFFFFFFF, d: 0x10000000 }, u64::MAX, 99);
    let url = chunk_url(&"b".to_string(), &c);
    assert_eq!(url, "b/99/FFFFFFFFFFFFFFFF_123456789ABCDEF0FFFFFFFF10000000.chunk");
}

#[test]
fn chunk_url_with_three_digit_group() {
    let c = chunk(Guid { a: 0, b: 0, c: 0, d: 0 }, 0, 200);
    let url = chunk_url(&"".to_string(), &c);
    assert_eq!(url, "/200/0000000000000000_       0       0       0       0.chunk");
}

#[test]
fn find_chunk_returns_the_first_match() {
    let g = Guid { a: 7, b: 7, c: 7, d: 7 };
    let chunks = vec![
        chunk(Guid { a: 1, b: 0, c: 0, d: 0 }, 10, 0),
        chunk(g, 11, 0),
        chunk(g, 12, 0),
    ];
    assert_eq!(find_chunk(&chunks, g), Some(1));
    assert_eq!(find_chunk(&chunks, Guid { a: 9, b: 9, c: 9, d: 9 }), None);
}

#[test]
fn part_data_cuts_the_part_out_of_its_chunk() {
    let data: Vec<u8> = (0u8..10).collect();
    let part = ChunkPart { guid: Guid { a: 0, b: 0, c: 0, d: 0 }, offset: 3, size: 4, file_offset: 0 };
    assert!(part_fits(&data, &part));
    assert_eq!(part_data(&data, &part), vec![3, 4, 5, 6]);
}

#[test]
fn part_past_the_end_does_not_fit() {
    let data: Vec<u8> = vec![0; 10];
    let part = ChunkPart { guid: Guid { a: 0, b: 0, c: 0, d: 0 }, offset: 8, size: 3, file_offset: 0 };
    assert!(!part_fits(&data, &part));
    let huge = ChunkPart { guid: Guid { a: 0, b: 0, c: 0, d: 0 }, offset: u32::MAX, size: u32::MAX, file_offset: 0 };
    assert!(!part_fits(&data, &huge));
}
