use mesh_p2p_share::chunking::{
    chunk_count_for, chunk_meta, chunk_span, ChunkList, ChunkListError, CHUNK_SIZE, MAX_SHAREABLE_SIZE,
};
use mesh_p2p_share::ids::{id_less, sort_ids};
use mesh_p2p_share::p2p::new_shared_file_info;
use mesh_p2p_share::text::trim_text;

#[test]
fn chunk_count_of_small_and_boundary_sizes() {
    assert_eq!(chunk_count_for(0), 1);
    assert_eq!(chunk_count_for(1), 1);
    assert_eq!(chunk_count_for(CHUNK_SIZE - 1), 1);
    assert_eq!(chunk_count_for(CHUNK_SIZE), 1);
    assert_eq!(chunk_count_for(CHUNK_SIZE + 1), 2);
    assert_eq!(chunk_count_for(5 * CHUNK_SIZE), 5);
    assert_eq!(chunk_count_for(MAX_SHAREABLE_SIZE), u32::MAX);
}

#[test]
fn chunk_spans_cover_the_file() {
    let total = 2 * CHUNK_SIZE + 123;
    let n = chunk_count_for(total);
    assert_eq!(n, 3);
    let mut sum = 0u64;
    for i in 0..n {
        let (offset, size) = chunk_span(total, i);
        assert_eq!(offset, i as u64 * CHUNK_SIZE);
        if i + 1 < n {
            assert_eq!(size, CHUNK_SIZE);
        } else {
            assert_eq!(size, 123);
        }
        sum += size;
    }
    assert_eq!(sum, total);
    assert_eq!(chunk_span(total, 3), (3 * CHUNK_SIZE, 0));
    assert_eq!(chunk_span(0, 0), (0, 0));
}

#[test]
fn chunk_meta_records_crc32() {
    let m = chunk_meta(4, b"123456789");
    assert_eq!(m.index, 4);
    assert_eq!(m.size, 9);
    assert_eq!(m.crc32, 0xCBF4_3926);
    let e = chunk_meta(0, b"");
    assert_eq!(e.size, 0);
    assert_eq!(e.crc32, 0);
}

/// A list for a file of `total` bytes whose every chunk read came back empty.
fn empty_pieces(total: u64) -> ChunkList {
    let mut l = ChunkList::new(total);
    while l.next_chunk().is_some() {
        l.push(b"").unwrap();
    }
    l
}

#[test]
fn new_file_info_gets_random_v4_id() {
    let info =
        new_shared_file_info("a.bin".to_string(), "/tmp/a.bin".to_string(), empty_pieces(CHUNK_SIZE + 5)).unwrap();
    assert_eq!(info.file_id.len(), 36);
    let cs: Vec<char> = info.file_id.chars().collect();
    for (i, c) in cs.iter().enumerate() {
        if i == 8 || i == 13 || i == 18 || i == 23 {
            assert_eq!(*c, '-');
        } else {
            assert!(c.is_ascii_digit() || ('a'..='f').contains(c));
        }
    }
    assert_eq!(cs[14], '4');
    assert!(['8', '9', 'a', 'b'].contains(&cs[19]));
    assert_eq!(info.chunk_count, 2);
    assert_eq!(info.file_name, "a.bin");
    assert_eq!(info.file_path, "/tmp/a.bin");
    let other = new_shared_file_info("a.bin".to_string(), "/tmp/a.bin".to_string(), empty_pieces(1)).unwrap();
    assert_ne!(info.file_id, other.file_id);
}

#[test]
fn trimming_removes_unicode_white_space() {
    assert_eq!(trim_text(&"  abc \t\n".to_string()), "abc");
    assert_eq!(trim_text(&"\u{3000}x y\u{a0}".to_string()), "x y");
    assert_eq!(trim_text(&"   ".to_string()), "");
    assert_eq!(trim_text(&"".to_string()), "");
    assert_eq!(trim_text(&"ab".to_string()), "ab");
}

#[test]
fn identifiers_sort_by_code_point() {
    assert!(id_less(&"a".to_string(), &"b".to_string()));
    assert!(id_less(&"ab".to_string(), &"abc".to_string()));
    assert!(!id_less(&"abc".to_string(), &"ab".to_string()));
    assert!(!id_less(&"x".to_string(), &"x".to_string()));
    assert!(id_less(&"Z".to_string(), &"a".to_string()));
    let sorted = sort_ids(vec!["peer-b".to_string(), "peer-a".to_string(), "host".to_string(), "peer-c".to_string()]);
    assert_eq!(sorted, vec!["host", "peer-a", "peer-b", "peer-c"]);
}

#[test]
fn small_file_has_one_chunk_with_its_crc() {
    let mut l = ChunkList::new(3);
    assert_eq!(l.next_chunk(), Some((0, 0, 3)));
    l.push(b"abc").unwrap();
    assert_eq!(l.next_chunk(), None);
    let info = new_shared_file_info("abc.txt".to_string(), "/tmp/abc.txt".to_string(), l).unwrap();
    assert_eq!(info.total_size, 3);
    assert_eq!(info.chunk_count, 1);
    assert_eq!(info.chunks, vec![chunk_meta(0, b"abc")]);
    assert_eq!(info.chunks[0].crc32, 0x3524_41C2);
}

#[test]
fn empty_file_has_one_empty_chunk() {
    let mut l = ChunkList::new(0);
    assert_eq!(l.next_chunk(), Some((0, 0, 0)));
    l.push(b"").unwrap();
    let info = new_shared_file_info("empty".to_string(), "/tmp/empty".to_string(), l).unwrap();
    assert_eq!(info.chunk_count, 1);
    assert_eq!(info.chunks.len(), 1);
    assert_eq!((info.chunks[0].index, info.chunks[0].size, info.chunks[0].crc32), (0, 0, 0));
}

#[test]
fn chunk_list_follows_the_layout_at_the_boundary() {
    let mut l = ChunkList::new(CHUNK_SIZE + 1);
    assert_eq!(l.next_chunk(), Some((0, 0, CHUNK_SIZE)));
    let full = vec![0u8; CHUNK_SIZE as usize];
    l.push(&full).unwrap();
    assert_eq!(l.next_chunk(), Some((1, CHUNK_SIZE, 1)));
    assert_eq!(l.push(b"xy"), Err(ChunkListError::ChunkTooLarge));
    l.push(&[0u8]).unwrap();
    assert_eq!(l.push(b""), Err(ChunkListError::TooManyChunks));
    let info = new_shared_file_info("z".to_string(), "/tmp/z".to_string(), l).unwrap();
    assert_eq!(info.chunk_count, 2);
    let sizes: Vec<u64> = info.chunks.iter().map(|c| c.size).collect();
    let indices: Vec<u32> = info.chunks.iter().map(|c| c.index).collect();
    assert_eq!(sizes, vec![CHUNK_SIZE, 1]);
    assert_eq!(indices, vec![0, 1]);
    assert_eq!(info.chunks[0].crc32, chunk_meta(0, &full).crc32);

    let mut exact = ChunkList::new(CHUNK_SIZE);
    exact.push(&full).unwrap();
    assert_eq!(exact.next_chunk(), None);
    let one = new_shared_file_info("e".to_string(), "/tmp/e".to_string(), exact).unwrap();
    assert_eq!(one.chunk_count, 1);
    assert_eq!(one.chunks[0].size, CHUNK_SIZE);
}

#[test]
fn incomplete_chunk_list_is_refused() {
    let mut l = ChunkList::new(2 * CHUNK_SIZE);
    l.push(b"partial").unwrap();
    let r = new_shared_file_info("p".to_string(), "/tmp/p".to_string(), l);
    assert_eq!(r.err(), Some(ChunkListError::Incomplete));
}
