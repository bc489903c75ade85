use bpe_merge::byte_pair_encode;
use rustc_hash::FxHashMap;

fn make_encoder() -> FxHashMap<Vec<u8>, u32> {
    let mut encoder = FxHashMap::default();
    encoder.insert(b"a".to_vec(), 0);
    encoder.insert(b"b".to_vec(), 1);
    encoder.insert(b"c".to_vec(), 2);
    encoder.insert(b"ab".to_vec(), 3);
    encoder.insert(b"bc".to_vec(), 4);
    encoder.insert(b"abc".to_vec(), 5);
    encoder
}

fn table(entries: &[(&[u8], u32)]) -> FxHashMap<Vec<u8>, u32> {
    let mut encoder = FxHashMap::default();
    for (key, id) in entries {
        encoder.insert(key.to_vec(), *id);
    }
    encoder
}

#[test]
fn test_single_byte() {
    let encoder = make_encoder();
    assert_eq!(byte_pair_encode(b"a", &encoder), vec![0]);
}

#[test]
fn test_simple_merge() {
    let encoder = make_encoder();
    assert_eq!(byte_pair_encode(b"ab", &encoder), vec![3]);
}

#[test]
fn test_chain_merge() {
    let encoder = make_encoder();
    assert_eq!(byte_pair_encode(b"abc", &encoder), vec![5]);
}

#[test]
fn test_empty() {
    let encoder = make_encoder();
    let empty: Vec<u32> = vec![];
    assert_eq!(byte_pair_encode(b"", &encoder), empty);
}

#[test]
fn test_no_merge_possible() {
    let encoder = make_encoder();
    assert_eq!(byte_pair_encode(b"ac", &encoder), vec![0, 2]);
}

#[test]
fn empty_piece_with_empty_table() {
    let encoder = table(&[]);
    assert_eq!(byte_pair_encode(b"", &encoder), Vec::<u32>::new());
}

#[test]
fn empty_piece_even_when_empty_key_exists() {
    let encoder = table(&[(b"", 9), (b"a", 0)]);
    assert_eq!(byte_pair_encode(b"", &encoder), Vec::<u32>::new());
}

#[test]
fn single_byte_without_entry_is_dropped() {
    let encoder = make_encoder();
    assert_eq!(byte_pair_encode(b"z", &encoder), Vec::<u32>::new());
}

#[test]
fn whole_piece_wins_over_merging() {
    // Merging alone would give [a, bc]; the whole piece is a key.
    let encoder = table(&[(b"a", 10), (b"b", 11), (b"c", 12), (b"ab", 3), (b"bc", 1), (b"abc", 5)]);
    assert_eq!(byte_pair_encode(b"abc", &encoder), vec![5]);
}

#[test]
fn lower_rank_merges_first() {
    let encoder = table(&[(b"a", 10), (b"b", 11), (b"c", 12), (b"ab", 3), (b"bc", 1)]);
    assert_eq!(byte_pair_encode(b"abc", &encoder), vec![10, 1]);
}

#[test]
fn lower_rank_on_the_left_merges_first() {
    let encoder = table(&[(b"a", 10), (b"b", 11), (b"c", 12), (b"ab", 1), (b"bc", 3)]);
    assert_eq!(byte_pair_encode(b"abc", &encoder), vec![1, 12]);
}

#[test]
fn equal_ranks_leftmost_merges_first() {
    let encoder = table(&[(b"a", 10), (b"b", 11), (b"c", 12), (b"ab", 3), (b"bc", 3)]);
    assert_eq!(byte_pair_encode(b"abc", &encoder), vec![3, 12]);
}

#[test]
fn repeated_pair_merges_from_the_left() {
    let encoder = table(&[(b"a", 0), (b"aa", 1)]);
    assert_eq!(byte_pair_encode(b"aaa", &encoder), vec![1, 0]);
    assert_eq!(byte_pair_encode(b"aaaa", &encoder), vec![1, 1]);
    assert_eq!(byte_pair_encode(b"aaaaa", &encoder), vec![1, 1, 0]);
}

#[test]
fn merges_chain_into_longer_spans() {
    let encoder = table(&[(b"a", 0), (b"b", 1), (b"ab", 2), (b"abab", 4)]);
    assert_eq!(byte_pair_encode(b"ababab", &encoder), vec![4, 2]);
}

#[test]
fn bytes_without_entry_are_dropped_in_merge_path() {
    let encoder = table(&[(b"a", 0), (b"c", 2)]);
    assert_eq!(byte_pair_encode(b"abc", &encoder), vec![0, 2]);
    assert_eq!(byte_pair_encode(b"xyz", &encoder), Vec::<u32>::new());
}

#[test]
fn sentinel_rank_never_merges() {
    let encoder = table(&[(b"a", 0), (b"b", 1), (b"c", 2), (b"ab", u32::MAX)]);
    assert_eq!(byte_pair_encode(b"abc", &encoder), vec![0, 1, 2]);
    assert_eq!(byte_pair_encode(b"ab", &encoder), vec![u32::MAX]);
}

#[test]
fn coverage_of_a_longer_piece() {
    // Every final span is a key, so the ids spell the piece back.
    let encoder = table(&[
        (b"h", 0),
        (b"e", 1),
        (b"l", 2),
        (b"o", 3),
        (b"ll", 4),
        (b"he", 5),
        (b"llo", 6),
    ]);
    let ids = byte_pair_encode(b"hello", &encoder);
    assert_eq!(ids, vec![5, 6]);
    let mut back: Vec<u8> = Vec::new();
    for id in &ids {
        let key = encoder.iter().find(|(_, v)| *v == id).map(|(k, _)| k.clone()).unwrap();
        back.extend_from_slice(&key);
    }
    assert_eq!(back, b"hello".to_vec());
}

#[test]
fn all_single_bytes_table() {
    let mut encoder = FxHashMap::default();
    for b in 0u8..=255 {
        encoder.insert(vec![b], b as u32);
    }
    let piece: Vec<u8> = (0u8..=255).collect();
    let expected: Vec<u32> = (0u32..=255).collect();
    assert_eq!(byte_pair_encode(&piece, &encoder), expected);
}
