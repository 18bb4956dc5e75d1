use bpe_tokenizer::{DecodeError, PairMap, TokenTable, Tokenizer};

#[test]
fn encode_ascii_text() {
    let tokenizer = Tokenizer::new();

    let result = tokenizer.encode("ABC");

    assert_eq!(result, vec![65, 66, 67]);
}

#[test]
fn encode_empty_text() {
    let tokenizer = Tokenizer::new();

    let result = tokenizer.encode("");

    assert_eq!(result, Vec::<u32>::new());
}

#[test]
fn encode_utf8_text_as_bytes() {
    let tokenizer = Tokenizer::new();

    let result = tokenizer.encode("é");

    assert_eq!(result, vec![195, 169]);
}

#[test]
fn decode_ascii_tokens() {
    let tokenizer = Tokenizer::new();

    let result = tokenizer.decode(&[65, 66, 67]);

    assert_eq!(result.unwrap(), "ABC");
}

#[test]
fn decode_rejects_invalid_token_id() {
    let tokenizer = Tokenizer::new();

    let result = tokenizer.decode(&[u32::MAX]);

    assert!(matches!(result, Err(DecodeError::InvalidTokenId(u32::MAX))));
}

#[test]
fn decode_rejects_invalid_utf8() {
    let tokenizer = Tokenizer::from_parts(
        vec![vec![0xff, 0xfe, 0xc0, 0xaf]],
        TokenTable::new(),
        PairMap::new(),
        PairMap::new(),
    );

    let result = tokenizer.decode(&[0]);

    assert!(matches!(result, Err(DecodeError::InvalidUtf8(_))));
}

#[test]
fn encode_then_decode_returns_original_tex() {
    let tokenizer = Tokenizer::new();
    let original = "héllo";

    let ids = tokenizer.encode(original);
    let decoded = tokenizer.decode(&ids);

    assert_eq!(decoded.unwrap(), original);
}

#[test]
fn count_repeated_pairs() {
    let counts = Tokenizer::count_pair_frequencies(&[1, 2, 1, 2]);

    assert_eq!(counts.get(1, 2), Some(&2));
    assert_eq!(counts.get(2, 1), Some(&1));
}

#[test]
fn count_overlapping_pairs() {
    let counts = Tokenizer::count_pair_frequencies(&[7, 7, 7]);

    assert_eq!(counts.get(7, 7), Some(&2));
}

#[test]
fn count_pairs_for_short_sequences() {
    assert!(Tokenizer::count_pair_frequencies(&[]).is_empty());
    assert!(Tokenizer::count_pair_frequencies(&[1]).is_empty());
}

#[test]
fn finds_no_pair_in_empty_counts() {
    let counts = PairMap::new();

    let result = Tokenizer::find_most_frequent_pair(&counts);

    assert_eq!(result, None);
}

#[test]
fn finds_pair_with_highest_frequency() {
    let mut counts = PairMap::new();
    counts.insert(10, 20, 50);
    counts.insert(20, 30, 100);
    counts.insert(30, 40, 75);

    let result = Tokenizer::find_most_frequent_pair(&counts);

    assert_eq!(result, Some((20, 30)));
}

#[test]
fn finds_smallest_pair_when_frequencies_are_equal() {
    let mut counts = PairMap::new();
    counts.insert(u32::MAX, u32::MAX, usize::MAX);
    counts.insert(0, u32::MAX, usize::MAX);
    counts.insert(0, 0, usize::MAX);

    let result = Tokenizer::find_most_frequent_pair(&counts);

    assert_eq!(result, Some((0, 0)));
}

#[test]
fn replaces_pair_at_beginning() {
    let mut vec = vec![10, 20, 30];
    Tokenizer::replace_pair_in_seq(&mut vec, 10, 20, 100);

    assert_eq!(vec, vec![100, 30]);
}

#[test]
fn replaces_pair_in_middle() {
    let mut vec = vec![10, 20, 30, 40];
    Tokenizer::replace_pair_in_seq(&mut vec, 20, 30, 100);

    assert_eq!(vec, vec![10, 100, 40]);
}

#[test]
fn replaces_pair_at_end() {
    let mut vec = vec![10, 20, 30];
    Tokenizer::replace_pair_in_seq(&mut vec, 20, 30, 100);

    assert_eq!(vec, vec![10, 100]);
}

#[test]
fn keeps_sequence_when_pair_does_not_match() {
    let mut vec = vec![10, 20, 30];
    Tokenizer::replace_pair_in_seq(&mut vec, 40, 50, 100);

    assert_eq!(vec, vec![10, 20, 30]);
}

#[test]
fn replaces_overlapping_pair_from_left_to_right() {
    let mut vec = vec![10, 10, 10];
    Tokenizer::replace_pair_in_seq(&mut vec, 10, 10, 100);

    assert_eq!(vec, vec![100, 10]);
}

#[test]
fn replaces_multiple_sequential_pairs() {
    let mut vec = vec![10, 20, 10, 20];
    Tokenizer::replace_pair_in_seq(&mut vec, 10, 20, 100);
    assert_eq!(vec, vec![100, 100]);
}

#[test]
fn handles_sequence_of_length_one() {
    let mut vec = vec![10];
    Tokenizer::replace_pair_in_seq(&mut vec, 10, 20, 100);
    assert_eq!(vec, vec![10]);
}

#[test]
fn handles_empty_sequence() {
    let mut vec: Vec<u32> = vec![];
    Tokenizer::replace_pair_in_seq(&mut vec, 10, 20, 100);
    assert_eq!(vec, Vec::<u32>::new());
}

#[test]
fn inserts_new_merged_token() {
    let mut tokenizer = Tokenizer::new();

    let merged_id = tokenizer.insert_merged_token(97, 98);

    assert_eq!(merged_id, 256);
    assert_eq!(tokenizer.vocab[256], vec![b'a', b'b']);
    assert_eq!(tokenizer.token_to_id.get(&[b'a', b'b']), Some(256));
    assert_eq!(tokenizer.merges.get(97, 98), Some(&256));
    assert_eq!(tokenizer.ranks.get(97, 98), Some(&0));
}

#[test]
fn trains_first_merge() {
    let tokenizer = Tokenizer::train(&["aaaa"], 257);

    assert_eq!(tokenizer.vocab_size(), 257);
    assert_eq!(tokenizer.vocab[256], vec![b'a', b'a']);
    assert_eq!(tokenizer.token_to_id.get(&[b'a', b'a']), Some(256));
    assert_eq!(tokenizer.merges.get(97, 97), Some(&256));
    assert_eq!(tokenizer.ranks.get(97, 97), Some(&0));
}

#[test]
fn training_keeps_texts_separate() {
    let tokenizer = Tokenizer::train(&["ab", "cd"], 258);

    assert_eq!(tokenizer.vocab_size(), 258);
    assert!(tokenizer.merges.contains_key(97, 98));
    assert!(!tokenizer.merges.contains_key(98, 99));
}

#[test]
fn target_below_base_vocabulary_keeps_all_byte_tokens() {
    let tokenizer = Tokenizer::train(&["aaaa"], 100);

    assert_eq!(tokenizer.vocab_size(), 256);
}

#[test]
fn training_stops_when_no_pairs_remain() {
    let tokenizer = Tokenizer::train(&["a"], 300);

    assert_eq!(tokenizer.vocab_size(), 256);
    assert!(tokenizer.merges.is_empty());
}

#[test]
fn encodes_with_learned_merge() {
    let tokenizer = Tokenizer::train(&["aaaa"], 257);

    assert_eq!(tokenizer.encode("aaaa"), vec![256, 256]);
    assert_eq!(tokenizer.decode(&[256, 256]).unwrap(), "aaaa");
}

#[test]
fn encodes_with_learned_merge2() {
    let tokenizer = Tokenizer::train(&["aaaaaaaa"], 258);

    assert_eq!(tokenizer.encode("aaaaaaaa"), vec![257, 257]);
    assert_eq!(tokenizer.decode(&[257, 257]).unwrap(), "aaaaaaaa");
    assert_eq!(tokenizer.encode("aaaa"), vec![257]);
}

#[test]
fn trained_encode_then_decode_returns_original_text() {
    let tokenizer = Tokenizer::train(&["aaaaaaaa"], 258);
    let text = "aaaaaaaa";

    assert_eq!(tokenizer.decode(&tokenizer.encode(text)).unwrap(), text);
}
