use bpe_tokenizer::{InvalidTokenizer, PairMap, TokenTable, Tokenizer};

fn byte_parts() -> (Vec<Vec<u8>>, TokenTable) {
    let vocab: Vec<Vec<u8>> = (0..=255u8).map(|b| vec![b]).collect();
    let mut table = TokenTable::new();
    for (id, token) in vocab.iter().enumerate() {
        table.insert(token.clone(), id as u32);
    }
    (vocab, table)
}

#[test]
fn new_and_trained_tokenizers_are_valid() {
    assert_eq!(Tokenizer::new().validate(), Ok(()));
    assert_eq!(Tokenizer::default().validate(), Ok(()));
    let trained = Tokenizer::train(&["the cat sat on the mat", "the hat"], 280);
    assert_eq!(trained.validate(), Ok(()));
}

#[test]
fn validate_rejects_too_few_byte_tokens() {
    let t = Tokenizer::from_parts(vec![vec![0]], TokenTable::new(), PairMap::new(), PairMap::new());
    assert_eq!(t.validate(), Err(InvalidTokenizer::TooFewByteTokens));
}

#[test]
fn validate_rejects_a_lookup_of_another_size() {
    let (vocab, _) = byte_parts();
    let t = Tokenizer::from_parts(vocab, TokenTable::new(), PairMap::new(), PairMap::new());
    assert_eq!(t.validate(), Err(InvalidTokenizer::LookupSizeMismatch));
}

#[test]
fn validate_rejects_a_wrong_lookup() {
    let (vocab, mut table) = byte_parts();
    table.insert(vec![3], 4);
    let t = Tokenizer::from_parts(vocab, table, PairMap::new(), PairMap::new());
    assert_eq!(t.validate(), Err(InvalidTokenizer::InvalidLookup));
}

#[test]
fn validate_rejects_merge_and_rank_maps_of_different_sizes() {
    let (vocab, table) = byte_parts();
    let mut merges = PairMap::new();
    merges.insert(97, 98, 256);
    let t = Tokenizer::from_parts(vocab, table, merges, PairMap::new());
    assert_eq!(t.validate(), Err(InvalidTokenizer::MergeRankSizeMismatch));
}

#[test]
fn validate_rejects_a_merge_without_rank() {
    let (vocab, table) = byte_parts();
    let mut merges = PairMap::new();
    merges.insert(97, 98, 256);
    let mut ranks = PairMap::new();
    ranks.insert(98, 97, 0);
    let t = Tokenizer::from_parts(vocab, table, merges, ranks);
    assert_eq!(t.validate(), Err(InvalidTokenizer::MissingRank));
}

#[test]
fn inserting_an_existing_concatenation_changes_nothing() {
    let mut t = Tokenizer::new();
    assert_eq!(t.insert_merged_token(97, 98), 256);
    assert_eq!(t.insert_merged_token(97, 98), 256);
    assert_eq!(t.vocab_size(), 257);
    assert_eq!(t.merges.len(), 1);
    assert_eq!(t.ranks.len(), 1);
    assert_eq!(t.validate(), Ok(()));
}

#[test]
fn a_concatenation_reached_twice_keeps_its_first_merge() {
    let mut t = Tokenizer::new();
    let ab = t.insert_merged_token(97, 98);
    let abc = t.insert_merged_token(ab, 99);
    let bc = t.insert_merged_token(98, 99);
    assert_eq!((ab, abc, bc), (256, 257, 258));
    assert_eq!(t.insert_merged_token(97, bc), abc);
    assert!(!t.merges.contains_key(97, bc));
    assert_eq!(t.ranks.get(98, 99), Some(&2));
    assert_eq!(t.validate(), Ok(()));
}
