use bpe_tokenizer::{
    InvalidTokenizer, LoadError, MergeFile, PairMap, TokenTable, Tokenizer, TokenizerFile,
    FILE_VERSION,
};

fn trained() -> Tokenizer {
    Tokenizer::train(&["banana banana", "bandana"], 270)
}

#[test]
fn saves_and_loads_trained_tokenizer() {
    let tokenizer = trained();

    let file = tokenizer.to_file().unwrap();
    let loaded = Tokenizer::from_file(file.clone()).unwrap();

    assert_eq!(loaded.vocab, tokenizer.vocab);
    assert_eq!(loaded.token_to_id.len(), tokenizer.token_to_id.len());
    for (id, token) in tokenizer.vocab.iter().enumerate() {
        assert_eq!(loaded.token_to_id.get(token), Some(id as u32));
    }
    assert_eq!(loaded.merges.len(), tokenizer.merges.len());
    assert_eq!(loaded.ranks.len(), tokenizer.ranks.len());
    for merge in &file.merges {
        assert_eq!(
            loaded.merges.get(merge.left, merge.right),
            tokenizer.merges.get(merge.left, merge.right)
        );
        assert_eq!(
            loaded.ranks.get(merge.left, merge.right),
            tokenizer.ranks.get(merge.left, merge.right)
        );
    }
    assert_eq!(loaded.to_file().unwrap(), file);
    assert_eq!(
        loaded.encode("banana bandana"),
        tokenizer.encode("banana bandana")
    );
}

#[test]
fn load_rejects_unsupported_file_version() {
    let tokenizer = Tokenizer::new();
    let mut file = tokenizer.to_file().unwrap();
    file.version = FILE_VERSION + 1;

    let result = Tokenizer::from_file(file);

    assert!(matches!(result, Err(LoadError::UnsupportedVersion)));
}

#[test]
fn load_rejects_invalid_merge_reference() {
    let tokenizer = Tokenizer::train(&["aaaa"], 257);
    let mut file = tokenizer.to_file().unwrap();
    file.merges[0].left = u32::MAX;

    let result = Tokenizer::from_file(file);

    assert!(matches!(
        result,
        Err(LoadError::Invalid(InvalidTokenizer::InvalidLeftId))
    ));
}

#[test]
fn saved_merges_are_in_rank_order() {
    let tokenizer = trained();

    let file = tokenizer.to_file().unwrap();

    assert_eq!(file.version, FILE_VERSION);
    assert_eq!(file.vocab, tokenizer.vocab);
    assert_eq!(file.merges.len(), tokenizer.merges.len());
    assert_eq!(tokenizer.vocab_size(), 256 + file.merges.len());
    for (rank, merge) in file.merges.iter().enumerate() {
        assert_eq!(merge.rank, rank);
        assert_eq!(
            tokenizer.ranks.get(merge.left, merge.right),
            Some(&rank)
        );
        assert_eq!(
            tokenizer.merges.get(merge.left, merge.right),
            Some(&merge.merged_id)
        );
    }
}

#[test]
fn saving_rejects_an_inconsistent_tokenizer() {
    let tokenizer = Tokenizer::from_parts(
        vec![vec![0]],
        TokenTable::new(),
        PairMap::new(),
        PairMap::new(),
    );

    assert_eq!(tokenizer.to_file(), Err(InvalidTokenizer::TooFewByteTokens));
}

#[test]
fn load_rejects_duplicate_tokens() {
    let mut file = Tokenizer::new().to_file().unwrap();
    file.vocab.push(vec![b'a']);

    assert_eq!(Tokenizer::from_file(file).err(), Some(LoadError::DuplicateToken));
}

#[test]
fn load_rejects_duplicate_merges() {
    let mut file = Tokenizer::train(&["aaaa"], 257).to_file().unwrap();
    let first = file.merges[0];
    file.merges.push(MergeFile { rank: 1, ..first });

    assert_eq!(Tokenizer::from_file(file).err(), Some(LoadError::DuplicateMerge));
}

fn load_with_first_merge(change: impl Fn(&mut MergeFile)) -> Option<LoadError> {
    let mut file = Tokenizer::train(&["aaaa"], 257).to_file().unwrap();
    change(&mut file.merges[0]);
    Tokenizer::from_file(file).err()
}

#[test]
fn load_rejects_a_rank_out_of_range() {
    assert_eq!(
        load_with_first_merge(|m| m.rank = 1),
        Some(LoadError::Invalid(InvalidTokenizer::InvalidRanks))
    );
}

#[test]
fn load_rejects_an_invalid_right_id() {
    assert_eq!(
        load_with_first_merge(|m| m.right = 257),
        Some(LoadError::Invalid(InvalidTokenizer::InvalidRightId))
    );
}

#[test]
fn load_rejects_an_invalid_merged_id() {
    assert_eq!(
        load_with_first_merge(|m| m.merged_id = 300),
        Some(LoadError::Invalid(InvalidTokenizer::InvalidMergedId))
    );
}

#[test]
fn load_rejects_incorrect_merged_bytes() {
    assert_eq!(
        load_with_first_merge(|m| m.merged_id = 97),
        Some(LoadError::Invalid(InvalidTokenizer::IncorrectMergedBytes))
    );
}

#[test]
fn load_rejects_wrong_byte_tokens() {
    let mut file = Tokenizer::new().to_file().unwrap();
    file.vocab[7] = vec![8, 8];

    assert_eq!(
        Tokenizer::from_file(file).err(),
        Some(LoadError::Invalid(InvalidTokenizer::InvalidByteTokens))
    );
}

#[test]
fn load_accepts_an_untrained_tokenizer() {
    let file = TokenizerFile {
        version: FILE_VERSION,
        vocab: (0..=255u8).map(|b| vec![b]).collect(),
        merges: Vec::new(),
    };

    let loaded = Tokenizer::from_file(file).unwrap();

    assert_eq!(loaded.vocab_size(), 256);
    assert!(loaded.merges.is_empty());
    assert_eq!(loaded.encode("hi"), vec![104, 105]);
}
