use bpe_tokenizer::{DecodeError, PairMap, TokenTable, Tokenizer};

#[test]
fn decoding_an_encoding_gives_the_text_back() {
    let texts = ["héllo wörld, héllo again", "日本語のテキスト 日本", "aaaa bbbb aaaa"];
    let tokenizer = Tokenizer::train(&texts, 300);
    for text in texts.iter().chain(["", "z", "wörld 日本 aaaa"].iter()) {
        let ids = tokenizer.encode(text);
        assert!(ids.len() <= text.len());
        assert_eq!(tokenizer.decode(&ids).unwrap(), *text);
    }
}

#[test]
fn encoding_without_merges_gives_the_bytes() {
    let tokenizer = Tokenizer::new();
    let text = "Zß€😀";
    let expected: Vec<u32> = text.bytes().map(u32::from).collect();
    assert_eq!(tokenizer.encode(text), expected);
}

#[test]
fn encoding_merges_the_lowest_rank_first() {
    let mut t = Tokenizer::new();
    let bc = t.insert_merged_token(98, 99);
    let ab = t.insert_merged_token(97, 98);
    assert_eq!((bc, ab), (256, 257));
    assert_eq!(t.encode("abc"), vec![97, bc]);
    assert_eq!(t.encode("abab"), vec![ab, ab]);
}

#[test]
fn decoding_reports_the_first_unknown_id() {
    let tokenizer = Tokenizer::new();
    let result = tokenizer.decode(&[65, 300, 256, 66]);
    assert!(matches!(result, Err(DecodeError::InvalidTokenId(300))));
}

#[test]
fn decoding_an_empty_slice_gives_an_empty_string() {
    assert_eq!(Tokenizer::new().decode(&[]).unwrap(), "");
}

#[test]
fn decoding_a_split_character_fails() {
    let tokenizer = Tokenizer::new();
    assert!(matches!(tokenizer.decode(&[195]), Err(DecodeError::InvalidUtf8(_))));
}

#[test]
fn pair_counts_add_up_to_the_windows() {
    let seq = [5, 6, 5, 6, 6, 5];
    let counts = Tokenizer::count_pair_frequencies(&seq);
    assert_eq!(counts.len(), 3);
    assert_eq!(counts.get(5, 6), Some(&2));
    assert_eq!(counts.get(6, 5), Some(&2));
    assert_eq!(counts.get(6, 6), Some(&1));
    assert_eq!(counts.get(5, 5), None);
}

#[test]
fn zero_counts_still_give_a_pair() {
    let mut counts = PairMap::new();
    counts.insert(1, 2, 0);
    assert_eq!(Tokenizer::find_most_frequent_pair(&counts), Some((1, 2)));
    counts.insert(0, 9, 0);
    assert_eq!(Tokenizer::find_most_frequent_pair(&counts), Some((0, 9)));
    counts.insert(3, 4, 1);
    assert_eq!(Tokenizer::find_most_frequent_pair(&counts), Some((3, 4)));
}

#[test]
fn try_encode_reports_a_ranked_pair_without_merge() {
    let mut t = Tokenizer::new();
    t.ranks.insert(97, 98, 0);
    assert_eq!(t.try_encode("xyz"), Some(vec![120, 121, 122]));
    assert_eq!(t.try_encode("xab"), None);
    let merged = t.insert_merged_token(120, 121);
    assert_eq!(t.try_encode("xyz"), Some(vec![merged, 122]));
}

#[test]
fn ties_are_broken_by_the_left_id_first() {
    let mut counts = PairMap::new();
    counts.insert(2, 0, 9);
    counts.insert(1, 7, 9);
    counts.insert(1, 8, 9);
    assert_eq!(Tokenizer::find_most_frequent_pair(&counts), Some((1, 7)));
}

#[test]
fn training_merges_the_most_frequent_pair_first() {
    let tokenizer = Tokenizer::train(&["abab cdcdcd"], 257);
    assert_eq!(tokenizer.vocab[256], b"cd".to_vec());
    assert_eq!(tokenizer.ranks.get(99, 100), Some(&0));
}

#[test]
fn pair_map_insert_gives_back_the_replaced_value() {
    let mut map = PairMap::new();
    assert_eq!(map.insert(1, 2, 10u32), None);
    assert_eq!(map.insert(1, 2, 11u32), Some(10));
    assert_eq!(map.get(1, 2), Some(&11));
    assert_eq!(map.get(2, 1), None);
    let mut entries = map.entries();
    map.insert(u32::MAX, 0, 3);
    entries.push(((u32::MAX, 0), 3));
    let mut all = map.entries();
    all.sort();
    entries.sort();
    assert_eq!(all, entries);
}

#[test]
fn token_table_insert_gives_back_the_replaced_id() {
    let mut table = TokenTable::new();
    assert!(table.is_empty());
    assert_eq!(table.insert(b"ab".to_vec(), 1), None);
    assert_eq!(table.insert(b"ab".to_vec(), 2), Some(1));
    assert_eq!(table.get(b"ab"), Some(2));
    assert!(!table.contains_key(b"a"));
    assert_eq!(table.len(), 1);
    assert_eq!(table.clone().get(b"ab"), Some(2));
}

#[test]
fn training_never_goes_past_the_target() {
    let texts = ["abababab cdcdcd efef", "ghghgh abab"];
    for target in [0usize, 100, 256, 257, 259, 262] {
        let tokenizer = Tokenizer::train(&texts, target);
        assert!(tokenizer.vocab_size() >= 256);
        assert!(tokenizer.vocab_size() <= target.max(256));
        if target <= 256 {
            assert_eq!(tokenizer.vocab_size(), 256);
            assert!(tokenizer.merges.is_empty());
            assert!(tokenizer.ranks.is_empty());
        }
    }
    assert_eq!(Tokenizer::train(&texts, 259).vocab_size(), 259);
}

#[test]
fn token_table_lookups_find_every_key() {
    let mut table = TokenTable::new();
    for i in 0..2000u32 {
        let key = i.to_string().into_bytes();
        assert_eq!(table.insert(key, i), None);
    }
    assert_eq!(table.len(), 2000);
    for i in 0..2000u32 {
        assert_eq!(table.get(i.to_string().as_bytes()), Some(i));
    }
    assert_eq!(table.get(b"2000"), None);
    assert_eq!(table.insert(b"17".to_vec(), 5), Some(17));
    assert_eq!(table.get(b"17"), Some(5));
    assert_eq!(table.len(), 2000);
}
