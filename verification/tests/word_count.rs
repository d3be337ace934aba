use mapreduce::word_count::{split_whitespace, sum_counts, word_count_pairs};
use mapreduce::{
    normalize_word, InputRecord, MapReduceError, Mapper, Reducer, VecEmitter, WordCountMapper,
    WordCountReducer,
};

#[test]
fn normalizes_words() {
    assert_eq!(normalize_word("Rust!"), "rust");
    assert_eq!(normalize_word("(MapReduce)"), "mapreduce");
    assert_eq!(normalize_word("hello"), "hello");
}

#[test]
fn normalization_keeps_inner_punctuation_and_drops_bare_punctuation() {
    assert_eq!(normalize_word("don't"), "don't");
    assert_eq!(normalize_word("--"), "");
    assert_eq!(normalize_word(""), "");
    assert_eq!(normalize_word("«Über»"), "über");
}

#[test]
fn splits_on_any_white_space() {
    assert_eq!(
        split_whitespace("  hello\trust \n map\u{3000}reduce  "),
        vec!["hello", "rust", "map", "reduce"]
    );
    assert!(split_whitespace(" \t ").is_empty());
    assert_eq!(split_whitespace("one"), vec!["one"]);
}

#[test]
fn word_count_pairs_skip_empty_words() {
    assert_eq!(
        word_count_pairs("Hello, -- WORLD!"),
        vec![("hello".to_string(), "1".to_string()), ("world".to_string(), "1".to_string())]
    );
}

#[test]
fn word_count_mapper_emits_each_word() {
    let mut emitter = VecEmitter::new();
    WordCountMapper.map(InputRecord::new(0, "a b a"), &mut emitter).unwrap();
    assert_eq!(emitter.into_outputs().len(), 3);
}

#[test]
fn word_count_reducer_sums_counts() {
    let mut emitter = VecEmitter::new();
    WordCountReducer
        .reduce("w".to_string(), vec!["1".to_string(), "2".to_string(), "+4".to_string()], &mut emitter)
        .unwrap();
    assert_eq!(emitter.into_outputs(), vec![("w".to_string(), "7".to_string())]);
}

#[test]
fn word_count_reducer_rejects_non_numeric_values() {
    let mut emitter = VecEmitter::new();
    let result = WordCountReducer.reduce("w".to_string(), vec!["1".to_string(), "x".to_string()], &mut emitter);
    match result {
        Err(MapReduceError::Reduce(m)) => {
            assert_eq!(m, "word-count reducer expected numeric value for key w")
        }
        _ => panic!("expected a reduce error"),
    }
    assert!(emitter.into_outputs().is_empty());
}

#[test]
fn counts_that_overflow_are_rejected() {
    let max = u64::MAX.to_string();
    assert_eq!(sum_counts("k", &vec![max.clone()]).unwrap(), u64::MAX);
    match sum_counts("k", &vec![max, "1".to_string()]) {
        Err(MapReduceError::Reduce(m)) => assert_eq!(m, "word-count reducer count overflowed for key k"),
        _ => panic!("expected an overflow error"),
    }
    assert_eq!(sum_counts("k", &vec![]).unwrap(), 0);
}
