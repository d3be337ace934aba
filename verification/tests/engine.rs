use std::collections::BTreeMap;

use mapreduce::engine::{map_task, merge_task_results, reduce_task, sort_outputs};
use mapreduce::shuffle::group_into_partitions;
use mapreduce::{
    Emitter, InMemoryEngine, InputRecord, Job, MapReduceError, Mapper, Partitioner, Reducer,
    VecEmitter, WordCountMapper, WordCountReducer,
};

struct WordCountTestMapper;

impl Mapper for WordCountTestMapper {
    fn map(&self, record: InputRecord, emitter: &mut VecEmitter) -> Result<(), MapReduceError> {
        for word in record.value.split_whitespace() {
            emitter.emit(word.to_lowercase(), "1".to_string());
        }

        Ok(())
    }
}

struct WordCountTestReducer;

impl Reducer for WordCountTestReducer {
    fn reduce(
        &self,
        key: String,
        values: Vec<String>,
        emitter: &mut VecEmitter,
    ) -> Result<(), MapReduceError> {
        emitter.emit(key, values.len().to_string());
        Ok(())
    }
}

#[test]
fn runs_word_count_job() {
    let job = Job::builder()
        .name("word-count")
        .input_path("unused-input.txt")
        .output_path("unused-output")
        .mapper(WordCountTestMapper)
        .reducer(WordCountTestReducer)
        .num_map_workers(4)
        .num_reduce_workers(2)
        .num_reducers(2)
        .build()
        .unwrap();

    let records = vec![
        InputRecord::new(0, "hello rust"),
        InputRecord::new(1, "hello mapreduce"),
        InputRecord::new(2, "rust rust"),
    ];

    let engine = InMemoryEngine::new();
    let outputs = engine.run_records(&job, records).unwrap();

    let actual = outputs.into_iter().collect::<BTreeMap<_, _>>();

    let expected = BTreeMap::from([
        ("hello".to_string(), "2".to_string()),
        ("mapreduce".to_string(), "1".to_string()),
        ("rust".to_string(), "3".to_string()),
    ]);

    assert_eq!(actual, expected);
}

#[test]
fn handles_empty_input() {
    let job = Job::builder()
        .name("empty-word-count")
        .input_path("unused-input.txt")
        .output_path("unused-output")
        .mapper(WordCountTestMapper)
        .reducer(WordCountTestReducer)
        .num_map_workers(2)
        .num_reduce_workers(2)
        .num_reducers(2)
        .build()
        .unwrap();

    let engine = InMemoryEngine::new();
    let outputs = engine.run_records(&job, Vec::new()).unwrap();

    assert!(outputs.is_empty());
}

#[test]
fn word_count_job_outputs_sorted_counts() {
    let job = Job::builder()
        .name("word-count")
        .input_path("in")
        .output_path("out")
        .mapper(WordCountMapper)
        .reducer(WordCountReducer)
        .num_reducers(3)
        .build()
        .unwrap();
    let records = vec![
        InputRecord::new(0, "The cat; the DOG."),
        InputRecord::new(1, "  (cat)  -- dog!  "),
        InputRecord::new(2, ""),
    ];
    let outputs = InMemoryEngine::default().run_records(&job, records).unwrap();
    assert_eq!(
        outputs,
        vec![
            ("cat".to_string(), "2".to_string()),
            ("dog".to_string(), "2".to_string()),
            ("the".to_string(), "2".to_string()),
        ]
    );
}

#[test]
fn outputs_do_not_depend_on_reducer_or_worker_counts() {
    let records = vec![
        InputRecord::new(0, "a b c d e f g h"),
        InputRecord::new(1, "h g f e d c b a a"),
        InputRecord::new(2, "zeta eta theta zeta"),
    ];
    let mut results = Vec::new();
    for (reducers, map_workers, reduce_workers) in [(1, 1, 1), (2, 4, 2), (5, 3, 7), (13, 2, 1)] {
        let job = Job::builder()
            .name("word-count")
            .input_path("in")
            .output_path("out")
            .mapper(WordCountMapper)
            .reducer(WordCountReducer)
            .num_reducers(reducers)
            .num_map_workers(map_workers)
            .num_reduce_workers(reduce_workers)
            .build()
            .unwrap();
        results.push(InMemoryEngine::new().run_records(&job, records.clone()).unwrap());
    }
    for r in &results[1..] {
        assert_eq!(r, &results[0]);
    }
    assert_eq!(results[0][0], ("a".to_string(), "3".to_string()));
    assert_eq!(results[0].len(), 11);
}

struct FailingMapper;

impl Mapper for FailingMapper {
    fn map(&self, record: InputRecord, emitter: &mut VecEmitter) -> Result<(), MapReduceError> {
        if record.offset == 1 {
            return Err(MapReduceError::MapPhase(format!("bad record {}", record.offset)));
        }
        emitter.emit(record.value, "1".to_string());
        Ok(())
    }
}

#[test]
fn map_failure_fails_the_run() {
    let job = Job::builder()
        .name("failing")
        .input_path("in")
        .output_path("out")
        .mapper(FailingMapper)
        .reducer(WordCountTestReducer)
        .build()
        .unwrap();
    let records = vec![
        InputRecord::new(0, "a"),
        InputRecord::new(1, "b"),
        InputRecord::new(2, "c"),
    ];
    match InMemoryEngine::new().run_records(&job, records) {
        Err(MapReduceError::MapPhase(message)) => assert_eq!(message, "bad record 1"),
        other => panic!("unexpected outcome: {:?}", other.map(|v| v.len())),
    }
}

struct OutOfRangePartitioner;

impl Partitioner for OutOfRangePartitioner {
    fn partition(&self, _key: &String, reducers: usize) -> Result<usize, MapReduceError> {
        Ok(reducers)
    }
}

#[test]
fn invalid_partition_is_a_shuffle_error() {
    let job = Job::builder()
        .name("bad-partitions")
        .input_path("in")
        .output_path("out")
        .mapper(WordCountTestMapper)
        .reducer(WordCountTestReducer)
        .partitioner(OutOfRangePartitioner)
        .num_reducers(2)
        .build()
        .unwrap();
    match InMemoryEngine::new().run_records(&job, vec![InputRecord::new(0, "word")]) {
        Err(MapReduceError::Shuffle(message)) => {
            assert_eq!(message, "partitioner returned invalid partition 2")
        }
        other => panic!("unexpected outcome: {:?}", other.map(|v| v.len())),
    }
}

struct RejectingReducer;

impl Reducer for RejectingReducer {
    fn reduce(
        &self,
        key: String,
        _values: Vec<String>,
        emitter: &mut VecEmitter,
    ) -> Result<(), MapReduceError> {
        if key == "stop" {
            return Err(MapReduceError::Reduce("stopped".to_string()));
        }
        emitter.emit(key, "ok".to_string());
        Ok(())
    }
}

#[test]
fn reduce_failure_fails_the_run() {
    let job = Job::builder()
        .name("reject")
        .input_path("in")
        .output_path("out")
        .mapper(WordCountTestMapper)
        .reducer(RejectingReducer)
        .build()
        .unwrap();
    let result = InMemoryEngine::new().run_records(&job, vec![InputRecord::new(0, "go stop")]);
    assert!(matches!(result, Err(MapReduceError::Reduce(_))));
}

#[test]
fn merge_returns_first_error_or_all_outputs() {
    let ok = merge_task_results(vec![
        Ok(vec![("a".to_string(), "1".to_string())]),
        Ok(vec![]),
        Ok(vec![("b".to_string(), "2".to_string()), ("a".to_string(), "3".to_string())]),
    ])
    .unwrap();
    assert_eq!(
        ok,
        vec![
            ("a".to_string(), "1".to_string()),
            ("b".to_string(), "2".to_string()),
            ("a".to_string(), "3".to_string()),
        ]
    );
    let failed = merge_task_results(vec![
        Ok(vec![("a".to_string(), "1".to_string())]),
        Err(MapReduceError::MapPhase("first".to_string())),
        Err(MapReduceError::MapPhase("second".to_string())),
    ]);
    assert!(matches!(failed, Err(MapReduceError::MapPhase(m)) if m == "first"));
}

#[test]
fn grouping_orders_keys_and_keeps_value_order() {
    let pairs = vec![
        ("b".to_string(), "1".to_string()),
        ("a".to_string(), "2".to_string()),
        ("b".to_string(), "3".to_string()),
        ("c".to_string(), "4".to_string()),
        ("a".to_string(), "5".to_string()),
    ];
    let parts = group_into_partitions(pairs, vec![0, 1, 0, 0, 1], 3);
    assert_eq!(parts.len(), 3);
    assert_eq!(
        parts[0],
        vec![
            ("b".to_string(), vec!["1".to_string(), "3".to_string()]),
            ("c".to_string(), vec!["4".to_string()]),
        ]
    );
    assert_eq!(parts[1], vec![("a".to_string(), vec!["2".to_string(), "5".to_string()])]);
    assert!(parts[2].is_empty());
}

#[test]
fn grouping_keeps_every_value() {
    let pairs: Vec<(String, String)> = (0..20)
        .map(|i| (format!("k{}", i % 7), format!("v{}", i)))
        .collect();
    let assignments: Vec<usize> = (0..20).map(|i| (i * 5) % 3).collect();
    let parts = group_into_partitions(pairs, assignments, 3);
    let total: usize = parts
        .iter()
        .map(|part| part.iter().map(|(_, values)| values.len()).sum::<usize>())
        .sum();
    assert_eq!(total, 20);
}

#[test]
fn default_partitioning_puts_each_key_in_one_partition() {
    let pairs: Vec<(String, String)> = ["x", "y", "x", "z", "y", "x"]
        .iter()
        .enumerate()
        .map(|(i, k)| (k.to_string(), i.to_string()))
        .collect();
    let assignments: Vec<usize> = pairs
        .iter()
        .map(|(k, _)| mapreduce::DefaultPartitioner.partition(k, 4).unwrap())
        .collect();
    let parts = group_into_partitions(pairs, assignments, 4);
    let mut seen = Vec::new();
    for part in &parts {
        for (key, values) in part {
            assert!(!seen.contains(key));
            seen.push(key.clone());
            if key == "x" {
                assert_eq!(values, &vec!["0".to_string(), "2".to_string(), "5".to_string()]);
            }
        }
    }
    seen.sort();
    assert_eq!(seen, vec!["x", "y", "z"]);
}

#[test]
fn tasks_run_one_record_and_one_partition() {
    let mapped = map_task(&WordCountMapper, InputRecord::new(0, "b a b")).unwrap();
    assert_eq!(
        mapped,
        vec![
            ("b".to_string(), "1".to_string()),
            ("a".to_string(), "1".to_string()),
            ("b".to_string(), "1".to_string()),
        ]
    );
    let partition = vec![
        ("a".to_string(), vec!["1".to_string()]),
        ("b".to_string(), vec!["1".to_string(), "2".to_string()]),
    ];
    let reduced = reduce_task(&WordCountReducer, partition).unwrap();
    assert_eq!(
        reduced,
        vec![("a".to_string(), "1".to_string()), ("b".to_string(), "3".to_string())]
    );
    let failing = vec![
        ("a".to_string(), vec!["x".to_string()]),
        ("b".to_string(), vec!["1".to_string()]),
    ];
    assert!(matches!(reduce_task(&WordCountReducer, failing), Err(MapReduceError::Reduce(_))));
    assert!(reduce_task(&WordCountReducer, Vec::new()).unwrap().is_empty());
    let sorted = sort_outputs(vec![
        ("b".to_string(), "1".to_string()),
        ("a".to_string(), "2".to_string()),
        ("b".to_string(), "0".to_string()),
    ]);
    assert_eq!(
        sorted,
        vec![
            ("a".to_string(), "2".to_string()),
            ("b".to_string(), "1".to_string()),
            ("b".to_string(), "0".to_string()),
        ]
    );
}
