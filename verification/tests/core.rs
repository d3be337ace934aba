use std::cmp::Ordering;
use std::hash::{Hash, Hasher};

use mapreduce::error::io_message;
use mapreduce::order::compare_keys;

use mapreduce::{
    DefaultPartitioner, Emitter, InputRecord, Job, MapReduceError, Mapper, Partitioner, Reducer,
    VecEmitter,
};

struct TestMapper;

impl Mapper for TestMapper {
    fn map(&self, _record: InputRecord, _emitter: &mut VecEmitter) -> Result<(), MapReduceError> {
        Ok(())
    }
}

struct TestReducer;

impl Reducer for TestReducer {
    fn reduce(
        &self,
        _key: String,
        _values: Vec<String>,
        _emitter: &mut VecEmitter,
    ) -> Result<(), MapReduceError> {
        Ok(())
    }
}

#[test]
fn vec_emitter_collects_outputs() {
    let mut emitter = VecEmitter::new();

    emitter.emit("hello".to_string(), "1".to_string());
    emitter.emit("rust".to_string(), "1".to_string());

    assert_eq!(
        emitter.into_outputs(),
        vec![
            ("hello".to_string(), "1".to_string()),
            ("rust".to_string(), "1".to_string()),
        ]
    );
}

#[test]
fn vec_emitter_outputs_shows_emitted_pairs() {
    let mut emitter = VecEmitter::new();
    assert!(emitter.outputs().is_empty());
    emitter.emit("a".to_string(), "x".to_string());
    assert_eq!(emitter.outputs(), &[("a".to_string(), "x".to_string())]);
}

#[test]
fn valid_job_can_be_built() {
    let job = Job::builder()
        .name("test-job")
        .input_path("input.txt")
        .output_path("output")
        .mapper(TestMapper)
        .reducer(TestReducer)
        .num_map_workers(2)
        .num_reduce_workers(2)
        .num_reducers(2)
        .build()
        .unwrap();

    assert_eq!(job.name(), "test-job");
    assert_eq!(job.num_map_workers(), 2);
    assert_eq!(job.num_reduce_workers(), 2);
    assert_eq!(job.num_reducers(), 2);
}

#[test]
fn job_requires_mapper() {
    let result = Job::builder()
        .name("test-job")
        .input_path("input.txt")
        .output_path("output")
        .reducer(TestReducer)
        .build();

    assert!(result.is_err());
}

#[test]
fn job_requires_reducer() {
    let result = Job::builder()
        .name("test-job")
        .input_path("input.txt")
        .output_path("output")
        .mapper(TestMapper)
        .build();

    assert!(result.is_err());
}

fn config_message<M, R, P>(result: Result<Job<M, R, P>, MapReduceError>) -> String {
    match result {
        Err(MapReduceError::InvalidJobConfig(message)) => message,
        Err(other) => panic!("unexpected error: {}", other.message()),
        Ok(_) => panic!("the job should have been rejected"),
    }
}

#[test]
fn job_rejects_blank_name() {
    let result = Job::builder()
        .name(" \t ")
        .input_path("input.txt")
        .output_path("output")
        .mapper(TestMapper)
        .reducer(TestReducer)
        .build();
    assert_eq!(config_message(result), "job name must not be empty");
}

#[test]
fn job_rejects_missing_name_first() {
    let result = Job::builder().build();
    assert_eq!(config_message(result), "job name must not be empty");
}

#[test]
fn job_rejects_missing_input_and_output() {
    let result = Job::builder().name("j").output_path("out").build();
    assert_eq!(config_message(result), "at least one input is required");
    let result = Job::builder().name("j").input_path("in").build();
    assert_eq!(config_message(result), "output path is required");
}

#[test]
fn job_reports_missing_mapper_and_reducer_messages() {
    let result = Job::builder()
        .name("j")
        .input_path("in")
        .output_path("out")
        .reducer(TestReducer)
        .build();
    assert_eq!(config_message(result), "mapper is required");
    let result = Job::builder()
        .name("j")
        .input_path("in")
        .output_path("out")
        .mapper(TestMapper)
        .build();
    assert_eq!(config_message(result), "reducer is required");
}

#[test]
fn job_rejects_zero_counts() {
    let base = || {
        Job::builder()
            .name("j")
            .input_path("in")
            .output_path("out")
            .mapper(TestMapper)
            .reducer(TestReducer)
    };
    assert_eq!(
        config_message(base().num_map_workers(0).build()),
        "number of map workers must be greater than zero"
    );
    assert_eq!(
        config_message(base().num_reduce_workers(0).build()),
        "number of reduce workers must be greater than zero"
    );
    assert_eq!(
        config_message(base().num_reducers(0).build()),
        "number of reducers must be greater than zero"
    );
}

#[test]
fn job_keeps_builder_settings() {
    let job = Job::builder()
        .name("j")
        .input_path("a.txt")
        .input_paths(vec!["b.txt".to_string(), "c.txt".to_string()])
        .output_path("out")
        .mapper(TestMapper)
        .reducer(TestReducer)
        .build()
        .unwrap();
    assert_eq!(job.input_paths(), &["a.txt".to_string(), "b.txt".to_string(), "c.txt".to_string()]);
    assert_eq!(job.output_path(), "out");
    assert_eq!(job.num_map_workers(), 1);
    assert_eq!(job.num_reducers(), 1);
    assert!(job.partitioner().is_none());
}

#[test]
fn job_accepts_shared_components() {
    let mapper: std::sync::Arc<dyn Mapper> = std::sync::Arc::new(TestMapper);
    let reducer: std::sync::Arc<dyn Reducer> = std::sync::Arc::new(TestReducer);
    let partitioner: std::sync::Arc<dyn Partitioner> = std::sync::Arc::new(DefaultPartitioner);
    let job = Job::builder()
        .name("shared")
        .input_path("in")
        .output_path("out")
        .mapper_arc(mapper)
        .reducer_arc(reducer)
        .partitioner_arc(partitioner)
        .build()
        .unwrap();
    assert!(job.partitioner().is_some());
}

#[test]
fn partition_is_within_reducer_range() {
    let partitioner = DefaultPartitioner;

    let partition = partitioner.partition(&"hello".to_string(), 4).unwrap();

    assert!(partition < 4);
}

#[test]
fn partition_rejects_zero_reducers() {
    let partitioner = DefaultPartitioner;

    let result = partitioner.partition(&"hello".to_string(), 0);

    assert!(result.is_err());
}

#[test]
fn partition_matches_std_string_hash() {
    for key in ["hello", "rust", "", "mapreduce", "ünïcödé"] {
        let mut hasher = std::collections::hash_map::DefaultHasher::new();
        key.to_string().hash(&mut hasher);
        let expected = (hasher.finish() as usize) % 7;
        assert_eq!(
            DefaultPartitioner.partition(&key.to_string(), 7).unwrap(),
            expected
        );
    }
}

#[test]
fn partition_is_deterministic() {
    let a = DefaultPartitioner.partition(&"same".to_string(), 5).unwrap();
    let b = DefaultPartitioner.partition(&"same".to_string(), 5).unwrap();
    assert_eq!(a, b);
    assert_eq!(DefaultPartitioner.partition(&"anything".to_string(), 1).unwrap(), 0);
}

#[test]
fn input_record_keeps_offset_and_text() {
    let record = InputRecord::new(7, "hello rust");
    assert_eq!(record.offset, 7);
    assert_eq!(record.value, "hello rust");
}

#[test]
fn error_messages_name_their_phase() {
    assert_eq!(
        MapReduceError::InvalidJobConfig("bad".to_string()).message(),
        "Invalid job configuration: bad"
    );
    assert_eq!(MapReduceError::MapPhase("m".to_string()).message(), "map phase failed: m");
    assert_eq!(MapReduceError::Reduce("r".to_string()).message(), "reduce phase failed: r");
    assert_eq!(MapReduceError::Shuffle("s".to_string()).message(), "shuffle phase failed: s");
    assert_eq!(
        MapReduceError::Executor("e".to_string()).message(),
        "executor phase failed: e"
    );
    let io = std::io::Error::new(std::io::ErrorKind::Other, "disk on fire");
    assert_eq!(MapReduceError::io_with_path("a.txt", io).message(), "I/O error at a.txt: disk on fire");
    let io = std::io::Error::new(std::io::ErrorKind::Other, "gone");
    let error = MapReduceError::io(io);
    assert_eq!(error.message(), "I/O error: gone");
    assert!(error.source().is_some());
    assert!(MapReduceError::Reduce("r".to_string()).source().is_none());
    let converted: MapReduceError = std::io::Error::new(std::io::ErrorKind::Other, "x").into();
    assert!(matches!(converted, MapReduceError::Io { path: None, .. }));
}

#[test]
fn io_messages_join_place_and_text() {
    assert_eq!(io_message(Some("in.txt"), "not found"), "I/O error at in.txt: not found");
    assert_eq!(io_message(None, "not found"), "I/O error: not found");
    assert_eq!(io_message(Some(""), ""), "I/O error at : ");
}

#[test]
fn keys_compare_in_code_point_order() {
    let cases = [
        ("", "", Ordering::Equal),
        ("", "a", Ordering::Less),
        ("ab", "a", Ordering::Greater),
        ("abc", "abd", Ordering::Less),
        ("Z", "a", Ordering::Less),
        ("é", "z", Ordering::Greater),
        ("日本", "日本語", Ordering::Less),
        ("\u{FFFF}", "\u{10000}", Ordering::Less),
    ];
    for (a, b, expected) in cases {
        assert_eq!(compare_keys(&a.to_string(), &b.to_string()), expected);
        assert_eq!(a.cmp(b), expected);
    }
}
