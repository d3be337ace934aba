use mapreduce::cli::{help_requested, next_value, parse_positive_usize, usage};
use mapreduce::{CliArgs, MapReduceError};

fn args(items: &[&str]) -> Vec<String> {
    items.iter().map(|s| s.to_string()).collect()
}

fn rejection(result: Result<CliArgs, MapReduceError>) -> String {
    match result {
        Err(MapReduceError::InvalidJobConfig(message)) => message,
        Err(other) => panic!("unexpected error: {}", other.message()),
        Ok(parsed) => panic!("unexpectedly parsed: {:?}", parsed),
    }
}

#[test]
fn parses_minimal_word_count_command() {
    let args = CliArgs::parse(args(&["word-count", "--input", "input.txt", "--output", "out"]), 4)
        .unwrap();

    assert_eq!(args.input_paths, vec!["input.txt".to_string()]);
    assert_eq!(args.output_path, "out".to_string());
    assert_eq!(args.reducers, 1);
}

#[test]
fn parses_repeated_input_paths() {
    let args = CliArgs::parse(
        args(&["word-count", "--input", "a.txt", "--input", "b.txt", "--output", "out"]),
        4,
    )
    .unwrap();

    assert_eq!(args.input_paths, vec!["a.txt".to_string(), "b.txt".to_string()]);
}

#[test]
fn parses_worker_options() {
    let args = CliArgs::parse(
        args(&[
            "word-count",
            "--input",
            "input.txt",
            "--output",
            "out",
            "--map-workers",
            "4",
            "--reduce-workers",
            "2",
            "--reducers",
            "3",
        ]),
        8,
    )
    .unwrap();

    assert_eq!(args.map_workers, 4);
    assert_eq!(args.reduce_workers, 2);
    assert_eq!(args.reducers, 3);
}

#[test]
fn rejects_missing_input() {
    let result = CliArgs::parse(args(&["word-count", "--output", "out"]), 4);

    assert!(result.is_err());
}

#[test]
fn rejects_missing_output() {
    let result = CliArgs::parse(args(&["word-count", "--input", "input.txt"]), 4);

    assert!(result.is_err());
}

#[test]
fn main_rejects_zero_workers() {
    let result = CliArgs::parse(
        args(&["word-count", "--input", "input.txt", "--output", "out", "--map-workers", "0"]),
        4,
    );

    assert!(result.is_err());
}

#[test]
fn default_worker_counts_come_from_parallelism() {
    let parsed = CliArgs::parse(args(&["word-count", "-i", "a", "-o", "out"]), 6).unwrap();
    assert_eq!(parsed.map_workers, 6);
    assert_eq!(parsed.reduce_workers, 6);
    assert_eq!(parsed.reducers, 1);
}

#[test]
fn cli_rejection_messages() {
    assert_eq!(rejection(CliArgs::parse(args(&[]), 4)), "missing command");
    assert_eq!(rejection(CliArgs::parse(args(&["count"]), 4)), "unknown command: count");
    assert_eq!(
        rejection(CliArgs::parse(args(&["word-count", "--input"]), 4)),
        "missing value for --input"
    );
    assert_eq!(
        rejection(CliArgs::parse(args(&["word-count", "--bogus"]), 4)),
        "unknown argument: --bogus"
    );
    assert_eq!(
        rejection(CliArgs::parse(args(&["word-count", "-i", "a", "--reducers", "x"]), 4)),
        "--reducers must be a positive integer, got x"
    );
    assert_eq!(
        rejection(CliArgs::parse(args(&["word-count", "-i", "a", "--reduce-workers", "0"]), 4)),
        "--reduce-workers must be greater than zero"
    );
    assert_eq!(
        rejection(CliArgs::parse(args(&["word-count", "--output", "out"]), 4)),
        "at least one --input path is required"
    );
    assert_eq!(
        rejection(CliArgs::parse(args(&["word-count", "--input", "in"]), 4)),
        "--output path is required"
    );
}

#[test]
fn positive_counts_and_option_values() {
    assert_eq!(parse_positive_usize("--reducers", "12").unwrap(), 12);
    assert_eq!(parse_positive_usize("--reducers", "+3").unwrap(), 3);
    assert!(parse_positive_usize("--reducers", "-3").is_err());
    assert!(parse_positive_usize("--reducers", " 3").is_err());
    let list = args(&["--input", "x"]);
    assert_eq!(next_value(&list, 1, "--input").unwrap(), "x");
    match next_value(&list, 2, "--input") {
        Err(MapReduceError::InvalidJobConfig(m)) => assert_eq!(m, "missing value for --input"),
        _ => panic!("expected a missing value"),
    }
}

#[test]
fn help_flags_are_recognised() {
    assert!(help_requested(&args(&["word-count", "--help"])));
    assert!(help_requested(&args(&["-h"])));
    assert!(!help_requested(&args(&["word-count", "--input", "help"])));
    assert!(usage().starts_with("Usage:"));
}
