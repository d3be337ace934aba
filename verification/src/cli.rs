//! The command line of the word-count program.

use vstd::prelude::*;

use crate::error::MapReduceError;
use crate::job::option_view;
use crate::text::{is_unsigned_literal, parse_usize, text, unsigned_literal_value};
use crate::word_count::views;

verus! {

pub const USAGE: &'static str = r#"Usage:
  mr-cli word-count --input <path> --output <path> [options]

Commands:
  word-count
      Count words from one or more local text files/directories.

Required:
  -i, --input <path>
      Input file or directory. Can be repeated.

  -o, --output <path>
      Output directory. Must not already contain files.

Options:
  --map-workers <n>
      Number of mapper worker threads.

  --reduce-workers <n>
      Number of reducer worker threads.

  --reducers <n>
      Number of logical reducer partitions.

  -h, --help
      Show this help message.

Example:
  cargo run -p mr-cli -- word-count --input ./data/input.txt --output ./data/out --map-workers 4 --reduce-workers 2 --reducers 2
"#;

/// The help text.
pub fn usage() -> (r: &'static str)
    ensures
        r == USAGE,
{
    USAGE
}

/// Whether the help was asked for: some argument is `--help` or `-h`.
pub fn help_requested(args: &Vec<String>) -> (r: bool)
    ensures
        r == exists|i: int|
            0 <= i < args@.len() && ((#[trigger] args@[i])@ == "--help"@ || args@[i]@ == "-h"@),
{
    let mut i: usize = 0;
    while i < args.len()
        invariant
            i <= args@.len(),
            forall|j: int| 0 <= j < i ==> !((#[trigger] args@[j])@ == "--help"@ || args@[j]@ == "-h"@),
        decreases args.len() - i,
    {
        if is_arg(&args[i], "--help") || is_arg(&args[i], "-h") {
            return true;
        }
        i = i + 1;
    }
    false
}

fn is_arg(arg: &String, expected: &str) -> (r: bool)
    ensures
        r == (arg@ == expected@),
{
    *arg == text(expected)
}

/// The parsed command line.
#[derive(Debug, Clone, PartialEq, Eq)]
pub struct CliArgs {
    pub input_paths: Vec<String>,
    pub output_path: String,
    pub map_workers: usize,
    pub reduce_workers: usize,
    pub reducers: usize,
}

pub struct CliView {
    pub input_paths: Seq<Seq<char>>,
    pub output_path: Seq<char>,
    pub map_workers: usize,
    pub reduce_workers: usize,
    pub reducers: usize,
}

impl View for CliArgs {
    type V = CliView;

    open spec fn view(&self) -> CliView {
        CliView {
            input_paths: views(self.input_paths@),
            output_path: self.output_path@,
            map_workers: self.map_workers,
            reduce_workers: self.reduce_workers,
            reducers: self.reducers,
        }
    }
}

/// The options read so far.
pub struct OptionsState {
    pub input_paths: Seq<Seq<char>>,
    pub output_path: Option<Seq<char>>,
    pub map_workers: usize,
    pub reduce_workers: usize,
    pub reducers: usize,
}

/// The message for an option given without a value.
pub open spec fn missing_value_message(option: Seq<char>) -> Seq<char> {
    "missing value for "@ + option
}

/// The value of a count option: a positive `usize`, or the message that rejects it.
pub open spec fn positive_value(option: Seq<char>, value: Seq<char>) -> Result<usize, Seq<char>> {
    if !(is_unsigned_literal(value) && unsigned_literal_value(value) <= usize::MAX) {
        Err(option + " must be a positive integer, got "@ + value)
    } else if unsigned_literal_value(value) == 0 {
        Err(option + " must be greater than zero"@)
    } else {
        Ok(unsigned_literal_value(value) as usize)
    }
}

/// Reading the options from argument `i` on.
pub open spec fn parse_options(args: Seq<Seq<char>>, i: int, st: OptionsState) -> Result<
    OptionsState,
    Seq<char>,
>
    decreases args.len() - i,
{
    if i < 0 || i >= args.len() {
        Ok(st)
    } else {
        let a = args[i];
        if a == "--input"@ || a == "-i"@ {
            if i + 1 >= args.len() {
                Err(missing_value_message("--input"@))
            } else {
                parse_options(
                    args,
                    i + 2,
                    OptionsState { input_paths: st.input_paths.push(args[i + 1]), ..st },
                )
            }
        } else if a == "--output"@ || a == "-o"@ {
            if i + 1 >= args.len() {
                Err(missing_value_message("--output"@))
            } else {
                parse_options(args, i + 2, OptionsState { output_path: Some(args[i + 1]), ..st })
            }
        } else if a == "--map-workers"@ {
            if i + 1 >= args.len() {
                Err(missing_value_message("--map-workers"@))
            } else {
                match positive_value("--map-workers"@, args[i + 1]) {
                    Err(m) => Err(m),
                    Ok(v) => parse_options(args, i + 2, OptionsState { map_workers: v, ..st }),
                }
            }
        } else if a == "--reduce-workers"@ {
            if i + 1 >= args.len() {
                Err(missing_value_message("--reduce-workers"@))
            } else {
                match positive_value("--reduce-workers"@, args[i + 1]) {
                    Err(m) => Err(m),
                    Ok(v) => parse_options(args, i + 2, OptionsState { reduce_workers: v, ..st }),
                }
            }
        } else if a == "--reducers"@ {
            if i + 1 >= args.len() {
                Err(missing_value_message("--reducers"@))
            } else {
                match positive_value("--reducers"@, args[i + 1]) {
                    Err(m) => Err(m),
                    Ok(v) => parse_options(args, i + 2, OptionsState { reducers: v, ..st }),
                }
            }
        } else {
            Err("unknown argument: "@ + a)
        }
    }
}

/// The options before any are read: worker counts from the default parallelism, one reducer.
pub open spec fn initial_options(default_parallelism: usize) -> OptionsState {
    OptionsState {
        input_paths: Seq::empty(),
        output_path: None,
        map_workers: default_parallelism,
        reduce_workers: default_parallelism,
        reducers: 1,
    }
}

/// The outcome of parsing a command line (without the program name).
pub open spec fn cli_outcome(args: Seq<Seq<char>>, default_parallelism: usize) -> Result<
    CliView,
    Seq<char>,
> {
    if args.len() == 0 {
        Err("missing command"@)
    } else if args[0] != "word-count"@ {
        Err("unknown command: "@ + args[0])
    } else {
        match parse_options(args, 1, initial_options(default_parallelism)) {
            Err(m) => Err(m),
            Ok(st) => if st.input_paths.len() == 0 {
                Err("at least one --input path is required"@)
            } else if st.output_path is None {
                Err("--output path is required"@)
            } else {
                Ok(
                    CliView {
                        input_paths: st.input_paths,
                        output_path: st.output_path->0,
                        map_workers: st.map_workers,
                        reduce_workers: st.reduce_workers,
                        reducers: st.reducers,
                    },
                )
            },
        }
    }
}

/// The argument after an option, which is the option's value.
pub fn next_value(args: &Vec<String>, i: usize, option_name: &str) -> (r: Result<
    String,
    MapReduceError,
>)
    ensures
        i < args@.len() ==> (r matches Ok(v) && v@ == args@[i as int]@),
        i >= args@.len() ==> (r matches Err(MapReduceError::InvalidJobConfig(m)) && m@
            == missing_value_message(option_name@)),
{
    if i < args.len() {
        Ok(args[i].clone())
    } else {
        Err(MapReduceError::InvalidJobConfig(text("missing value for ").concat(option_name)))
    }
}

/// The value of a count option, which must be a positive integer.
pub fn parse_positive_usize(option_name: &str, value: &str) -> (r: Result<usize, MapReduceError>)
    ensures
        match (r, positive_value(option_name@, value@)) {
            (Ok(v), Ok(w)) => v == w,
            (Err(MapReduceError::InvalidJobConfig(m)), Err(msg)) => m@ == msg,
            _ => false,
        },
{
    let parsed = match parse_usize(value) {
        Some(v) => v,
        None => {
            return Err(
                MapReduceError::InvalidJobConfig(
                    text(option_name).concat(" must be a positive integer, got ").concat(value),
                ),
            );
        },
    };
    if parsed == 0 {
        return Err(
            MapReduceError::InvalidJobConfig(text(option_name).concat(" must be greater than zero")),
        );
    }
    Ok(parsed)
}

impl CliArgs {
    /// Parses the arguments that follow the program name; `default_parallelism`
    /// is the number of workers used when no count is given.
    pub fn parse(args: Vec<String>, default_parallelism: usize) -> (r: Result<
        CliArgs,
        MapReduceError,
    >)
        ensures
            match (r, cli_outcome(views(args@), default_parallelism)) {
                (Ok(c), Ok(v)) => c@ == v,
                (Err(MapReduceError::InvalidJobConfig(m)), Err(msg)) => m@ == msg,
                _ => false,
            },
    {
        let ghost a = views(args@);
        assert(args@.len() > 0 ==> a[0] == args@[0]@);
        if args.len() == 0 {
            return Err(MapReduceError::InvalidJobConfig(text("missing command")));
        }
        if !is_arg(&args[0], "word-count") {
            return Err(
                MapReduceError::InvalidJobConfig(text("unknown command: ").concat(args[0].as_str())),
            );
        }
        let mut input_paths: Vec<String> = Vec::new();
        let mut output_path: Option<String> = None;
        let mut map_workers = default_parallelism;
        let mut reduce_workers = default_parallelism;
        let mut reducers: usize = 1;
        let mut i: usize = 1;
        assert(views(input_paths@) =~= Seq::<Seq<char>>::empty());
        while i < args.len()
            invariant
                a == views(args@),
                a.len() == args@.len(),
                a.len() > 0,
                a[0] == "word-count"@,
                1 <= i,
                parse_options(a, 1, initial_options(default_parallelism)) == parse_options(
                    a,
                    i as int,
                    OptionsState {
                        input_paths: views(input_paths@),
                        output_path: option_view(output_path),
                        map_workers,
                        reduce_workers,
                        reducers,
                    },
                ),
            decreases args.len() - i,
        {
            let arg = &args[i];
            assert(a[i as int] == arg@);
            assert(i + 1 < args@.len() ==> a[i + 1] == args@[i + 1]@);
            if is_arg(arg, "--input") || is_arg(arg, "-i") {
                let value = match next_value(&args, i + 1, "--input") {
                    Ok(v) => v,
                    Err(e) => return Err(e),
                };
                let ghost before = input_paths@;
                input_paths.push(value);
                assert(views(input_paths@) =~= views(before).push(a[i + 1]));
            } else if is_arg(arg, "--output") || is_arg(arg, "-o") {
                let value = match next_value(&args, i + 1, "--output") {
                    Ok(v) => v,
                    Err(e) => return Err(e),
                };
                output_path = Some(value);
            } else if is_arg(arg, "--map-workers") {
                let value = match next_value(&args, i + 1, "--map-workers") {
                    Ok(v) => v,
                    Err(e) => return Err(e),
                };
                map_workers = match parse_positive_usize("--map-workers", value.as_str()) {
                    Ok(v) => v,
                    Err(e) => return Err(e),
                };
            } else if is_arg(arg, "--reduce-workers") {
                let value = match next_value(&args, i + 1, "--reduce-workers") {
                    Ok(v) => v,
                    Err(e) => return Err(e),
                };
                reduce_workers = match parse_positive_usize("--reduce-workers", value.as_str()) {
                    Ok(v) => v,
                    Err(e) => return Err(e),
                };
            } else if is_arg(arg, "--reducers") {
                let value = match next_value(&args, i + 1, "--reducers") {
                    Ok(v) => v,
                    Err(e) => return Err(e),
                };
                reducers = match parse_positive_usize("--reducers", value.as_str()) {
                    Ok(v) => v,
                    Err(e) => return Err(e),
                };
            } else {
                return Err(
                    MapReduceError::InvalidJobConfig(
                        text("unknown argument: ").concat(args[i].as_str()),
                    ),
                );
            }
            i = i + 2;
        }
        if input_paths.len() == 0 {
            return Err(
                MapReduceError::InvalidJobConfig(text("at least one --input path is required")),
            );
        }
        let output_path = match output_path {
            Some(p) => p,
            None => {
                return Err(MapReduceError::InvalidJobConfig(text("--output path is required")));
            },
        };
        Ok(CliArgs { input_paths, output_path, map_workers, reduce_workers, reducers })
    }
}

} // verus!
