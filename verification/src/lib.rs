//! A small MapReduce engine: jobs built from a mapper, a reducer and a
//! partitioner, run in memory over input records, with the text formats of
//! local input and output files and the word-count job with its command line.

pub mod cli;
pub mod emitter;
pub mod engine;
pub mod error;
pub mod invariance;
pub mod job;
pub mod local_fs;
pub mod mapper;
pub mod order;
pub mod partitioner;
pub mod record;
pub mod reducer;
pub mod shuffle;
pub mod text;
pub mod word_count;

pub use cli::CliArgs;
pub use emitter::{Emitter, VecEmitter};
pub use engine::InMemoryEngine;
pub use error::MapReduceError;
pub use job::{Job, JobBuilder};
pub use local_fs::{LocalTextInput, LocalTextOutput};
pub use mapper::Mapper;
pub use partitioner::{DefaultPartitioner, Partitioner};
pub use record::{InputRecord, Key, Value};
pub use reducer::Reducer;
pub use word_count::{normalize_word, WordCountMapper, WordCountReducer};
