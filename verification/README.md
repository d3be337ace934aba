# mapreduce

A small MapReduce engine whose logic is verified with Verus.

A job names a mapper, a reducer and optionally a partitioner. The in-memory
engine maps every input record, assigns each intermediate key/value pair to one
of the job's reducer partitions, groups each partition by key, reduces every
key, and returns the outputs sorted by key. The library also holds the text
formats of local input files (one record per line) and of the output file
(`key<TAB>value` lines), and the word-count job with its command line.

Layout:

- `src/` — the verified library:
  - `job.rs`: the job builder and the validity rules of a job;
  - `engine.rs`: the map, shuffle and reduce phases, and the single map and reduce
    tasks they are made of; `run_records` runs the tasks one after another;
  - `invariance.rs`: with the default partitioner, and a mapper and a reducer that
    never fail and always give the same output for the same input (the reducer
    emitting only under the key it is given), a run's result does not depend on
    the number of reducers or on the worker counts;
  - `shuffle.rs`: grouping of tagged pairs into key-ordered partitions;
  - `partitioner.rs`: the default hash partitioner;
  - `word_count.rs`: word splitting and normalization, the word-count mapper and reducer;
  - `local_fs.rs`: line splitting of input files, rendering of output files;
  - `cli.rs`: the command-line grammar of the word-count program;
  - `text.rs`, `order.rs`: character facts, key order, and the std string operations used.
- `app/` — the `mr-cli` program: argument and file I/O, and the thread pools on
  which it runs the library's map tasks (`--map-workers` threads) and reduce tasks
  (`--reduce-workers` threads), merging their results in task order.
- `tests/` — tests of the library.
