//! The in-memory engine: map every record, shuffle the intermediate pairs to
//! reducer partitions, reduce each partition, and return the outputs in key order.
//!
//! Tasks run one after another, in record order and then in partition order.

use vstd::prelude::*;

use crate::emitter::VecEmitter;
use crate::error::MapReduceError;
use crate::job::{Job, JobView};
use crate::mapper::Mapper;
use crate::order::{has_key, sort_by_key, sorted_by_key};
use crate::partitioner::{default_partition, DefaultPartitioner, Partitioner};
use crate::record::{InputRecord, Key, Value};
use crate::reducer::Reducer;
use crate::shuffle::{bucket_values, group_into_partitions, is_partition, is_shuffle, tag_pairs, Partition};
use crate::text::{decimal_digits, text, usize_to_string};

verus! {

broadcast use vstd::seq_lib::group_seq_properties;

/// What a task hands back: its outputs, or the error it stopped with.
pub type TaskResult = Result<Vec<(Key, Value)>, MapReduceError>;

/// The task results put together in order: the first error, or all outputs concatenated.
pub open spec fn merged(rs: Seq<TaskResult>) -> Result<Seq<(Key, Value)>, MapReduceError>
    decreases rs.len(),
{
    if rs.len() == 0 {
        Ok(Seq::empty())
    } else {
        match merged(rs.drop_last()) {
            Err(e) => Err(e),
            Ok(acc) => match rs.last() {
                Ok(v) => Ok(acc + v@),
                Err(e) => Err(e),
            },
        }
    }
}

/// Once a prefix of the results has failed, the whole fails the same way.
proof fn lemma_merged_stops(rs: Seq<TaskResult>, i: int)
    requires
        0 <= i <= rs.len(),
        merged(rs.take(i)) is Err,
    ensures
        merged(rs) == merged(rs.take(i)),
    decreases rs.len() - i,
{
    if i < rs.len() {
        assert(rs.take(i + 1).drop_last() =~= rs.take(i));
        lemma_merged_stops(rs, i + 1);
    } else {
        assert(rs.take(i) =~= rs);
    }
}

/// Results that all succeeded without output merge to no output.
proof fn lemma_merged_empty(rs: Seq<TaskResult>)
    requires
        forall|t: int| 0 <= t < rs.len() ==> ((#[trigger] rs[t]) matches Ok(v) && v@.len() == 0),
    ensures
        merged(rs) matches Ok(s) && s.len() == 0,
    decreases rs.len(),
{
    if rs.len() > 0 {
        lemma_merged_empty(rs.drop_last());
        assert(rs.last() == rs[rs.len() - 1]);
    }
}

/// Puts task results together: the first error in task order, or else the
/// outputs of all tasks in task order.
pub fn merge_task_results(results: Vec<TaskResult>) -> (r: TaskResult)
    ensures
        match (r, merged(results@)) {
            (Ok(v), Ok(s)) => v@ == s,
            (Err(e), Err(e2)) => e == e2,
            _ => false,
        },
{
    let ghost rs = results@;
    let mut out: Vec<(Key, Value)> = Vec::new();
    for res in it: results.into_iter()
        invariant
            it.seq() == rs,
            merged(rs.take(it.index() as int)) == Ok::<Seq<(Key, Value)>, MapReduceError>(out@),
    {
        let ghost i = it.index() as int;
        assert(rs.take(i + 1).drop_last() =~= rs.take(i));
        assert(rs.take(i + 1).last() == res);
        match res {
            Ok(v) => {
                let mut v = v;
                out.append(&mut v);
            },
            Err(e) => {
                proof {
                    lemma_merged_stops(rs, i + 1);
                }
                return Err(e);
            },
        }
    }
    assert(rs.take(rs.len() as int) =~= rs);
    Ok(out)
}

/// The partition that the default partitioner gives each pair.
pub open spec fn default_assignment(pairs: Seq<(Key, Value)>, reducers: usize) -> Seq<usize> {
    Seq::new(pairs.len(), |i: int| default_partition(pairs[i].0@, reducers))
}

/// An assignment of each pair to one of `n` partitions.
pub open spec fn is_valid_assignment(assign: Seq<usize>, pairs: Seq<(Key, Value)>, n: usize) -> bool {
    &&& assign.len() == pairs.len()
    &&& forall|t: int| 0 <= t < assign.len() ==> assign[t] < n
}

/// `parts` group the pairs by some assignment of the pairs to the `n` partitions.
pub open spec fn is_some_shuffle(parts: Seq<Partition>, pairs: Seq<(Key, Value)>, n: usize) -> bool {
    exists|assign: Seq<usize>|
        is_valid_assignment(assign, pairs, n) && #[trigger] is_shuffle(
            parts,
            tag_pairs(pairs, assign),
            n,
        )
}

/// No pairs shuffle to empty partitions.
proof fn lemma_shuffle_of_nothing(parts: Seq<Partition>, assign: Seq<usize>, n: usize)
    requires
        is_shuffle(parts, tag_pairs(Seq::empty(), assign), n),
    ensures
        forall|p: int| 0 <= p < parts.len() ==> (#[trigger] parts[p])@.len() == 0,
{
    let ts = tag_pairs(Seq::<(Key, Value)>::empty(), assign);
    assert(ts =~= Seq::<(Key, (Value, usize))>::empty());
    assert forall|p: int| 0 <= p < parts.len() implies (#[trigger] parts[p])@.len() == 0 by {
        assert(is_partition(parts[p]@, ts, p as usize));
        if parts[p]@.len() > 0 {
            let e = parts[p]@[0];
            crate::shuffle::lemma_bucket_empty(ts, p as usize, e.0@);
            assert(bucket_values(ts, p as usize, e.0@).len() == 0);
        }
    }
}

/// The task result as a sequence of pairs, or the error.
pub open spec fn outcome_view(r: TaskResult) -> Result<Seq<(Key, Value)>, MapReduceError> {
    match r {
        Ok(v) => Ok(v@),
        Err(e) => Err(e),
    }
}

/// A result that one call of the mapper on `record`, with an empty emitter, allows:
/// the pairs emitted, or the error returned.
pub open spec fn map_task_allows<M: Mapper>(mapper: M, record: InputRecord, t: TaskResult) -> bool {
    match t {
        Ok(v) => mapper.map_allows(record, Seq::empty(), v@, Ok(())),
        Err(e) => exists|after: Seq<(Key, Value)>|
            #[trigger] mapper.map_allows(record, Seq::empty(), after, Err(e)),
    }
}

/// What the map phase may give: one mapper call per record, in record order,
/// their results merged.
pub open spec fn map_phase_allows<M: Mapper>(
    mapper: M,
    records: Seq<InputRecord>,
    out: Result<Seq<(Key, Value)>, MapReduceError>,
) -> bool {
    exists|ts: Seq<TaskResult>|
        #[trigger] merged(ts) == out && ts.len() == records.len() && forall|i: int|
            0 <= i < ts.len() ==> map_task_allows(mapper, records[i], #[trigger] ts[i])
}

/// What the job's partitioner allows for `key`; with no partitioner set, the default one.
pub open spec fn job_partition_allows<M, R, P: Partitioner>(
    j: JobView<M, R, P>,
    key: Key,
    r: Result<usize, MapReduceError>,
) -> bool {
    match j.partitioner {
        Some(p) => p.partition_allows(key, j.num_reducers, r),
        None => DefaultPartitioner.partition_allows(key, j.num_reducers, r),
    }
}

/// A partitioner's answer that names one of the `n` partitions.
pub open spec fn accepted(o: Result<usize, MapReduceError>, n: usize) -> bool {
    o matches Ok(p) && p < n
}

pub open spec fn invalid_partition_message(p: usize) -> Seq<char> {
    "partitioner returned invalid partition "@ + decimal_digits(p as nat)
}

/// The error with which the shuffle stops on a refused answer.
pub open spec fn rejected_as(o: Result<usize, MapReduceError>, e: MapReduceError) -> bool {
    match o {
        Err(e0) => e == e0,
        Ok(p) => e matches MapReduceError::Shuffle(m) && m@ == invalid_partition_message(p),
    }
}

/// The partitions named by accepted answers.
pub open spec fn assignment_of(outs: Seq<Result<usize, MapReduceError>>) -> Seq<usize> {
    outs.map_values(
        |o: Result<usize, MapReduceError>|
            match o {
                Ok(p) => p,
                Err(_) => 0,
            },
    )
}

/// What the shuffle gives from the partitioner's answers `outs`, asked for the
/// pairs in order until one answer is refused.
pub open spec fn shuffle_outcome(
    pairs: Seq<(Key, Value)>,
    outs: Seq<Result<usize, MapReduceError>>,
    n: usize,
    r: Result<Vec<Partition>, MapReduceError>,
) -> bool {
    if forall|i: int| 0 <= i < outs.len() ==> accepted(#[trigger] outs[i], n) {
        &&& outs.len() == pairs.len()
        &&& r matches Ok(parts) && is_shuffle(parts@, tag_pairs(pairs, assignment_of(outs)), n)
    } else {
        &&& outs.len() > 0
        &&& forall|i: int| 0 <= i < outs.len() - 1 ==> accepted(#[trigger] outs[i], n)
        &&& r matches Err(e) && rejected_as(outs.last(), e)
    }
}

/// What the shuffle phase may give: the job's partitioner asked for each pair's
/// key in order, until an answer is refused.
pub open spec fn shuffle_phase_allows<M, R, P: Partitioner>(
    j: JobView<M, R, P>,
    pairs: Seq<(Key, Value)>,
    r: Result<Vec<Partition>, MapReduceError>,
) -> bool {
    exists|outs: Seq<Result<usize, MapReduceError>>|
        #[trigger] shuffle_outcome(pairs, outs, j.num_reducers, r) && outs.len() <= pairs.len()
            && forall|i: int|
            0 <= i < outs.len() ==> job_partition_allows(j, pairs[i].0, #[trigger] outs[i])
}

/// One reduce task over a partition: the reducer called on its keys in order with
/// one emitter, whose contents are `states` (before the first call and after each),
/// the calls returning `outs`, until a call fails.
pub open spec fn reduce_trace<R: Reducer>(
    reducer: R,
    part: Seq<(Key, Vec<Value>)>,
    states: Seq<Seq<(Key, Value)>>,
    outs: Seq<Result<(), MapReduceError>>,
    t: TaskResult,
) -> bool {
    &&& outs.len() <= part.len()
    &&& states.len() == outs.len() + 1
    &&& states[0] == Seq::<(Key, Value)>::empty()
    &&& forall|i: int|
        0 <= i < outs.len() ==> reducer.reduce_allows(
            part[i].0,
            part[i].1@,
            states[i],
            states[i + 1],
            #[trigger] outs[i],
        )
    &&& if forall|i: int| 0 <= i < outs.len() ==> (#[trigger] outs[i]) is Ok {
        &&& outs.len() == part.len()
        &&& t matches Ok(v) && v@ == states.last()
    } else {
        &&& forall|i: int| 0 <= i < outs.len() - 1 ==> (#[trigger] outs[i]) is Ok
        &&& outs.last() matches Err(e) && t == Err::<Vec<(Key, Value)>, MapReduceError>(e)
    }
}

/// A result that reducing one partition allows.
pub open spec fn reduce_task_allows<R: Reducer>(
    reducer: R,
    part: Seq<(Key, Vec<Value>)>,
    t: TaskResult,
) -> bool {
    exists|states: Seq<Seq<(Key, Value)>>, outs: Seq<Result<(), MapReduceError>>|
        #[trigger] reduce_trace(reducer, part, states, outs, t)
}

/// What the reduce phase may give: one task per partition, in partition order,
/// their results merged.
pub open spec fn reduce_phase_allows<R: Reducer>(
    reducer: R,
    parts: Seq<Partition>,
    out: Result<Seq<(Key, Value)>, MapReduceError>,
) -> bool {
    exists|ts: Seq<TaskResult>|
        #[trigger] merged(ts) == out && ts.len() == parts.len() && forall|p: int|
            0 <= p < ts.len() ==> reduce_task_allows(reducer, parts[p]@, #[trigger] ts[p])
}

/// `v` is `s` sorted by key, the entries of each key keeping their order.
pub open spec fn is_key_sort_of(v: Seq<(Key, Value)>, s: Seq<(Key, Value)>) -> bool {
    &&& v.len() == s.len()
    &&& sorted_by_key(v)
    &&& forall|k: Seq<char>| #[trigger] v.filter(has_key::<Value>(k)) == s.filter(has_key::<Value>(k))
}

/// What the reduce phase's outcome `red` leaves for the run: its error, or its
/// outputs sorted by key.
pub open spec fn run_after_reduce(
    red: Result<Seq<(Key, Value)>, MapReduceError>,
    r: Result<Vec<(Key, Value)>, MapReduceError>,
) -> bool {
    match red {
        Err(e) => r == Err::<Vec<(Key, Value)>, MapReduceError>(e),
        Ok(outs) => r matches Ok(v) && is_key_sort_of(v@, outs),
    }
}

/// What the shuffle's outcome `s` leaves for the run: its error, or the reduce
/// phase over its partitions.
pub open spec fn run_after_shuffle<M, R: Reducer, P>(
    j: JobView<M, R, P>,
    s: Result<Vec<Partition>, MapReduceError>,
    r: Result<Vec<(Key, Value)>, MapReduceError>,
) -> bool {
    match s {
        Err(e) => r == Err::<Vec<(Key, Value)>, MapReduceError>(e),
        Ok(parts) => exists|red: Result<Seq<(Key, Value)>, MapReduceError>|
            #[trigger] reduce_phase_allows(j.reducer, parts@, red) && run_after_reduce(red, r),
    }
}

/// What the map phase's outcome `m` leaves for the run: its error, or the
/// shuffle of its pairs and what follows.
pub open spec fn run_after_map<M, R: Reducer, P: Partitioner>(
    j: JobView<M, R, P>,
    m: Result<Seq<(Key, Value)>, MapReduceError>,
    r: Result<Vec<(Key, Value)>, MapReduceError>,
) -> bool {
    match m {
        Err(e) => r == Err::<Vec<(Key, Value)>, MapReduceError>(e),
        Ok(pairs) => exists|s: Result<Vec<Partition>, MapReduceError>|
            #[trigger] shuffle_phase_allows(j, pairs, s) && run_after_shuffle(j, s, r),
    }
}

/// What a run of the job over `records` may give: the map phase, then the
/// shuffle of its pairs, then the reduce phase over the partitions, the first
/// failing phase giving its error; the reduce outputs come back sorted by key.
pub open spec fn run_allows<M: Mapper, R: Reducer, P: Partitioner>(
    j: JobView<M, R, P>,
    records: Seq<InputRecord>,
    r: Result<Vec<(Key, Value)>, MapReduceError>,
) -> bool {
    exists|m: Result<Seq<(Key, Value)>, MapReduceError>|
        #[trigger] map_phase_allows(j.mapper, records, m) && run_after_map(j, m, r)
}

/// A run whose map phase gave the pairs `pairs` and whose shuffle gave `s` is
/// allowed when what follows the shuffle is.
proof fn lemma_run_allows_after_shuffle<M: Mapper, R: Reducer, P: Partitioner>(
    j: JobView<M, R, P>,
    records: Seq<InputRecord>,
    pairs: Seq<(Key, Value)>,
    s: Result<Vec<Partition>, MapReduceError>,
    r: Result<Vec<(Key, Value)>, MapReduceError>,
)
    requires
        map_phase_allows(j.mapper, records, Ok(pairs)),
        shuffle_phase_allows(j, pairs, s),
        run_after_shuffle(j, s, r),
    ensures
        run_allows(j, records, r),
{
    let m = Ok::<Seq<(Key, Value)>, MapReduceError>(pairs);
    assert(shuffle_phase_allows(j, m->Ok_0, s));
    assert(run_after_map(j, m, r));
    assert(map_phase_allows(j.mapper, records, m));
}

/// A run whose map phase gave `pairs`, whose shuffle gave the partitions `parts`
/// and whose reduce phase gave `red` is allowed when what follows the reduce
/// phase is.
proof fn lemma_run_allows_after_reduce<M: Mapper, R: Reducer, P: Partitioner>(
    j: JobView<M, R, P>,
    records: Seq<InputRecord>,
    pairs: Seq<(Key, Value)>,
    parts: Vec<Partition>,
    red: Result<Seq<(Key, Value)>, MapReduceError>,
    r: Result<Vec<(Key, Value)>, MapReduceError>,
)
    requires
        map_phase_allows(j.mapper, records, Ok(pairs)),
        shuffle_phase_allows(j, pairs, Ok(parts)),
        reduce_phase_allows(j.reducer, parts@, red),
        run_after_reduce(red, r),
    ensures
        run_allows(j, records, r),
{
    let s = Ok::<Vec<Partition>, MapReduceError>(parts);
    assert(run_after_shuffle(j, s, r));
    lemma_run_allows_after_shuffle(j, records, pairs, s, r);
}

/// One map task: the mapper called on the record with a fresh emitter; its
/// outputs, or the error it returned.
pub fn map_task<M: Mapper>(mapper: &M, record: InputRecord) -> (t: TaskResult)
    ensures
        map_task_allows(*mapper, record, t),
{
    let ghost rec = record;
    let mut emitter = VecEmitter::new();
    let res = mapper.map(record, &mut emitter);
    let ghost after = emitter@;
    assert(mapper.map_allows(rec, Seq::empty(), after, res));
    match res {
        Ok(u) => {
            assert(res == Ok::<(), MapReduceError>(()));
            Ok(emitter.into_outputs())
        },
        Err(e) => {
            assert(mapper.map_allows(rec, Seq::empty(), after, Err(e)));
            Err(e)
        },
    }
}

/// One reduce task: the reducer called on each key of the partition in turn,
/// with one emitter, stopping at the first failure; the outputs, or that error.
pub fn reduce_task<R: Reducer>(reducer: &R, partition: Partition) -> (res: TaskResult)
    ensures
        reduce_task_allows(*reducer, partition@, res),
        partition@.len() == 0 ==> (res matches Ok(v) && v@.len() == 0),
{
    let ghost part = partition@;
    let ghost was_empty = partition@.len() == 0;
    let mut emitter = VecEmitter::new();
    let mut failure: Option<MapReduceError> = None;
    let ghost mut states: Seq<Seq<(Key, Value)>> = seq![Seq::empty()];
    let ghost mut outs: Seq<Result<(), MapReduceError>> = Seq::empty();
    for entry in jt: partition.into_iter()
        invariant
            jt.seq() == part,
            was_empty == (part.len() == 0),
            was_empty ==> failure is None && emitter@.len() == 0,
            outs.len() <= jt.index(),
            states.len() == outs.len() + 1,
            states[0] == Seq::<(Key, Value)>::empty(),
            forall|t: int|
                0 <= t < outs.len() ==> reducer.reduce_allows(
                    part[t].0,
                    part[t].1@,
                    states[t],
                    states[t + 1],
                    #[trigger] outs[t],
                ),
            failure is None ==> outs.len() == jt.index() && states.last() == emitter@
                && forall|t: int| 0 <= t < outs.len() ==> (#[trigger] outs[t]) is Ok,
            failure matches Some(e) ==> outs.len() > 0 && outs.last() == Err::<
                (),
                MapReduceError,
            >(e) && forall|t: int| 0 <= t < outs.len() - 1 ==> (#[trigger] outs[t]) is Ok,
    {
        if failure.is_none() {
            let ghost j = jt.index() as int;
            assert(entry == part[j]);
            let (key, values) = entry;
            let res = reducer.reduce(key, values, &mut emitter);
            proof {
                let ns = states.push(emitter@);
                let no = outs.push(res);
                assert forall|t: int| 0 <= t < no.len() implies reducer.reduce_allows(
                    part[t].0,
                    part[t].1@,
                    ns[t],
                    ns[t + 1],
                    #[trigger] no[t],
                ) by {
                    if t < outs.len() {
                        assert(no[t] == outs[t]);
                        assert(ns[t] == states[t]);
                        assert(ns[t + 1] == states[t + 1]);
                    }
                }
                states = ns;
                outs = no;
            }
            match res {
                Ok(u) => {},
                Err(e) => {
                    failure = Some(e);
                },
            }
        }
    }
    let res = match failure {
        Some(e) => Err(e),
        None => Ok(emitter.into_outputs()),
    };
    proof {
        if failure is None {
            assert(forall|t: int| 0 <= t < outs.len() ==> (#[trigger] outs[t]) is Ok);
        } else {
            assert(!(outs.last() is Ok));
            assert(!(forall|t: int| 0 <= t < outs.len() ==> (#[trigger] outs[t]) is Ok));
        }
        assert(reduce_trace(*reducer, part, states, outs, res));
    }
    res
}

/// The outputs sorted by key, the entries of each key keeping their order.
pub fn sort_outputs(outputs: Vec<(Key, Value)>) -> (r: Vec<(Key, Value)>)
    ensures
        is_key_sort_of(r@, outputs@),
{
    let mut outputs = outputs;
    sort_by_key(&mut outputs);
    outputs
}

pub struct InMemoryEngine;

impl Default for InMemoryEngine {
    fn default() -> (r: Self)
        ensures
            r == InMemoryEngine,
    {
        InMemoryEngine::new()
    }
}

impl InMemoryEngine {
    pub fn new() -> (r: Self)
        ensures
            r == InMemoryEngine,
    {
        InMemoryEngine
    }

    /// Runs the job over the records; the outputs come back in key order.
    pub fn run_records<M: Mapper, R: Reducer, P: Partitioner>(
        &self,
        job: &Job<M, R, P>,
        records: Vec<InputRecord>,
    ) -> (r: Result<Vec<(Key, Value)>, MapReduceError>)
        ensures
            run_allows(job@, records@, r),
            r matches Ok(out) ==> sorted_by_key(out@),
            records@.len() == 0 ==> (r matches Ok(out) && out@.len() == 0),
    {
        let ghost recs = records@;
        let no_records = records.len() == 0;
        let mapped = self.run_map_phase(job, records);
        let ghost m = outcome_view(mapped);
        assert(map_phase_allows(job@.mapper, recs, m));
        let intermediate = match mapped {
            Ok(v) => v,
            Err(e) => {
                let r: Result<Vec<(Key, Value)>, MapReduceError> = Err(e);
                assert(run_after_map(job@, m, r));
                assert(run_allows(job@, recs, r));
                return r;
            },
        };
        let ghost pairs = intermediate@;
        assert(m == Ok::<Seq<(Key, Value)>, MapReduceError>(pairs));
        let n = job.num_reducers();
        let shuffled = self.run_shuffle_phase(job, intermediate);
        let ghost s = shuffled;
        assert(shuffle_phase_allows(job@, pairs, s));
        let shuffled = match shuffled {
            Ok(parts) => parts,
            Err(e) => {
                let r: Result<Vec<(Key, Value)>, MapReduceError> = Err(e);
                proof {
                    lemma_run_allows_after_shuffle(job@, recs, pairs, s, r);
                }
                return r;
            },
        };
        proof {
            if no_records {
                let assign = choose|assign: Seq<usize>|
                    is_valid_assignment(assign, Seq::empty(), n) && #[trigger] is_shuffle(
                        shuffled@,
                        tag_pairs(Seq::empty(), assign),
                        n,
                    );
                lemma_shuffle_of_nothing(shuffled@, assign, n);
            }
        }
        let ghost parts = shuffled@;
        assert(s == Ok::<Vec<Partition>, MapReduceError>(shuffled));
        let reduced = self.run_reduce_phase(job, shuffled);
        let ghost red = outcome_view(reduced);
        assert(reduce_phase_allows(job@.reducer, parts, red));
        let mut outputs = match reduced {
            Ok(v) => v,
            Err(e) => {
                let r: Result<Vec<(Key, Value)>, MapReduceError> = Err(e);
                proof {
                    lemma_run_allows_after_reduce(job@, recs, pairs, s->Ok_0, red, r);
                }
                return r;
            },
        };
        let ghost unsorted = outputs@;
        let outputs = sort_outputs(outputs);
        let r: Result<Vec<(Key, Value)>, MapReduceError> = Ok(outputs);
        proof {
            assert(is_key_sort_of(outputs@, unsorted));
            lemma_run_allows_after_reduce(job@, recs, pairs, s->Ok_0, red, r);
        }
        r
    }

    /// Applies the mapper to each record, collecting each record's outputs.
    fn run_map_phase<M: Mapper, R, P>(&self, job: &Job<M, R, P>, records: Vec<InputRecord>) -> (r:
        Result<Vec<(Key, Value)>, MapReduceError>)
        ensures
            map_phase_allows(job@.mapper, records@, outcome_view(r)),
            records@.len() == 0 ==> (r matches Ok(v) && v@.len() == 0),
    {
        let ghost recs = records@;
        let ghost n = records@.len();
        let mapper = job.mapper();
        let mut results: Vec<TaskResult> = Vec::new();
        for record in it: records.into_iter()
            invariant
                it.seq() == recs,
                it.seq().len() == n,
                *mapper == job@.mapper,
                results@.len() == it.index(),
                forall|t: int|
                    0 <= t < results@.len() ==> map_task_allows(
                        job@.mapper,
                        recs[t],
                        #[trigger] results@[t],
                    ),
        {
            let ghost i = it.index() as int;
            assert(record == recs[i]);
            let task = map_task(mapper, record);
            results.push(task);
        }
        proof {
            if n == 0 {
                lemma_merged_empty(results@);
            }
        }
        let ghost ts = results@;
        let r = merge_task_results(results);
        assert(merged(ts) == outcome_view(r));
        r
    }

    /// Assigns each intermediate pair to a partition and groups the pairs.
    pub fn run_shuffle_phase<M, R, P: Partitioner>(
        &self,
        job: &Job<M, R, P>,
        intermediate: Vec<(Key, Value)>,
    ) -> (r: Result<Vec<Partition>, MapReduceError>)
        ensures
            shuffle_phase_allows(job@, intermediate@, r),
            r matches Ok(parts) ==> is_some_shuffle(parts@, intermediate@, job@.num_reducers),
            intermediate@.len() == 0 ==> r is Ok,
            job@.partitioner is None ==> (r matches Ok(parts) && is_shuffle(
                parts@,
                tag_pairs(intermediate@, default_assignment(intermediate@, job@.num_reducers)),
                job@.num_reducers,
            )),
    {
        let ghost pairs = intermediate@;
        let n = job.num_reducers();
        let mut assignments: Vec<usize> = Vec::new();
        let ghost mut outs: Seq<Result<usize, MapReduceError>> = Seq::empty();
        let mut i: usize = 0;
        while i < intermediate.len()
            invariant
                pairs == intermediate@,
                n == job@.num_reducers,
                n > 0,
                i <= intermediate.len(),
                assignments@.len() == i,
                outs.len() == i,
                forall|t: int| 0 <= t < i ==> assignments@[t] < n,
                forall|t: int|
                    0 <= t < i ==> #[trigger] outs[t] == Ok::<usize, MapReduceError>(assignments@[t]),
                forall|t: int| 0 <= t < i ==> job_partition_allows(job@, pairs[t].0, #[trigger] outs[t]),
                job@.partitioner is None ==> forall|t: int|
                    0 <= t < i ==> assignments@[t] == default_partition(intermediate@[t].0@, n),
            decreases intermediate.len() - i,
        {
            let key = &intermediate[i].0;
            let outcome = match job.partitioner() {
                Some(partitioner) => partitioner.partition(key, n),
                None => DefaultPartitioner.partition(key, n),
            };
            assert(job_partition_allows(job@, pairs[i as int].0, outcome));
            let ghost next = outs.push(outcome);
            proof {
                assert forall|t: int| 0 <= t < next.len() implies job_partition_allows(
                    job@,
                    pairs[t].0,
                    #[trigger] next[t],
                ) by {
                    if t < i {
                        assert(next[t] == outs[t]);
                    }
                }
            }
            let p = match outcome {
                Ok(p) => p,
                Err(e) => {
                    proof {
                        assert(!accepted(next[i as int], n));
                        assert(shuffle_outcome(pairs, next, n, Err(e)));
                    }
                    return Err(e);
                },
            };
            if p >= n {
                let e = MapReduceError::Shuffle(
                    text("partitioner returned invalid partition ").concat(
                        usize_to_string(p).as_str(),
                    ),
                );
                proof {
                    assert(!accepted(next[i as int], n));
                    assert(rejected_as(next.last(), e));
                    assert(shuffle_outcome(pairs, next, n, Err(e)));
                }
                return Err(e);
            }
            assignments.push(p);
            proof {
                outs = next;
            }
            i = i + 1;
        }
        proof {
            if job@.partitioner is None {
                assert(assignments@ =~= default_assignment(intermediate@, n));
            }
        }
        let ghost assign = assignments@;
        assert(assign.len() == pairs.len());
        assert(forall|t: int| 0 <= t < assign.len() ==> assign[t] < n);
        assert(assignment_of(outs) =~= assign);
        let parts = group_into_partitions(intermediate, assignments, n);
        assert(is_shuffle(parts@, tag_pairs(pairs, assign), n));
        assert(is_valid_assignment(assign, pairs, n));
        let r: Result<Vec<Partition>, MapReduceError> = Ok(parts);
        assert(forall|t: int| 0 <= t < outs.len() ==> accepted(#[trigger] outs[t], n));
        assert(shuffle_outcome(pairs, outs, n, r));
        r
    }

    /// Applies the reducer to each key of each partition, a partition stopping at
    /// its first failure.
    fn run_reduce_phase<M, R: Reducer, P>(&self, job: &Job<M, R, P>, partitions: Vec<Partition>) -> (r:
        Result<Vec<(Key, Value)>, MapReduceError>)
        ensures
            reduce_phase_allows(job@.reducer, partitions@, outcome_view(r)),
            (forall|p: int| 0 <= p < partitions@.len() ==> (#[trigger] partitions@[p])@.len() == 0)
                ==> (r matches Ok(v) && v@.len() == 0),
    {
        let ghost all_parts = partitions@;
        let ghost all_empty = forall|p: int|
            0 <= p < partitions@.len() ==> (#[trigger] partitions@[p])@.len() == 0;
        let reducer = job.reducer();
        let mut results: Vec<TaskResult> = Vec::new();
        for partition in it: partitions.into_iter()
            invariant
                it.seq() == all_parts,
                *reducer == job@.reducer,
                all_empty == forall|p: int|
                    0 <= p < all_parts.len() ==> (#[trigger] all_parts[p])@.len() == 0,
                results@.len() == it.index(),
                forall|t: int|
                    0 <= t < results@.len() ==> reduce_task_allows(
                        job@.reducer,
                        all_parts[t]@,
                        #[trigger] results@[t],
                    ),
                all_empty ==> forall|t: int|
                    0 <= t < results@.len() ==> ((#[trigger] results@[t]) matches Ok(v)
                        && v@.len() == 0),
        {
            let ghost pidx = it.index() as int;
            assert(partition == all_parts[pidx]);
            let res = reduce_task(reducer, partition);
            results.push(res);
        }
        proof {
            if all_empty {
                lemma_merged_empty(results@);
            }
        }
        let ghost ts = results@;
        let r = merge_task_results(results);
        assert(merged(ts) == outcome_view(r));
        r
    }
}

} // verus!
