//! What a run gives, for a mapper and a reducer that never fail and always do
//! the same: it does not depend on the number of reducers the pairs are spread
//! over, nor on the worker counts.

use vstd::prelude::*;

use crate::engine::{
    accepted, assignment_of, is_key_sort_of, job_partition_allows, map_phase_allows, map_task_allows,
    merged, reduce_phase_allows, reduce_task_allows, reduce_trace, run_after_map, run_after_reduce,
    run_after_shuffle, run_allows, shuffle_outcome, shuffle_phase_allows, TaskResult,
};
use crate::error::MapReduceError;
use crate::job::{job_valid, JobView};
use crate::mapper::Mapper;
use crate::order::has_key;
use crate::partitioner::{
    default_partition, lemma_default_partition_deterministic_and_in_range, DefaultPartitioner,
    Partitioner,
};
use crate::record::{InputRecord, Key, Value};
use crate::reducer::Reducer;
use crate::shuffle::{
    bucket_values, is_partition, is_shuffle, key_values, lemma_bucket_empty,
    lemma_keyed_partitioning_groups_each_key, tag_pairs, Partition,
};
use crate::text::{key_lt, lemma_key_lt_irreflexive, lemma_key_lt_total};
use crate::word_count::{pair_views, views};

verus! {

broadcast use vstd::seq_lib::group_seq_properties;

/// A key/value pair seen through the views of its strings.
pub type PairView = (Seq<char>, Seq<char>);

/// Whether a viewed pair is under key `k`.
pub open spec fn view_key(k: Seq<char>) -> spec_fn(PairView) -> bool {
    |e: PairView| e.0 == k
}

/// Viewed pairs in non-decreasing key order.
pub open spec fn views_sorted(s: Seq<PairView>) -> bool {
    forall|i: int, j: int| 0 <= i < j < s.len() ==> !key_lt(#[trigger] s[j].0, #[trigger] s[i].0)
}

/// Filtering after a map is mapping after the matching filter.
proof fn lemma_map_then_filter<A, B>(s: Seq<A>, f: spec_fn(A) -> B, p: spec_fn(B) -> bool)
    ensures
        s.map_values(f).filter(p) == s.filter(|a: A| p(f(a))).map_values(f),
    decreases s.len(),
{
    reveal(Seq::filter);
    let q = |a: A| p(f(a));
    if s.len() > 0 {
        lemma_map_then_filter(s.drop_last(), f, p);
        assert(s.map_values(f).drop_last() =~= s.drop_last().map_values(f));
        if q(s.last()) {
            assert(s.drop_last().filter(q).push(s.last()).map_values(f) =~= s.drop_last().filter(
                q,
            ).map_values(f).push(f(s.last())));
        }
    } else {
        assert(s.map_values(f).filter(p) =~= Seq::<B>::empty());
        assert(s.filter(q).map_values(f) =~= Seq::<B>::empty());
    }
}

/// The views of the pairs under key `k` are the viewed pairs under key `k`.
pub proof fn lemma_pair_views_filter(s: Seq<(Key, Value)>, k: Seq<char>)
    ensures
        pair_views(s.filter(crate::order::has_key::<Value>(k))) == pair_views(s).filter(view_key(k)),
{
    let f = |e: (Key, Value)| (e.0@, e.1@);
    lemma_map_then_filter(s, f, view_key(k));
    let q = |a: (Key, Value)| view_key(k)(f(a));
    assert(q =~= crate::order::has_key::<Value>(k));
}

/// Viewed pairs all under key `k0` are kept whole by the filter for `k0` and
/// dropped by the filter for any other key.
pub proof fn lemma_filter_one_key(s: Seq<PairView>, k0: Seq<char>, k: Seq<char>)
    requires
        forall|i: int| 0 <= i < s.len() ==> (#[trigger] s[i]).0 == k0,
    ensures
        s.filter(view_key(k)) == if k0 == k {
            s
        } else {
            Seq::<PairView>::empty()
        },
    decreases s.len(),
{
    reveal(Seq::filter);
    if s.len() > 0 {
        lemma_filter_one_key(s.drop_last(), k0, k);
        assert(s.drop_last().push(s.last()) =~= s);
    } else {
        assert(s.filter(view_key(k)) =~= s);
    }
}

/// Two sequences in key order that agree under every key are equal.
pub proof fn lemma_sorted_determined_by_keys(a: Seq<PairView>, b: Seq<PairView>)
    requires
        views_sorted(a),
        views_sorted(b),
        forall|k: Seq<char>| #[trigger] a.filter(view_key(k)) == b.filter(view_key(k)),
    ensures
        a == b,
    decreases a.len(),
{
    if a.len() == 0 || b.len() == 0 {
        if a.len() > 0 {
            a.lemma_filter_contains(view_key(a[0].0), 0);
            assert(a.filter(view_key(a[0].0)) == b.filter(view_key(a[0].0)));
            assert(b.filter(view_key(a[0].0)).len() <= b.len());
        }
        if b.len() > 0 {
            b.lemma_filter_contains(view_key(b[0].0), 0);
            assert(a.filter(view_key(b[0].0)) == b.filter(view_key(b[0].0)));
            assert(a.filter(view_key(b[0].0)).len() <= a.len());
        }
        assert(a =~= b);
    } else {
        let ka = a[0].0;
        let kb = b[0].0;
        a.lemma_filter_contains(view_key(ka), 0);
        assert(b.filter(view_key(ka)).contains(a[0]));
        b.lemma_filter_contains_rev(view_key(ka), a[0]);
        let j = choose|j: int| 0 <= j < b.len() && b[j] == a[0];
        if j > 0 {
            assert(!key_lt(b[j].0, b[0].0));
        }
        b.lemma_filter_contains(view_key(kb), 0);
        assert(a.filter(view_key(kb)).contains(b[0]));
        a.lemma_filter_contains_rev(view_key(kb), b[0]);
        let i = choose|i: int| 0 <= i < a.len() && a[i] == b[0];
        if i > 0 {
            assert(!key_lt(a[i].0, a[0].0));
        }
        lemma_key_lt_total(ka, kb);
        lemma_key_lt_irreflexive(ka);
        assert(ka == kb);
        let a1 = a.drop_first();
        let b1 = b.drop_first();
        assert(a =~= seq![a[0]] + a1);
        assert(b =~= seq![b[0]] + b1);
        assert forall|k: Seq<char>| #[trigger] a1.filter(view_key(k)) == b1.filter(view_key(k)) by {
            a1.lemma_filter_prepend(a[0], view_key(k));
            b1.lemma_filter_prepend(b[0], view_key(k));
            assert(a.filter(view_key(k)) == b.filter(view_key(k)));
            if k == ka {
                let fa = a.filter(view_key(k));
                assert(fa == seq![a[0]] + a1.filter(view_key(k)));
                assert(fa == seq![b[0]] + b1.filter(view_key(k)));
                assert(fa[0] == a[0]);
                assert(fa[0] == b[0]);
                assert(a1.filter(view_key(k)) =~= fa.drop_first());
                assert(b1.filter(view_key(k)) =~= fa.drop_first());
            }
        }
        lemma_sorted_determined_by_keys(a1, b1);
        let fa = a.filter(view_key(ka));
        a1.lemma_filter_prepend(a[0], view_key(ka));
        b1.lemma_filter_prepend(b[0], view_key(ka));
        assert(fa[0] == a[0]);
        assert(fa[0] == b[0]);
    }
}

/// A reducer's output, as a function of a key and its values, lists only pairs
/// under that key.
pub open spec fn emits_under_key(fr: spec_fn(Seq<char>, Seq<Seq<char>>) -> Seq<PairView>) -> bool {
    forall|k: Seq<char>, vs: Seq<Seq<char>>, i: int|
        0 <= i < fr(k, vs).len() ==> (#[trigger] fr(k, vs)[i]).0 == k
}

/// What reducing each entry of a partition in turn emits.
pub open spec fn emit_entries(
    fr: spec_fn(Seq<char>, Seq<Seq<char>>) -> Seq<PairView>,
    part: Seq<(Key, Vec<Value>)>,
) -> Seq<PairView>
    decreases part.len(),
{
    if part.len() == 0 {
        Seq::empty()
    } else {
        emit_entries(fr, part.drop_last()) + fr(part.last().0@, views(part.last().1@))
    }
}

/// What reducing each partition in turn emits.
pub open spec fn emit_partitions(
    fr: spec_fn(Seq<char>, Seq<Seq<char>>) -> Seq<PairView>,
    parts: Seq<Partition>,
) -> Seq<PairView>
    decreases parts.len(),
{
    if parts.len() == 0 {
        Seq::empty()
    } else {
        emit_partitions(fr, parts.drop_last()) + emit_entries(fr, parts.last()@)
    }
}

/// A partition without key `k` emits nothing under `k`.
proof fn lemma_emit_entries_without_key(
    fr: spec_fn(Seq<char>, Seq<Seq<char>>) -> Seq<PairView>,
    part: Seq<(Key, Vec<Value>)>,
    k: Seq<char>,
)
    requires
        emits_under_key(fr),
        forall|i: int| 0 <= i < part.len() ==> (#[trigger] part[i]).0@ != k,
    ensures
        emit_entries(fr, part).filter(view_key(k)) == Seq::<PairView>::empty(),
    decreases part.len(),
{
    if part.len() > 0 {
        let last = part.last();
        lemma_emit_entries_without_key(fr, part.drop_last(), k);
        let out = fr(last.0@, views(last.1@));
        lemma_filter_one_key(out, last.0@, k);
        Seq::filter_distributes_over_add(emit_entries(fr, part.drop_last()), out, view_key(k));
        assert(Seq::<PairView>::empty() + Seq::<PairView>::empty() =~= Seq::<PairView>::empty());
    } else {
        reveal(Seq::filter);
    }
}

/// A partition whose keys are distinct emits under key `k` what reducing the
/// entry of `k` emits.
proof fn lemma_emit_entries_with_key(
    fr: spec_fn(Seq<char>, Seq<Seq<char>>) -> Seq<PairView>,
    part: Seq<(Key, Vec<Value>)>,
    i: int,
)
    requires
        emits_under_key(fr),
        forall|a: int, b: int| 0 <= a < b < part.len() ==> (#[trigger] part[a]).0@ != (#[trigger] part[b]).0@,
        0 <= i < part.len(),
    ensures
        emit_entries(fr, part).filter(view_key(part[i].0@)) == fr(part[i].0@, views(part[i].1@)),
    decreases part.len(),
{
    let k = part[i].0@;
    let last = part.last();
    let init = part.drop_last();
    let out = fr(last.0@, views(last.1@));
    Seq::filter_distributes_over_add(emit_entries(fr, init), out, view_key(k));
    lemma_filter_one_key(out, last.0@, k);
    if i == part.len() - 1 {
        assert forall|t: int| 0 <= t < init.len() implies (#[trigger] init[t]).0@ != k by {
            assert(init[t] == part[t]);
        }
        lemma_emit_entries_without_key(fr, init, k);
        assert(Seq::<PairView>::empty() + out =~= out);
    } else {
        assert(init[i] == part[i]);
        lemma_emit_entries_with_key(fr, init, i);
        assert(emit_entries(fr, init).filter(view_key(k)) + Seq::<PairView>::empty()
            =~= emit_entries(fr, init).filter(view_key(k)));
    }
}

/// When key `k` occurs in no partition but the `q`th, the partitions emit under
/// `k` what that one does.
proof fn lemma_emit_partitions_key(
    fr: spec_fn(Seq<char>, Seq<Seq<char>>) -> Seq<PairView>,
    parts: Seq<Partition>,
    q: int,
    k: Seq<char>,
)
    requires
        emits_under_key(fr),
        forall|p: int, i: int|
            0 <= p < parts.len() && p != q && 0 <= i < parts[p]@.len() ==> (#[trigger] parts[p]@[i]).0@ != k,
    ensures
        emit_partitions(fr, parts).filter(view_key(k)) == if 0 <= q < parts.len() {
            emit_entries(fr, parts[q]@).filter(view_key(k))
        } else {
            Seq::<PairView>::empty()
        },
    decreases parts.len(),
{
    if parts.len() == 0 {
        reveal(Seq::filter);
    } else {
        let init = parts.drop_last();
        let lp = parts.len() - 1;
        assert forall|p: int, i: int|
            0 <= p < init.len() && p != q && 0 <= i < init[p]@.len() implies (#[trigger] init[p]@[i]).0@ != k by {
            assert(init[p] == parts[p]);
        }
        lemma_emit_partitions_key(fr, init, q, k);
        Seq::filter_distributes_over_add(
            emit_partitions(fr, init),
            emit_entries(fr, parts.last()@),
            view_key(k),
        );
        if q == lp {
            assert(Seq::<PairView>::empty() + emit_entries(fr, parts[q]@).filter(view_key(k))
                =~= emit_entries(fr, parts[q]@).filter(view_key(k)));
        } else {
            assert forall|i: int| 0 <= i < parts.last()@.len() implies (#[trigger] parts.last()@[i]).0@ != k by {
                assert(parts[lp]@[i].0@ != k);
            }
            lemma_emit_entries_without_key(fr, parts.last()@, k);
            if 0 <= q < parts.len() {
                assert(init[q] == parts[q]);
            }
            assert(emit_partitions(fr, init).filter(view_key(k)) + Seq::<PairView>::empty()
                =~= emit_partitions(fr, init).filter(view_key(k)));
        }
    }
}

/// A mapper that never fails and that, called on a record with an empty emitter,
/// always emits pairs whose views are `fm(record)`.
pub open spec fn maps_as<M: Mapper>(mapper: M, fm: spec_fn(InputRecord) -> Seq<PairView>) -> bool {
    forall|rec: InputRecord, after: Seq<(Key, Value)>, r: Result<(), MapReduceError>|
        #[trigger] mapper.map_allows(rec, Seq::empty(), after, r) ==> r is Ok && pair_views(after)
            == fm(rec)
}

/// A reducer that never fails and that, called on a key and its values, always
/// appends pairs whose views are `fr(key, values)`, all under that key.
pub open spec fn reduces_as<R: Reducer>(
    reducer: R,
    fr: spec_fn(Seq<char>, Seq<Seq<char>>) -> Seq<PairView>,
) -> bool {
    &&& emits_under_key(fr)
    &&& forall|
        k: Key,
        vals: Seq<Value>,
        before: Seq<(Key, Value)>,
        after: Seq<(Key, Value)>,
        r: Result<(), MapReduceError>,
    |
        #[trigger] reducer.reduce_allows(k, vals, before, after, r) ==> r is Ok && pair_views(after)
            == pair_views(before) + fr(k@, views(vals))
}

/// What mapping each record in turn emits.
pub open spec fn all_mapped(fm: spec_fn(InputRecord) -> Seq<PairView>, recs: Seq<InputRecord>) -> Seq<
    PairView,
>
    decreases recs.len(),
{
    if recs.len() == 0 {
        Seq::empty()
    } else {
        all_mapped(fm, recs.drop_last()) + fm(recs.last())
    }
}

/// What a run emits under key `k`: the reducer's output for `k` and all the
/// values mapped under `k`, in order, when some record maps to `k`; else nothing.
pub open spec fn run_output_under(
    fm: spec_fn(InputRecord) -> Seq<PairView>,
    fr: spec_fn(Seq<char>, Seq<Seq<char>>) -> Seq<PairView>,
    records: Seq<InputRecord>,
    k: Seq<char>,
) -> Seq<PairView> {
    let ms = all_mapped(fm, records);
    if exists|t: int| 0 <= t < ms.len() && (#[trigger] ms[t]).0 == k {
        fr(k, ms.filter(view_key(k)).map_values(|e: PairView| e.1))
    } else {
        Seq::empty()
    }
}

proof fn lemma_map_results(
    mapper: impl Mapper,
    fm: spec_fn(InputRecord) -> Seq<PairView>,
    ts: Seq<TaskResult>,
    recs: Seq<InputRecord>,
)
    requires
        maps_as(mapper, fm),
        ts.len() == recs.len(),
        forall|i: int| 0 <= i < ts.len() ==> map_task_allows(mapper, recs[i], #[trigger] ts[i]),
    ensures
        merged(ts) matches Ok(s) && pair_views(s) == all_mapped(fm, recs),
    decreases ts.len(),
{
    if ts.len() > 0 {
        let i = ts.len() - 1;
        assert(map_task_allows(mapper, recs[i], ts[i]));
        lemma_map_results(mapper, fm, ts.drop_last(), recs.drop_last());
        match ts.last() {
            Ok(v) => {
                let acc = merged(ts.drop_last())->Ok_0;
                assert(pair_views(acc + v@) =~= pair_views(acc) + pair_views(v@));
            },
            Err(e) => {
                let after = choose|after: Seq<(Key, Value)>|
                    #[trigger] mapper.map_allows(recs[i], Seq::empty(), after, Err(e));
                assert(false);
            },
        }
    } else {
        assert(pair_views(Seq::empty()) =~= Seq::<PairView>::empty());
    }
}

proof fn lemma_trace_prefix(
    reducer: impl Reducer,
    fr: spec_fn(Seq<char>, Seq<Seq<char>>) -> Seq<PairView>,
    part: Seq<(Key, Vec<Value>)>,
    states: Seq<Seq<(Key, Value)>>,
    outs: Seq<Result<(), MapReduceError>>,
    t: TaskResult,
    i: int,
)
    requires
        reduces_as(reducer, fr),
        reduce_trace(reducer, part, states, outs, t),
        0 <= i <= outs.len(),
    ensures
        pair_views(states[i]) == emit_entries(fr, part.take(i)),
        forall|u: int| 0 <= u < i ==> (#[trigger] outs[u]) is Ok,
    decreases i,
{
    if i == 0 {
        assert(pair_views(states[0]) =~= Seq::<PairView>::empty());
    } else {
        lemma_trace_prefix(reducer, fr, part, states, outs, t, i - 1);
        assert(reducer.reduce_allows(part[i - 1].0, part[i - 1].1@, states[i - 1], states[i], outs[i - 1]));
        assert(part.take(i).drop_last() =~= part.take(i - 1));
    }
}

proof fn lemma_reduce_task(
    reducer: impl Reducer,
    fr: spec_fn(Seq<char>, Seq<Seq<char>>) -> Seq<PairView>,
    part: Seq<(Key, Vec<Value>)>,
    t: TaskResult,
)
    requires
        reduces_as(reducer, fr),
        reduce_task_allows(reducer, part, t),
    ensures
        t matches Ok(v) && pair_views(v@) == emit_entries(fr, part),
{
    let (states, outs) = choose|
        states: Seq<Seq<(Key, Value)>>,
        outs: Seq<Result<(), MapReduceError>>,
    | #[trigger] reduce_trace(reducer, part, states, outs, t);
    lemma_trace_prefix(reducer, fr, part, states, outs, t, outs.len() as int);
    assert(part.take(part.len() as int) =~= part);
}

proof fn lemma_reduce_results(
    reducer: impl Reducer,
    fr: spec_fn(Seq<char>, Seq<Seq<char>>) -> Seq<PairView>,
    ts: Seq<TaskResult>,
    parts: Seq<Partition>,
)
    requires
        reduces_as(reducer, fr),
        ts.len() == parts.len(),
        forall|p: int| 0 <= p < ts.len() ==> reduce_task_allows(reducer, parts[p]@, #[trigger] ts[p]),
    ensures
        merged(ts) matches Ok(s) && pair_views(s) == emit_partitions(fr, parts),
    decreases ts.len(),
{
    if ts.len() > 0 {
        let p = ts.len() - 1;
        assert(reduce_task_allows(reducer, parts[p]@, ts[p]));
        lemma_reduce_task(reducer, fr, parts[p]@, ts[p]);
        lemma_reduce_results(reducer, fr, ts.drop_last(), parts.drop_last());
        let acc = merged(ts.drop_last())->Ok_0;
        let v = ts.last()->Ok_0;
        assert(pair_views(acc + v@) =~= pair_views(acc) + pair_views(v@));
    } else {
        assert(pair_views(Seq::empty()) =~= Seq::<PairView>::empty());
    }
}

/// The values of key `k` among the pairs, seen through their views, are those of
/// the viewed pairs under `k`.
proof fn lemma_key_values_views(pairs: Seq<(Key, Value)>, k: Seq<char>)
    ensures
        views(key_values(pairs, k)) == pair_views(pairs).filter(view_key(k)).map_values(
            |e: PairView| e.1,
        ),
{
    lemma_pair_views_filter(pairs, k);
    let fk = pairs.filter(has_key::<Value>(k));
    assert(views(fk.map_values(|e: (Key, Value)| e.1)) =~= pair_views(fk).map_values(
        |e: PairView| e.1,
    ));
}

/// What one run gives, for a mapper and a reducer that never fail and always
/// do the same, and the default partitioner: its outputs, in key order, list
/// under each key exactly `run_output_under` of that key.
proof fn lemma_run_output<M: Mapper, R: Reducer, P: Partitioner>(
    j: JobView<M, R, P>,
    records: Seq<InputRecord>,
    r: Result<Vec<(Key, Value)>, MapReduceError>,
    fm: spec_fn(InputRecord) -> Seq<PairView>,
    fr: spec_fn(Seq<char>, Seq<Seq<char>>) -> Seq<PairView>,
)
    requires
        j.num_reducers > 0,
        j.partitioner is None,
        maps_as(j.mapper, fm),
        reduces_as(j.reducer, fr),
        run_allows(j, records, r),
    ensures
        r matches Ok(v) && views_sorted(pair_views(v@)) && forall|k: Seq<char>|
            #[trigger] pair_views(v@).filter(view_key(k)) == run_output_under(fm, fr, records, k),
{
    let n = j.num_reducers;
    // The map phase.
    let m = choose|m: Result<Seq<(Key, Value)>, MapReduceError>|
        #[trigger] map_phase_allows(j.mapper, records, m) && run_after_map(j, m, r);
    let mts = choose|ts: Seq<TaskResult>|
        #[trigger] merged(ts) == m && ts.len() == records.len() && forall|i: int|
            0 <= i < ts.len() ==> map_task_allows(j.mapper, records[i], #[trigger] ts[i]);
    lemma_map_results(j.mapper, fm, mts, records);
    let pairs = m->Ok_0;
    let ms = all_mapped(fm, records);
    assert(pair_views(pairs) == ms);
    // The shuffle.
    let s = choose|s: Result<Vec<Partition>, MapReduceError>|
        #[trigger] shuffle_phase_allows(j, pairs, s) && run_after_shuffle(j, s, r);
    let outs = choose|outs: Seq<Result<usize, MapReduceError>>|
        #[trigger] shuffle_outcome(pairs, outs, n, s) && outs.len() <= pairs.len() && forall|i: int|
            0 <= i < outs.len() ==> job_partition_allows(j, pairs[i].0, #[trigger] outs[i]);
    assert forall|i: int| 0 <= i < outs.len() implies accepted(#[trigger] outs[i], n)
        && outs[i] == Ok::<usize, MapReduceError>(default_partition(pairs[i].0@, n)) by {
        assert(job_partition_allows(j, pairs[i].0, outs[i]));
        assert(DefaultPartitioner.partition_allows(pairs[i].0, n, outs[i]));
        lemma_default_partition_deterministic_and_in_range(pairs[i].0@, pairs[i].0@, n);
    }
    let assign = assignment_of(outs);
    let parts = s->Ok_0@;
    assert(is_shuffle(parts, tag_pairs(pairs, assign), n));
    assert forall|t: int| 0 <= t < pairs.len() implies assign[t] < n && assign[t] == default_partition(
        #[trigger] pairs[t].0@,
        n,
    ) by {
        assert(outs[t] == Ok::<usize, MapReduceError>(default_partition(pairs[t].0@, n)));
    }
    // The reduce phase.
    let red = choose|red: Result<Seq<(Key, Value)>, MapReduceError>|
        #[trigger] reduce_phase_allows(j.reducer, parts, red) && run_after_reduce(red, r);
    let rts = choose|ts: Seq<TaskResult>|
        #[trigger] merged(ts) == red && ts.len() == parts.len() && forall|p: int|
            0 <= p < ts.len() ==> reduce_task_allows(j.reducer, parts[p]@, #[trigger] ts[p]);
    lemma_reduce_results(j.reducer, fr, rts, parts);
    let out = red->Ok_0;
    let v = r->Ok_0;
    assert(is_key_sort_of(v@, out));
    // Key order.
    let vv = pair_views(v@);
    assert forall|a: int, b: int| 0 <= a < b < vv.len() implies !key_lt(#[trigger] vv[b].0, #[trigger] vv[a].0) by {
        assert(vv[a].0 == v@[a].0@);
        assert(vv[b].0 == v@[b].0@);
    }
    // What comes out under each key.
    let f = |kk: Seq<char>| default_partition(kk, n);
    assert forall|k: Seq<char>| #[trigger] vv.filter(view_key(k)) == run_output_under(fm, fr, records, k) by {
        lemma_pair_views_filter(v@, k);
        lemma_pair_views_filter(out, k);
        assert(vv.filter(view_key(k)) == emit_partitions(fr, parts).filter(view_key(k)));
        assert forall|t: int| 0 <= t < pairs.len() implies assign[t] == f(#[trigger] pairs[t].0@) by {
            assert(assign[t] == default_partition(pairs[t].0@, n));
        }
        lemma_keyed_partitioning_groups_each_key(parts, pairs, assign, n, f, k);
        let q = f(k) as int;
        lemma_default_partition_deterministic_and_in_range(k, k, n);
        lemma_emit_partitions_key(fr, parts, q, k);
        let part = parts[q]@;
        let ts = tag_pairs(pairs, assign);
        assert(is_partition(part, ts, q as usize));
        lemma_key_values_views(pairs, k);
        if exists|t: int| 0 <= t < pairs.len() && (#[trigger] pairs[t]).0@ == k {
            let t = choose|t: int| 0 <= t < pairs.len() && (#[trigger] pairs[t]).0@ == k;
            assert(ms[t].0 == k);
            let i = choose|i: int|
                0 <= i < part.len() && (#[trigger] part[i]).0@ == k && part[i].1@ == key_values(pairs, k);
            assert forall|a: int, b: int| 0 <= a < b < part.len() implies (#[trigger] part[a]).0@
                != (#[trigger] part[b]).0@ by {
                assert(crate::shuffle::keys_increasing(part));
                assert(key_lt(part[a].0@, part[b].0@));
                lemma_key_lt_irreflexive(part[a].0@);
            }
            lemma_emit_entries_with_key(fr, part, i);
        } else {
            assert forall|t: int| !(0 <= t < ms.len() && (#[trigger] ms[t]).0 == k) by {
                if 0 <= t < ms.len() && ms[t].0 == k {
                    assert(pairs[t].0@ == k);
                }
            }
            assert forall|i: int| 0 <= i < part.len() implies (#[trigger] part[i]).0@ != k by {
                if part[i].0@ == k {
                    assert(part[i].1@ == bucket_values(ts, q as usize, k) && part[i].1@.len() > 0);
                    assert forall|t: int| 0 <= t < ts.len() implies !((#[trigger] ts[t]).0@ == k
                        && ts[t].1.1 == q as usize) by {
                        if ts[t].0@ == k {
                            assert(pairs[t].0@ == k);
                        }
                    }
                    lemma_bucket_empty(ts, q as usize, k);
                }
            }
            lemma_emit_entries_without_key(fr, part, k);
        }
    }
}

/// The result of a run does not depend on the worker counts or on the number of
/// reducers: for a mapper and a reducer that never fail and always do the same
/// for the same input, a reducer emitting only under the key it is given, and the
/// default partitioner, two runs over the same records whose jobs differ in those
/// counts give the same outputs, in the same order.
pub proof fn lemma_run_independent_of_reducer_count<M: Mapper, R: Reducer, P: Partitioner>(
    j1: JobView<M, R, P>,
    j2: JobView<M, R, P>,
    records: Seq<InputRecord>,
    r1: Result<Vec<(Key, Value)>, MapReduceError>,
    r2: Result<Vec<(Key, Value)>, MapReduceError>,
    fm: spec_fn(InputRecord) -> Seq<PairView>,
    fr: spec_fn(Seq<char>, Seq<Seq<char>>) -> Seq<PairView>,
)
    requires
        job_valid(j1),
        job_valid(j2),
        j1.mapper == j2.mapper,
        j1.reducer == j2.reducer,
        j1.partitioner is None,
        j2.partitioner is None,
        maps_as(j1.mapper, fm),
        reduces_as(j1.reducer, fr),
        run_allows(j1, records, r1),
        run_allows(j2, records, r2),
    ensures
        r1 matches Ok(v1) && r2 matches Ok(v2) && pair_views(v1@) == pair_views(v2@),
{
    lemma_run_output(j1, records, r1, fm, fr);
    lemma_run_output(j2, records, r2, fm, fr);
    let a = pair_views(r1->Ok_0@);
    let b = pair_views(r2->Ok_0@);
    assert forall|k: Seq<char>| #[trigger] a.filter(view_key(k)) == b.filter(view_key(k)) by {
        assert(a.filter(view_key(k)) == run_output_under(fm, fr, records, k));
        assert(b.filter(view_key(k)) == run_output_under(fm, fr, records, k));
    }
    lemma_sorted_determined_by_keys(a, b);
}

} // verus!
