//! Grouping of intermediate pairs into reducer partitions.
//!
//! Each intermediate pair is tagged with the partition it was assigned to; a
//! partition lists, in increasing key order, every key tagged for it, each with
//! the values of that key tagged for it, in the order they came in.

use vstd::prelude::*;

use crate::order::{has_key, sort_by_key, sorted_by_key};
use crate::record::{Key, Value};
use crate::text::{
    key_le, key_lt, lemma_key_lt_irreflexive, lemma_key_lt_total,
    lemma_key_lt_transitive,
};

verus! {

broadcast use vstd::seq_lib::group_seq_properties;

/// An intermediate pair together with the partition it was assigned to.
pub type Tagged = (Key, (Value, usize));

/// The grouped form of one partition: keys with their values.
pub type Partition = Vec<(Key, Vec<Value>)>;

pub open spec fn has_tag(p: usize) -> spec_fn(Tagged) -> bool {
    |e: Tagged| e.1.1 == p
}

pub open spec fn tagged_value(e: Tagged) -> Value {
    e.1.0
}

/// The values of key `k` tagged for partition `p`, in order.
pub open spec fn bucket_values(ts: Seq<Tagged>, p: usize, k: Seq<char>) -> Seq<Value> {
    ts.filter(has_key::<(Value, usize)>(k)).filter(has_tag(p)).map_values(
        |e: Tagged| tagged_value(e),
    )
}

/// Pairs tagged with their assigned partitions.
pub open spec fn tag_pairs(pairs: Seq<(Key, Value)>, assign: Seq<usize>) -> Seq<Tagged> {
    Seq::new(pairs.len(), |i: int| (pairs[i].0, (pairs[i].1, assign[i])))
}

pub open spec fn keys_increasing(part: Seq<(Key, Vec<Value>)>) -> bool {
    forall|i: int, j: int|
        0 <= i < j < part.len() ==> key_lt(#[trigger] part[i].0@, #[trigger] part[j].0@)
}

/// `part` is partition `p` of the tagged pairs `ts`.
pub open spec fn is_partition(part: Seq<(Key, Vec<Value>)>, ts: Seq<Tagged>, p: usize) -> bool {
    &&& keys_increasing(part)
    &&& forall|i: int|
        0 <= i < part.len() ==> (#[trigger] part[i]).1@ == bucket_values(ts, p, part[i].0@)
            && part[i].1@.len() > 0
    &&& forall|t: int|
        0 <= t < ts.len() && ts[t].1.1 == p ==> exists|i: int|
            0 <= i < part.len() && (#[trigger] part[i]).0@ == (#[trigger] ts[t]).0@
}

/// `parts` are the `n` partitions of the tagged pairs `ts`.
pub open spec fn is_shuffle(parts: Seq<Partition>, ts: Seq<Tagged>, n: usize) -> bool {
    &&& parts.len() == n
    &&& forall|p: int| 0 <= p < n ==> is_partition(#[trigger] parts[p]@, ts, p as usize)
}

pub proof fn lemma_bucket_push(s: Seq<Tagged>, x: Tagged, p: usize, k: Seq<char>)
    ensures
        bucket_values(s.push(x), p, k) == if x.0@ == k && x.1.1 == p {
            bucket_values(s, p, k).push(x.1.0)
        } else {
            bucket_values(s, p, k)
        },
{
    let hk = has_key::<(Value, usize)>(k);
    let ht = has_tag(p);
    s.lemma_filter_push(x, hk);
    if hk(x) {
        s.filter(hk).lemma_filter_push(x, ht);
        if ht(x) {
            let f = |e: Tagged| tagged_value(e);
            assert(s.filter(hk).filter(ht).push(x).map_values(f) =~= s.filter(hk).filter(
                ht,
            ).map_values(f).push(x.1.0));
        }
    }
}

/// A bucket is empty when no pair of its key is tagged for its partition.
pub proof fn lemma_bucket_empty(s: Seq<Tagged>, p: usize, k: Seq<char>)
    requires
        forall|t: int| 0 <= t < s.len() ==> !((#[trigger] s[t]).0@ == k && s[t].1.1 == p),
    ensures
        bucket_values(s, p, k).len() == 0,
{
    let hk = has_key::<(Value, usize)>(k);
    let ht = has_tag(p);
    if s.filter(hk).filter(ht).len() > 0 {
        let e = s.filter(hk).filter(ht)[0];
        s.filter(hk).lemma_filter_pred(ht, 0);
        assert(s.filter(hk).filter(ht).contains(e));
        s.filter(hk).lemma_filter_contains_rev(ht, e);
        let i = choose|i: int| 0 <= i < s.filter(hk).len() && s.filter(hk)[i] == e;
        s.lemma_filter_pred(hk, i);
        s.lemma_filter_contains_rev(hk, e);
        let t = choose|t: int| 0 <= t < s.len() && s[t] == e;
        assert(s[t].0@ == k && s[t].1.1 == p);
    }
}

/// A pair tagged for another partition leaves partition `p` as it was.
proof fn lemma_step_other(part: Seq<(Key, Vec<Value>)>, s: Seq<Tagged>, x: Tagged, p: usize)
    requires
        is_partition(part, s, p),
        x.1.1 != p,
    ensures
        is_partition(part, s.push(x), p),
{
    let s2 = s.push(x);
    assert forall|i: int| 0 <= i < part.len() implies (#[trigger] part[i]).1@ == bucket_values(
        s2,
        p,
        part[i].0@,
    ) && part[i].1@.len() > 0 by {
        lemma_bucket_push(s, x, p, part[i].0@);
    }
    assert forall|t: int| 0 <= t < s2.len() && s2[t].1.1 == p implies exists|i: int|
        0 <= i < part.len() && (#[trigger] part[i]).0@ == (#[trigger] s2[t]).0@ by {
        assert(s2[t] == s[t]);
    }
}

/// A pair whose key is the last key of its partition joins that key's values.
proof fn lemma_step_append(
    part: Seq<(Key, Vec<Value>)>,
    new_part: Seq<(Key, Vec<Value>)>,
    s: Seq<Tagged>,
    x: Tagged,
    p: usize,
)
    requires
        is_partition(part, s, p),
        x.1.1 == p,
        part.len() > 0,
        part.last().0@ == x.0@,
        new_part.len() == part.len(),
        forall|i: int| 0 <= i < part.len() - 1 ==> new_part[i] == part[i],
        new_part.last().0 == part.last().0,
        new_part.last().1@ == part.last().1@.push(x.1.0),
    ensures
        is_partition(new_part, s.push(x), p),
{
    let s2 = s.push(x);
    let last = part.len() - 1;
    assert forall|i: int, j: int| 0 <= i < j < new_part.len() implies key_lt(
        #[trigger] new_part[i].0@,
        #[trigger] new_part[j].0@,
    ) by {
        assert(key_lt(part[i].0@, part[j].0@));
    }
    assert forall|i: int| 0 <= i < new_part.len() implies (#[trigger] new_part[i]).1@
        == bucket_values(s2, p, new_part[i].0@) && new_part[i].1@.len() > 0 by {
        lemma_bucket_push(s, x, p, new_part[i].0@);
        if i < last {
            assert(key_lt(part[i].0@, part[last].0@));
            lemma_key_lt_irreflexive(part[i].0@);
        }
    }
    assert forall|t: int| 0 <= t < s2.len() && s2[t].1.1 == p implies exists|i: int|
        0 <= i < new_part.len() && (#[trigger] new_part[i]).0@ == (#[trigger] s2[t]).0@ by {
        if t < s.len() {
            assert(s2[t] == s[t]);
            let i = choose|i: int| 0 <= i < part.len() && (#[trigger] part[i]).0@ == s[t].0@;
            assert(new_part[i].0@ == part[i].0@);
        } else {
            assert(new_part[last].0@ == s2[t].0@);
        }
    }
}

/// A pair whose key is beyond every key of its partition opens a new entry.
proof fn lemma_step_new(
    part: Seq<(Key, Vec<Value>)>,
    new_part: Seq<(Key, Vec<Value>)>,
    s: Seq<Tagged>,
    x: Tagged,
    p: usize,
)
    requires
        is_partition(part, s, p),
        x.1.1 == p,
        forall|i: int| 0 <= i < part.len() ==> key_le(#[trigger] part[i].0@, x.0@),
        part.len() == 0 || part.last().0@ != x.0@,
        new_part.len() == part.len() + 1,
        forall|i: int| 0 <= i < part.len() ==> new_part[i] == part[i],
        new_part.last().0 == x.0,
        new_part.last().1@ == seq![x.1.0],
    ensures
        is_partition(new_part, s.push(x), p),
{
    let s2 = s.push(x);
    let n = part.len() as int;
    assert forall|i: int| 0 <= i < n implies key_lt(#[trigger] part[i].0@, x.0@) by {
        if i < n - 1 {
            assert(key_lt(part[i].0@, part[n - 1].0@));
            lemma_key_lt_transitive(part[i].0@, part[n - 1].0@, x.0@);
        }
    }
    assert forall|i: int| 0 <= i < n implies part[i].0@ != x.0@ by {
        assert(key_lt(part[i].0@, x.0@));
        lemma_key_lt_irreflexive(x.0@);
    }
    assert forall|i: int, j: int| 0 <= i < j < new_part.len() implies key_lt(
        #[trigger] new_part[i].0@,
        #[trigger] new_part[j].0@,
    ) by {
        if j < n {
            assert(key_lt(part[i].0@, part[j].0@));
        } else {
            assert(key_lt(part[i].0@, x.0@));
        }
    }
    assert forall|t: int| 0 <= t < s.len() implies !((#[trigger] s[t]).0@ == x.0@ && s[t].1.1
        == p) by {
        if s[t].0@ == x.0@ && s[t].1.1 == p {
            let i = choose|i: int| 0 <= i < part.len() && (#[trigger] part[i]).0@ == s[t].0@;
            assert(part[i].0@ != x.0@);
        }
    }
    lemma_bucket_empty(s, p, x.0@);
    assert forall|i: int| 0 <= i < new_part.len() implies (#[trigger] new_part[i]).1@
        == bucket_values(s2, p, new_part[i].0@) && new_part[i].1@.len() > 0 by {
        lemma_bucket_push(s, x, p, new_part[i].0@);
        if i < n {
            assert(new_part[i] == part[i]);
            assert(part[i].0@ != x.0@);
        } else {
            assert(bucket_values(s, p, x.0@) =~= Seq::<Value>::empty());
            assert(seq![x.1.0] =~= Seq::<Value>::empty().push(x.1.0));
        }
    }
    assert forall|t: int| 0 <= t < s2.len() && s2[t].1.1 == p implies exists|i: int|
        0 <= i < new_part.len() && (#[trigger] new_part[i]).0@ == (#[trigger] s2[t]).0@ by {
        if t < s.len() {
            assert(s2[t] == s[t]);
            let i = choose|i: int| 0 <= i < part.len() && (#[trigger] part[i]).0@ == s[t].0@;
            assert(new_part[i] == part[i]);
        } else {
            assert(new_part[n as int].0@ == s2[t].0@);
        }
    }
}

/// A partition depends on the tagged pairs only through each key's pairs in order.
proof fn lemma_partition_transfer(
    part: Seq<(Key, Vec<Value>)>,
    s1: Seq<Tagged>,
    s2: Seq<Tagged>,
    p: usize,
)
    requires
        is_partition(part, s1, p),
        forall|k: Seq<char>| #[trigger]
            s1.filter(has_key::<(Value, usize)>(k)) == s2.filter(has_key::<(Value, usize)>(k)),
    ensures
        is_partition(part, s2, p),
{
    assert forall|i: int| 0 <= i < part.len() implies (#[trigger] part[i]).1@ == bucket_values(
        s2,
        p,
        part[i].0@,
    ) && part[i].1@.len() > 0 by {
        assert(s1.filter(has_key::<(Value, usize)>(part[i].0@)) == s2.filter(
            has_key::<(Value, usize)>(part[i].0@),
        ));
    }
    assert forall|t: int| 0 <= t < s2.len() && s2[t].1.1 == p implies exists|i: int|
        0 <= i < part.len() && (#[trigger] part[i]).0@ == (#[trigger] s2[t]).0@ by {
        let e = s2[t];
        let hk = has_key::<(Value, usize)>(e.0@);
        s2.lemma_filter_contains(hk, t);
        assert(s1.filter(hk) == s2.filter(hk));
        s1.lemma_filter_contains_rev(hk, e);
        let u = choose|u: int| 0 <= u < s1.len() && s1[u] == e;
        assert(s1[u].1.1 == p);
        let i = choose|i: int| 0 <= i < part.len() && (#[trigger] part[i]).0@ == s1[u].0@;
    }
}

/// The values of key `k` among the pairs, in order.
pub open spec fn key_values(pairs: Seq<(Key, Value)>, k: Seq<char>) -> Seq<Value> {
    pairs.filter(has_key::<Value>(k)).map_values(|e: (Key, Value)| e.1)
}

proof fn lemma_tagged_key_values(pairs: Seq<(Key, Value)>, assign: Seq<usize>, k: Seq<char>)
    requires
        assign.len() == pairs.len(),
    ensures
        tag_pairs(pairs, assign).filter(has_key::<(Value, usize)>(k)).map_values(
            |e: Tagged| tagged_value(e),
        ) == key_values(pairs, k),
    decreases pairs.len(),
{
    let ts = tag_pairs(pairs, assign);
    let hk = has_key::<(Value, usize)>(k);
    let hk2 = has_key::<Value>(k);
    let f = |e: Tagged| tagged_value(e);
    let g = |e: (Key, Value)| e.1;
    if pairs.len() == 0 {
        assert(ts =~= Seq::<Tagged>::empty());
        reveal(Seq::filter);
        assert(ts.filter(hk).map_values(f) =~= key_values(pairs, k));
    } else {
        let pl = pairs.drop_last();
        let al = assign.drop_last();
        lemma_tagged_key_values(pl, al, k);
        let tl = tag_pairs(pl, al);
        assert(ts =~= tl.push(ts.last()));
        assert(pairs =~= pl.push(pairs.last()));
        tl.lemma_filter_push(ts.last(), hk);
        pl.lemma_filter_push(pairs.last(), hk2);
        if hk2(pairs.last()) {
            assert(tl.filter(hk).push(ts.last()).map_values(f) =~= tl.filter(hk).map_values(
                f,
            ).push(pairs.last().1));
            assert(pl.filter(hk2).push(pairs.last()).map_values(g) =~= pl.filter(
                hk2,
            ).map_values(g).push(pairs.last().1));
        }
    }
}

proof fn lemma_filter_all(s: Seq<Tagged>, pred: spec_fn(Tagged) -> bool)
    requires
        forall|i: int| 0 <= i < s.len() ==> pred(#[trigger] s[i]),
    ensures
        s.filter(pred) == s,
    decreases s.len(),
{
    reveal(Seq::filter);
    if s.len() > 0 {
        lemma_filter_all(s.drop_last(), pred);
        assert(s.drop_last().push(s.last()) =~= s);
    } else {
        assert(s.filter(pred) =~= s);
    }
}

/// When the partition of every pair is a function `f` of its key, each key lands in
/// partition `f(k)` alone, and there it is listed with all of its values in the
/// order in which they came.
pub proof fn lemma_keyed_partitioning_groups_each_key(
    parts: Seq<Partition>,
    pairs: Seq<(Key, Value)>,
    assign: Seq<usize>,
    n: usize,
    f: spec_fn(Seq<char>) -> usize,
    k: Seq<char>,
)
    requires
        is_shuffle(parts, tag_pairs(pairs, assign), n),
        assign.len() == pairs.len(),
        forall|t: int| 0 <= t < pairs.len() ==> assign[t] < n,
        forall|t: int| 0 <= t < pairs.len() ==> assign[t] == f(#[trigger] pairs[t].0@),
    ensures
        (exists|t: int| 0 <= t < pairs.len() && (#[trigger] pairs[t]).0@ == k) ==> exists|i: int|
            0 <= i < parts[f(k) as int]@.len() && (#[trigger] parts[f(k) as int]@[i]).0@ == k
                && parts[f(k) as int]@[i].1@ == key_values(pairs, k),
        forall|p: int, i: int|
            0 <= p < n && p != f(k) && 0 <= i < parts[p]@.len() ==> (#[trigger] parts[p]@[i]).0@
                != k,
{
    let ts = tag_pairs(pairs, assign);
    let hk = has_key::<(Value, usize)>(k);
    assert forall|i: int| 0 <= i < ts.filter(hk).len() implies (#[trigger] ts.filter(hk)[i]).1.1
        == f(k) by {
        let e = ts.filter(hk)[i];
        ts.lemma_filter_pred(hk, i);
        assert(ts.filter(hk).contains(e));
        ts.lemma_filter_contains_rev(hk, e);
        let t = choose|t: int| 0 <= t < ts.len() && ts[t] == e;
        assert(pairs[t].0@ == k);
    }
    lemma_filter_all(ts.filter(hk), has_tag(f(k)));
    lemma_tagged_key_values(pairs, assign, k);
    assert(bucket_values(ts, f(k), k) == key_values(pairs, k));
    if exists|t: int| 0 <= t < pairs.len() && (#[trigger] pairs[t]).0@ == k {
        let t = choose|t: int| 0 <= t < pairs.len() && (#[trigger] pairs[t]).0@ == k;
        assert(ts[t].0@ == k && ts[t].1.1 == f(k));
        assert(f(k) < n);
        let part = parts[f(k) as int]@;
        assert(is_partition(part, ts, f(k)));
        let i = choose|i: int| 0 <= i < part.len() && (#[trigger] part[i]).0@ == ts[t].0@;
        assert(part[i].1@ == bucket_values(ts, f(k), k));
    }
    assert forall|p: int, i: int|
        0 <= p < n && p != f(k) && 0 <= i < parts[p]@.len() implies (#[trigger] parts[p]@[i]).0@
        != k by {
        if parts[p]@[i].0@ == k {
            assert(is_partition(parts[p]@, ts, p as usize));
            assert(parts[p]@[i].1@.len() > 0);
            if forall|t: int| 0 <= t < ts.len() ==> !((#[trigger] ts[t]).0@ == k && ts[t].1.1
                == p as usize) {
                lemma_bucket_empty(ts, p as usize, k);
            }
            let t = choose|t: int| 0 <= t < ts.len() && ((#[trigger] ts[t]).0@ == k && ts[t].1.1
                == p as usize);
            assert(pairs[t].0@ == k);
        }
    }
}

/// The number of values listed in a partition.
pub open spec fn values_count(part: Seq<(Key, Vec<Value>)>) -> nat
    decreases part.len(),
{
    if part.len() == 0 {
        0
    } else {
        values_count(part.drop_last()) + part.last().1@.len()
    }
}

/// The number of values listed in all partitions.
pub open spec fn total_values(parts: Seq<Partition>) -> nat
    decreases parts.len(),
{
    if parts.len() == 0 {
        0
    } else {
        total_values(parts.drop_last()) + values_count(parts.last()@)
    }
}

spec fn keys_of(part: Seq<(Key, Vec<Value>)>) -> Seq<Seq<char>> {
    part.map_values(|e: (Key, Vec<Value>)| e.0@)
}

spec fn bucket_sum(ts: Seq<Tagged>, p: usize, ks: Seq<Seq<char>>) -> nat
    decreases ks.len(),
{
    if ks.len() == 0 {
        0
    } else {
        bucket_sum(ts, p, ks.drop_last()) + bucket_values(ts, p, ks.last()).len()
    }
}

spec fn in_keys(p: usize, ks: Seq<Seq<char>>) -> spec_fn(Tagged) -> bool {
    |e: Tagged| e.1.1 == p && ks.contains(e.0@)
}

spec fn tag_count_sum(ts: Seq<Tagged>, m: nat) -> nat
    decreases m,
{
    if m == 0 {
        0
    } else {
        tag_count_sum(ts, (m - 1) as nat) + ts.filter(has_tag((m - 1) as usize)).len()
    }
}

proof fn lemma_values_count_is_bucket_sum(part: Seq<(Key, Vec<Value>)>, ts: Seq<Tagged>, p: usize)
    requires
        forall|i: int|
            0 <= i < part.len() ==> (#[trigger] part[i]).1@ == bucket_values(ts, p, part[i].0@),
    ensures
        values_count(part) == bucket_sum(ts, p, keys_of(part)),
    decreases part.len(),
{
    if part.len() > 0 {
        let rest = part.drop_last();
        assert forall|i: int| 0 <= i < rest.len() implies (#[trigger] rest[i]).1@ == bucket_values(
            ts,
            p,
            rest[i].0@,
        ) by {
            assert(rest[i] == part[i]);
        }
        lemma_values_count_is_bucket_sum(rest, ts, p);
        assert(keys_of(part).drop_last() =~= keys_of(rest));
        assert(part.last() == part[part.len() - 1]);
    }
}

proof fn lemma_bucket_sum_push(ts: Seq<Tagged>, x: Tagged, p: usize, ks: Seq<Seq<char>>)
    requires
        ks.no_duplicates(),
    ensures
        bucket_sum(ts.push(x), p, ks) == bucket_sum(ts, p, ks) + if x.1.1 == p && ks.contains(
            x.0@,
        ) {
            1nat
        } else {
            0nat
        },
    decreases ks.len(),
{
    if ks.len() > 0 {
        let rest = ks.drop_last();
        assert(rest.no_duplicates());
        lemma_bucket_sum_push(ts, x, p, rest);
        lemma_bucket_push(ts, x, p, ks.last());
        if ks.contains(x.0@) {
            let i = choose|i: int| 0 <= i < ks.len() && ks[i] == x.0@;
            if i < ks.len() - 1 {
                assert(rest[i] == x.0@);
                assert(ks.last() != x.0@);
            } else if rest.contains(x.0@) {
                let j = choose|j: int| 0 <= j < rest.len() && rest[j] == x.0@;
                assert(ks[j] == ks[ks.len() - 1]);
            }
        } else {
            assert(!rest.contains(x.0@)) by {
                if rest.contains(x.0@) {
                    let j = choose|j: int| 0 <= j < rest.len() && rest[j] == x.0@;
                    assert(ks[j] == x.0@);
                }
            }
            assert(ks.last() != x.0@);
        }
    }
}

proof fn lemma_bucket_sum_counts(ts: Seq<Tagged>, p: usize, ks: Seq<Seq<char>>)
    requires
        ks.no_duplicates(),
    ensures
        bucket_sum(ts, p, ks) == ts.filter(in_keys(p, ks)).len(),
    decreases ts.len(),
{
    if ts.len() == 0 {
        lemma_bucket_sum_of_nothing(ts, p, ks);
        reveal(Seq::filter);
    } else {
        let rest = ts.drop_last();
        lemma_bucket_sum_counts(rest, p, ks);
        assert(rest.push(ts.last()) =~= ts);
        lemma_bucket_sum_push(rest, ts.last(), p, ks);
        rest.lemma_filter_push(ts.last(), in_keys(p, ks));
    }
}

proof fn lemma_bucket_sum_of_nothing(ts: Seq<Tagged>, p: usize, ks: Seq<Seq<char>>)
    requires
        ts.len() == 0,
    ensures
        bucket_sum(ts, p, ks) == 0,
    decreases ks.len(),
{
    if ks.len() > 0 {
        lemma_bucket_sum_of_nothing(ts, p, ks.drop_last());
        lemma_bucket_empty(ts, p, ks.last());
    }
}

proof fn lemma_filter_same_on_elements(
    ts: Seq<Tagged>,
    f: spec_fn(Tagged) -> bool,
    g: spec_fn(Tagged) -> bool,
)
    requires
        forall|t: int| 0 <= t < ts.len() ==> f(#[trigger] ts[t]) == g(ts[t]),
    ensures
        ts.filter(f) == ts.filter(g),
    decreases ts.len(),
{
    reveal(Seq::filter);
    if ts.len() > 0 {
        let rest = ts.drop_last();
        assert forall|t: int| 0 <= t < rest.len() implies f(#[trigger] rest[t]) == g(rest[t]) by {
            assert(rest[t] == ts[t]);
        }
        lemma_filter_same_on_elements(rest, f, g);
        assert(ts.last() == ts[ts.len() - 1]);
    }
}

proof fn lemma_tag_count_sum_push(ts: Seq<Tagged>, x: Tagged, m: nat)
    requires
        m <= usize::MAX,
    ensures
        tag_count_sum(ts.push(x), m) == tag_count_sum(ts, m) + if x.1.1 < m {
            1nat
        } else {
            0nat
        },
    decreases m,
{
    if m > 0 {
        lemma_tag_count_sum_push(ts, x, (m - 1) as nat);
        ts.lemma_filter_push(x, has_tag((m - 1) as usize));
    }
}

proof fn lemma_tag_count_sum_total(ts: Seq<Tagged>, n: usize)
    requires
        forall|t: int| 0 <= t < ts.len() ==> (#[trigger] ts[t]).1.1 < n,
    ensures
        tag_count_sum(ts, n as nat) == ts.len(),
    decreases ts.len(),
{
    if ts.len() == 0 {
        lemma_tag_count_sum_of_nothing(ts, n as nat);
    } else {
        let rest = ts.drop_last();
        assert forall|t: int| 0 <= t < rest.len() implies (#[trigger] rest[t]).1.1 < n by {
            assert(rest[t] == ts[t]);
        }
        lemma_tag_count_sum_total(rest, n);
        assert(rest.push(ts.last()) =~= ts);
        assert(ts.last() == ts[ts.len() - 1]);
        lemma_tag_count_sum_push(rest, ts.last(), n as nat);
    }
}

proof fn lemma_tag_count_sum_of_nothing(ts: Seq<Tagged>, m: nat)
    requires
        ts.len() == 0,
    ensures
        tag_count_sum(ts, m) == 0,
    decreases m,
{
    reveal(Seq::filter);
    if m > 0 {
        lemma_tag_count_sum_of_nothing(ts, (m - 1) as nat);
    }
}

/// A partition lists exactly the values tagged for it.
proof fn lemma_partition_count(part: Seq<(Key, Vec<Value>)>, ts: Seq<Tagged>, p: usize)
    requires
        is_partition(part, ts, p),
    ensures
        values_count(part) == ts.filter(has_tag(p)).len(),
{
    lemma_values_count_is_bucket_sum(part, ts, p);
    let ks = keys_of(part);
    assert forall|i: int, j: int| 0 <= i < ks.len() && 0 <= j < ks.len() && i != j implies ks[i]
        != ks[j] by {
        if i < j {
            assert(key_lt(part[i].0@, part[j].0@));
            lemma_key_lt_irreflexive(part[i].0@);
        } else {
            assert(key_lt(part[j].0@, part[i].0@));
            lemma_key_lt_irreflexive(part[j].0@);
        }
    }
    lemma_bucket_sum_counts(ts, p, ks);
    assert forall|t: int| 0 <= t < ts.len() implies in_keys(p, ks)(#[trigger] ts[t]) == has_tag(p)(
        ts[t],
    ) by {
        if ts[t].1.1 == p {
            let i = choose|i: int| 0 <= i < part.len() && (#[trigger] part[i]).0@ == ts[t].0@;
            assert(ks[i] == ts[t].0@);
        }
    }
    lemma_filter_same_on_elements(ts, in_keys(p, ks), has_tag(p));
}

/// Shuffling neither loses nor duplicates a value: the partitions together list
/// exactly as many values as there were intermediate pairs.
pub proof fn lemma_shuffle_keeps_every_value(
    parts: Seq<Partition>,
    pairs: Seq<(Key, Value)>,
    assign: Seq<usize>,
    n: usize,
)
    requires
        is_shuffle(parts, tag_pairs(pairs, assign), n),
        assign.len() == pairs.len(),
        forall|t: int| 0 <= t < pairs.len() ==> assign[t] < n,
    ensures
        total_values(parts) == pairs.len(),
{
    let ts = tag_pairs(pairs, assign);
    assert forall|t: int| 0 <= t < ts.len() implies (#[trigger] ts[t]).1.1 < n by {}
    lemma_tag_count_sum_total(ts, n);
    lemma_total_values_prefix(parts, ts, n, n as nat);
    assert(parts.take(n as int) =~= parts);
}

proof fn lemma_total_values_prefix(parts: Seq<Partition>, ts: Seq<Tagged>, n: usize, m: nat)
    requires
        is_shuffle(parts, ts, n),
        m <= n,
    ensures
        total_values(parts.take(m as int)) == tag_count_sum(ts, m),
    decreases m,
{
    if m > 0 {
        lemma_total_values_prefix(parts, ts, n, (m - 1) as nat);
        assert(parts.take(m as int).drop_last() =~= parts.take(m - 1));
        lemma_partition_count(parts[m - 1]@, ts, (m - 1) as usize);
    }
}

/// Groups intermediate pairs into `num_partitions` partitions, pair `i` going to
/// partition `assignments[i]`.
pub fn group_into_partitions(
    intermediate: Vec<(Key, Value)>,
    assignments: Vec<usize>,
    num_partitions: usize,
) -> (parts: Vec<Partition>)
    requires
        assignments.len() == intermediate.len(),
        forall|i: int| 0 <= i < assignments.len() ==> assignments[i] < num_partitions,
    ensures
        is_shuffle(parts@, tag_pairs(intermediate@, assignments@), num_partitions),
{
    let ghost ts = tag_pairs(intermediate@, assignments@);
    let mut tagged: Vec<Tagged> = Vec::new();
    let mut i: usize = 0;
    for pair in it: intermediate.into_iter()
        invariant
            it.seq() == intermediate@,
            i == it.index(),
            assignments.len() == intermediate.len(),
            ts == tag_pairs(intermediate@, assignments@),
            tagged@ == ts.take(i as int),
    {
        tagged.push((pair.0, (pair.1, assignments[i])));
        i = i + 1;
        assert(tagged@ =~= ts.take(i as int));
    }
    assert(tagged@ =~= ts);
    sort_by_key(&mut tagged);
    let ghost srt = tagged@;
    assert(srt.len() <= usize::MAX);
    assert forall|t: int| 0 <= t < srt.len() implies (#[trigger] srt[t]).1.1 < num_partitions by {
        let hk = has_key::<(Value, usize)>(srt[t].0@);
        srt.lemma_filter_contains(hk, t);
        ts.lemma_filter_contains_rev(hk, srt[t]);
    }
    let mut parts: Vec<Partition> = Vec::new();
    let mut q: usize = 0;
    while q < num_partitions
        invariant
            q <= num_partitions,
            parts@.len() == q,
            forall|p: int| 0 <= p < q ==> (#[trigger] parts@[p])@.len() == 0,
        decreases num_partitions - q,
    {
        parts.push(Vec::new());
        q = q + 1;
    }
    assert forall|p: int| 0 <= p < num_partitions implies is_partition(
        #[trigger] parts@[p]@,
        srt.take(0),
        p as usize,
    ) by {}
    let mut j: usize = 0;
    for x in it: tagged.into_iter()
        invariant
            it.seq() == srt,
            j == it.index(),
            j <= srt.len(),
            srt.len() <= usize::MAX,
            forall|t: int| 0 <= t < srt.len() ==> (#[trigger] srt[t]).1.1 < num_partitions,
            sorted_by_key(srt),
            parts@.len() == num_partitions,
            forall|p: int|
                0 <= p < num_partitions ==> is_partition(
                    #[trigger] parts@[p]@,
                    srt.take(j as int),
                    p as usize,
                ),
            forall|p: int, e: int, u: int|
                0 <= p < num_partitions && 0 <= e < parts@[p]@.len() && j <= u < srt.len()
                    ==> key_le(#[trigger] parts@[p]@[e].0@, #[trigger] srt[u].0@),
    {
        let ghost old_parts = parts@;
        let ghost s = srt.take(j as int);
        assert(x == srt[j as int]);
        assert(srt.take(j + 1) =~= s.push(x));
        let (key, (value, p)) = x;
        let n = parts[p].len();
        let joins = n > 0 && parts[p][n - 1].0 == key;
        if joins {
            parts[p][n - 1].1.push(value);
            proof {
                lemma_step_append(old_parts[p as int]@, parts@[p as int]@, s, x, p);
            }
        } else {
            let mut vals: Vec<Value> = Vec::new();
            vals.push(value);
            parts[p].push((key, vals));
            proof {
                assert forall|e: int| 0 <= e < old_parts[p as int]@.len() implies key_le(
                    #[trigger] old_parts[p as int]@[e].0@,
                    x.0@,
                ) by {
                    assert(key_le(old_parts[p as int]@[e].0@, srt[j as int].0@));
                }
                lemma_step_new(old_parts[p as int]@, parts@[p as int]@, s, x, p);
            }
        }
        proof {
            assert forall|r: int| 0 <= r < num_partitions implies is_partition(
                #[trigger] parts@[r]@,
                srt.take(j + 1),
                r as usize,
            ) by {
                if r != p {
                    assert(parts@[r] == old_parts[r]);
                    lemma_step_other(old_parts[r]@, s, x, r as usize);
                }
            }
            assert forall|r: int, e: int, u: int|
                0 <= r < num_partitions && 0 <= e < parts@[r]@.len() && j + 1 <= u < srt.len()
                    implies key_le(#[trigger] parts@[r]@[e].0@, #[trigger] srt[u].0@) by {
                if r == p && e == parts@[r]@.len() - 1 {
                    assert(parts@[r]@[e].0@ == srt[j as int].0@);
                    assert(!key_lt(srt[u].0@, srt[j as int].0@));
                    lemma_key_lt_total(srt[j as int].0@, srt[u].0@);
                } else {
                    assert(parts@[r]@[e] == old_parts[r]@[e]);
                }
            }
        }
        j = j + 1;
    }
    assert(srt.take(srt.len() as int) =~= srt);
    assert forall|p: int| 0 <= p < num_partitions implies is_partition(
        #[trigger] parts@[p]@,
        ts,
        p as usize,
    ) by {
        lemma_partition_transfer(parts@[p]@, srt, ts, p as usize);
    }
    parts
}

} // verus!
