//! The laws of the aggregation and of the renderer, each stated over the
//! mathematical values the executable functions are specified with.

use vstd::prelude::*;
use crate::aggregate::{
    aggregate_map, lemma_rep_count_le_len, lemma_rep_count_pos, lemma_wo_count_le_len,
    lemma_wo_count_pos, record_matches, rep_count, wo_count, wo_matches, Replacement,
    Replacements,
};
use crate::bucket::BucketKey;
use crate::classify::Classifier;
use crate::render::render_spec;
use crate::work_order::{id_map, ids_unique, lemma_id_map, lemma_resolve_ok, resolve_spec, WorkOrder};
use crate::aggregate::ConditionCodeRecord;

verus! {

/// Removing a record that no key counts leaves every count unchanged.
pub proof fn lemma_rep_count_skip_nonmatching<T, C: Classifier<T>>(
    m: Map<u64, WorkOrder>,
    fuel: nat,
    c: &C,
    recs: Seq<ConditionCodeRecord>,
    i: int,
    bucket: T,
    part: Seq<char>,
)
    requires
        0 <= i < recs.len(),
        !record_matches(m, fuel, c, recs[i], bucket, part),
    ensures
        rep_count(m, fuel, c, recs, bucket, part) == rep_count(
            m,
            fuel,
            c,
            recs.remove(i),
            bucket,
            part,
        ),
    decreases recs.len(),
{
    if i == recs.len() - 1 {
        assert(recs.remove(i) =~= recs.drop_last());
    } else {
        assert(recs.remove(i).drop_last() =~= recs.drop_last().remove(i));
        assert(recs.remove(i).last() == recs.last());
        assert(recs.drop_last()[i] == recs[i]);
        lemma_rep_count_skip_nonmatching(m, fuel, c, recs.drop_last(), i, bucket, part);
    }
}

/// A condition-code record whose resolved top-level ancestor the
/// classifier rejects contributes to no entry: aggregating with it and
/// without it yields the same map.
pub proof fn lemma_unclassified_contributes_nothing<T, C: Classifier<T>>(
    orders: Seq<WorkOrder>,
    c: &C,
    recs: Seq<ConditionCodeRecord>,
    i: int,
)
    requires
        0 <= i < recs.len(),
        resolve_spec(id_map(orders), recs[i].work_order, orders.len() as nat) is Ok,
        c.classify_spec(
            resolve_spec(id_map(orders), recs[i].work_order, orders.len() as nat)->Ok_0,
        ) is None,
    ensures
        aggregate_map(orders, c, recs) == aggregate_map::<T, C>(orders, c, recs.remove(i)),
{
    let m = id_map(orders);
    let fuel = orders.len() as nat;
    assert forall|b: T, pt: Seq<char>|
        #[trigger] rep_count(m, fuel, c, recs, b, pt) == rep_count(
        m,
        fuel,
        c,
        recs.remove(i),
        b,
        pt,
    ) by {
        assert(!record_matches(m, fuel, c, recs[i], b, pt));
        lemma_rep_count_skip_nonmatching(m, fuel, c, recs, i, b, pt);
    }
    assert(aggregate_map(orders, c, recs) =~= aggregate_map::<T, C>(orders, c, recs.remove(i)));
}

/// Removing one work order lowers a bucket's denominator by one exactly
/// when that work order counted toward it.
pub proof fn lemma_wo_count_remove<T, C: Classifier<T>>(
    c: &C,
    orders: Seq<WorkOrder>,
    i: int,
    bucket: T,
)
    requires
        0 <= i < orders.len(),
    ensures
        wo_count(c, orders, bucket) == wo_count(c, orders.remove(i), bucket) + (if wo_matches(
            c,
            orders[i],
            bucket,
        ) {
            1nat
        } else {
            0nat
        }),
    decreases orders.len(),
{
    if i == orders.len() - 1 {
        assert(orders.remove(i) =~= orders.drop_last());
    } else {
        assert(orders.remove(i).drop_last() =~= orders.drop_last().remove(i));
        assert(orders.remove(i).last() == orders.last());
        assert(orders.drop_last()[i] == orders[i]);
        lemma_wo_count_remove(c, orders.drop_last(), i, bucket);
    }
}

/// A top-level work order that classifies to a bucket raises that
/// bucket's denominator exactly once, and the denominator of no other
/// bucket.
pub proof fn lemma_matching_wo_counts_once<T, C: Classifier<T>>(
    c: &C,
    orders: Seq<WorkOrder>,
    i: int,
    b: T,
)
    requires
        0 <= i < orders.len(),
        wo_matches(c, orders[i], b),
    ensures
        wo_count(c, orders, b) == wo_count(c, orders.remove(i), b) + 1,
        forall|b2: T|
            b2 != b ==> #[trigger] wo_count(c, orders, b2) == wo_count(c, orders.remove(i), b2),
{
    lemma_wo_count_remove(c, orders, i, b);
    assert forall|b2: T| b2 != b implies #[trigger] wo_count(c, orders, b2) == wo_count(
        c,
        orders.remove(i),
        b2,
    ) by {
        assert(!wo_matches(c, orders[i], b2));
        lemma_wo_count_remove(c, orders, i, b2);
    }
}

/// No two entries of a well-formed aggregation result share a key.
pub proof fn lemma_entries_uniquely_keyed<T>(r: &Replacements<T>)
    requires
        r.wf(),
    ensures
        forall|i: int, j: int|
            0 <= i < j < r.entry_keys().len() ==> r.entry_keys()[i] != r.entry_keys()[j],
{
}

/// Aggregating the same store, records and classifier twice yields equal
/// mappings: the result is a function of the inputs alone.
pub proof fn lemma_aggregate_idempotent<T, C: Classifier<T>>(
    orders: Seq<WorkOrder>,
    c: &C,
    recs: Seq<ConditionCodeRecord>,
    r1: Map<(T, Seq<char>), Replacement>,
    r2: Map<(T, Seq<char>), Replacement>,
)
    requires
        r1 == aggregate_map(orders, c, recs),
        r2 == aggregate_map(orders, c, recs),
    ensures
        r1 == r2,
{
}

/// Rendering is deterministic: renderings of equal aggregation results
/// are identical texts.
pub proof fn lemma_render_deterministic<T: BucketKey>(
    m1: Map<(T, Seq<char>), Replacement>,
    m2: Map<(T, Seq<char>), Replacement>,
    s1: Seq<char>,
    s2: Seq<char>,
)
    requires
        m1 == m2,
        s1 == render_spec(m1),
        s2 == render_spec(m2),
    ensures
        s1 == s2,
{
}

/// An entry exists only because some record was counted under it, and the
/// work order that record resolved to is itself counted in pass two: a
/// populated entry never has a zero work-order count.
pub proof fn lemma_no_orphan_rows<T, C: Classifier<T>>(
    orders: Seq<WorkOrder>,
    c: &C,
    recs: Seq<ConditionCodeRecord>,
    k: (T, Seq<char>),
)
    requires
        ids_unique(orders),
        orders.len() <= u64::MAX,
        recs.len() <= u64::MAX,
        aggregate_map(orders, c, recs).contains_key(k),
    ensures
        aggregate_map(orders, c, recs)[k].replacements >= 1,
        aggregate_map(orders, c, recs)[k].work_order_count >= 1,
{
    let m = id_map(orders);
    let fuel = orders.len() as nat;
    assert(rep_count(m, fuel, c, recs, k.0, k.1) > 0);
    lemma_rep_count_le_len(m, fuel, c, recs, k.0, k.1);
    lemma_rep_count_pos(m, fuel, c, recs, k.0, k.1);
    let i = choose|i: int|
        0 <= i < recs.len() && record_matches(m, fuel, c, #[trigger] recs[i], k.0, k.1);
    lemma_resolve_ok(m, recs[i].work_order, fuel);
    let w = resolve_spec(m, recs[i].work_order, fuel)->Ok_0;
    let wid = choose|wid: u64| #[trigger] m.contains_key(wid) && m[wid] == w;
    lemma_id_map(orders);
    let j = choose|j: int| 0 <= j < orders.len() && #[trigger] orders[j].id == wid;
    assert(m[orders[j].id] == orders[j]);
    assert(orders[j] == w);
    assert(wo_matches(c, orders[j], k.0));
    lemma_wo_count_pos(c, orders, k.0, j);
    lemma_wo_count_le_len(c, orders, k.0);
    assert(aggregate_map(orders, c, recs)[k].replacements == rep_count(
        m,
        fuel,
        c,
        recs,
        k.0,
        k.1,
    ) as u64);
    assert(aggregate_map(orders, c, recs)[k].work_order_count == wo_count(c, orders, k.0) as u64);
}

} // verus!
