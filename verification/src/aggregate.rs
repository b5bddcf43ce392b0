//! The replacement aggregator: a two-pass count that joins condition-code
//! (part-replacement) records against matching top-level work orders.
//!
//! Pass one resolves every record to the top-level ancestor of the work
//! order it names and, when the classifier assigns that ancestor a bucket,
//! counts the record under (bucket, part number), creating the entry on
//! first sight. Pass two runs strictly after pass one: for every top-level
//! work order that classifies to a bucket, it increments the work-order
//! count of every entry already keyed by that bucket — it never creates
//! rows, so a bucket no record was counted under never appears. A
//! resolution failure is surfaced to the caller rather than dropped, since
//! a silent drop would corrupt both counts.

use vstd::prelude::*;
use crate::bucket::BucketKey;
use crate::classify::Classifier;
use crate::strings::str_eq_exec;
use crate::work_order::{HierarchyError, WorkOrder, WorkOrderStore, id_map, resolve_spec};

verus! {

/// One observation that a part was replaced (or otherwise touched) on a
/// work order, which may be a child in the hierarchy.
#[derive(Debug, Clone)]
pub struct ConditionCodeRecord {
    /// Identifier of the work order the observation was made on.
    pub work_order: u64,
    /// The part that was touched: an opaque identifier.
    pub part_number: String,
    /// Why or how the part was touched: an opaque classifier.
    pub condition_code: String,
}

/// The key of one report row: a bucket together with a part number.
#[derive(Debug)]
pub struct ReplacementKey<T> {
    /// The bucket the classifier assigned.
    pub bucket: T,
    /// The part number.
    pub part: String,
}

/// The mathematical value of a replacement key.
pub open spec fn key_view<T>(k: ReplacementKey<T>) -> (T, Seq<char>) {
    (k.bucket, k.part@)
}

/// The two counters of one report row. Both grow monotonically during
/// aggregation and are never decremented.
#[derive(Debug, Clone, Copy, PartialEq, Eq, Structural)]
pub struct Replacement {
    /// How many condition-code records were counted under the key.
    pub replacements: u64,
    /// How many top-level work orders classify to the key's bucket.
    pub work_order_count: u64,
}

/// Whether a record is counted under (bucket, part): its work order must
/// resolve to a top-level ancestor that the classifier puts in `bucket`,
/// and it must name exactly `part`.
pub open spec fn record_matches<T, C: Classifier<T>>(
    m: Map<u64, WorkOrder>,
    fuel: nat,
    c: &C,
    rec: ConditionCodeRecord,
    bucket: T,
    part: Seq<char>,
) -> bool {
    &&& resolve_spec(m, rec.work_order, fuel) is Ok
    &&& c.classify_spec(resolve_spec(m, rec.work_order, fuel)->Ok_0) == Some(bucket)
    &&& rec.part_number@ == part
}

/// How many of the records are counted under (bucket, part). Every record
/// counts separately: there is no deduplication.
pub open spec fn rep_count<T, C: Classifier<T>>(
    m: Map<u64, WorkOrder>,
    fuel: nat,
    c: &C,
    recs: Seq<ConditionCodeRecord>,
    bucket: T,
    part: Seq<char>,
) -> nat
    decreases recs.len(),
{
    if recs.len() == 0 {
        0
    } else {
        rep_count(m, fuel, c, recs.drop_last(), bucket, part) + (if record_matches(
            m,
            fuel,
            c,
            recs.last(),
            bucket,
            part,
        ) {
            1nat
        } else {
            0nat
        })
    }
}

/// Whether a work order counts toward a bucket's denominator: it must be
/// top-level and the classifier must put it in the bucket.
pub open spec fn wo_matches<T, C: Classifier<T>>(c: &C, wo: WorkOrder, bucket: T) -> bool {
    wo.parent is None && c.classify_spec(wo) == Some(bucket)
}

/// How many of the work orders count toward a bucket's denominator.
pub open spec fn wo_count<T, C: Classifier<T>>(
    c: &C,
    orders: Seq<WorkOrder>,
    bucket: T,
) -> nat
    decreases orders.len(),
{
    if orders.len() == 0 {
        0
    } else {
        wo_count(c, orders.drop_last(), bucket) + (if wo_matches(c, orders.last(), bucket) {
            1nat
        } else {
            0nat
        })
    }
}

/// The failure of the first record, in list order, whose work order does
/// not resolve; nothing when every record resolves.
pub open spec fn first_error(
    m: Map<u64, WorkOrder>,
    fuel: nat,
    recs: Seq<ConditionCodeRecord>,
) -> Option<HierarchyError>
    decreases recs.len(),
{
    if recs.len() == 0 {
        None
    } else {
        match first_error(m, fuel, recs.drop_last()) {
            Some(e) => Some(e),
            None => match resolve_spec(m, recs.last().work_order, fuel) {
                Ok(_) => None,
                Err(e) => Some(e),
            },
        }
    }
}

/// The aggregation as one mathematical map: an entry for every
/// (bucket, part) some record was counted under, carrying that count and
/// the bucket's work-order count.
pub open spec fn aggregate_map<T, C: Classifier<T>>(
    orders: Seq<WorkOrder>,
    c: &C,
    recs: Seq<ConditionCodeRecord>,
) -> Map<(T, Seq<char>), Replacement> {
    Map::new(
        |k: (T, Seq<char>)| rep_count(id_map(orders), orders.len() as nat, c, recs, k.0, k.1) > 0,
        |k: (T, Seq<char>)| Replacement {
            replacements: rep_count(id_map(orders), orders.len() as nat, c, recs, k.0, k.1) as u64,
            work_order_count: wo_count(c, orders, k.0) as u64,
        },
    )
}

/// No key is counted under more often than there are records.
pub proof fn lemma_rep_count_le_len<T, C: Classifier<T>>(
    m: Map<u64, WorkOrder>,
    fuel: nat,
    c: &C,
    recs: Seq<ConditionCodeRecord>,
    bucket: T,
    part: Seq<char>,
)
    ensures
        rep_count(m, fuel, c, recs, bucket, part) <= recs.len(),
    decreases recs.len(),
{
    if recs.len() > 0 {
        lemma_rep_count_le_len(m, fuel, c, recs.drop_last(), bucket, part);
    }
}

/// No bucket counts more work orders than the store holds.
pub proof fn lemma_wo_count_le_len<T, C: Classifier<T>>(
    c: &C,
    orders: Seq<WorkOrder>,
    bucket: T,
)
    ensures
        wo_count(c, orders, bucket) <= orders.len(),
    decreases orders.len(),
{
    if orders.len() > 0 {
        lemma_wo_count_le_len(c, orders.drop_last(), bucket);
    }
}

/// A key counted under at least once was matched by some record.
pub proof fn lemma_rep_count_pos<T, C: Classifier<T>>(
    m: Map<u64, WorkOrder>,
    fuel: nat,
    c: &C,
    recs: Seq<ConditionCodeRecord>,
    bucket: T,
    part: Seq<char>,
)
    requires
        rep_count(m, fuel, c, recs, bucket, part) > 0,
    ensures
        exists|i: int|
            0 <= i < recs.len() && record_matches(m, fuel, c, #[trigger] recs[i], bucket, part),
    decreases recs.len(),
{
    if record_matches(m, fuel, c, recs.last(), bucket, part) {
        assert(recs[recs.len() - 1] == recs.last());
    } else {
        lemma_rep_count_pos(m, fuel, c, recs.drop_last(), bucket, part);
        let i = choose|i: int|
            0 <= i < recs.drop_last().len() && record_matches(
                m,
                fuel,
                c,
                #[trigger] recs.drop_last()[i],
                bucket,
                part,
            );
        assert(recs[i] == recs.drop_last()[i]);
    }
}

/// A bucket some work order matches counts at least that work order.
pub proof fn lemma_wo_count_pos<T, C: Classifier<T>>(
    c: &C,
    orders: Seq<WorkOrder>,
    bucket: T,
    i: int,
)
    requires
        0 <= i < orders.len(),
        wo_matches(c, orders[i], bucket),
    ensures
        wo_count(c, orders, bucket) > 0,
    decreases orders.len(),
{
    if i == orders.len() - 1 {
        assert(wo_matches(c, orders.last(), bucket));
    } else {
        assert(orders.drop_last()[i] == orders[i]);
        lemma_wo_count_pos(c, orders.drop_last(), bucket, i);
    }
}

/// The first failure of a record list whose prefix resolves and whose
/// record at `i` fails is that record's failure.
pub proof fn lemma_first_error_from(
    m: Map<u64, WorkOrder>,
    fuel: nat,
    recs: Seq<ConditionCodeRecord>,
    i: int,
)
    requires
        0 <= i < recs.len(),
        first_error(m, fuel, recs.subrange(0, i)) is None,
        resolve_spec(m, recs[i].work_order, fuel) is Err,
    ensures
        first_error(m, fuel, recs) == Some(resolve_spec(m, recs[i].work_order, fuel)->Err_0),
    decreases recs.len(),
{
    if i == recs.len() - 1 {
        assert(recs.drop_last() =~= recs.subrange(0, i));
        assert(recs.last() == recs[i]);
    } else {
        assert(recs.drop_last().subrange(0, i) =~= recs.subrange(0, i));
        assert(recs.drop_last()[i] == recs[i]);
        lemma_first_error_from(m, fuel, recs.drop_last(), i);
    }
}

/// The map an association list denotes.
pub open spec fn pairs_map<T>(
    ks: Seq<(T, Seq<char>)>,
    cs: Seq<Replacement>,
) -> Map<(T, Seq<char>), Replacement>
    decreases ks.len(),
{
    if ks.len() == 0 || cs.len() == 0 {
        Map::empty()
    } else {
        pairs_map(ks.drop_last(), cs.drop_last()).insert(ks.last(), cs.last())
    }
}

/// With as many counters as keys and no key repeated, the association list
/// denotes exactly the keyed counters.
pub proof fn lemma_pairs_map<T>(ks: Seq<(T, Seq<char>)>, cs: Seq<Replacement>)
    requires
        ks.len() == cs.len(),
        forall|i: int, j: int| 0 <= i < j < ks.len() ==> ks[i] != ks[j],
    ensures
        forall|k: (T, Seq<char>)|
            pairs_map(ks, cs).contains_key(k) <==> exists|i: int|
                0 <= i < ks.len() && #[trigger] ks[i] == k,
        forall|i: int|
            0 <= i < ks.len() ==> pairs_map(ks, cs).contains_key(#[trigger] ks[i]) && pairs_map(
                ks,
                cs,
            )[ks[i]] == cs[i],
    decreases ks.len(),
{
    if ks.len() > 0 {
        lemma_pairs_map(ks.drop_last(), cs.drop_last());
        assert(pairs_map(ks, cs) == pairs_map(ks.drop_last(), cs.drop_last()).insert(
            ks.last(),
            cs.last(),
        ));
        assert forall|k: (T, Seq<char>)| pairs_map(ks, cs).contains_key(k) implies exists|i: int|
            0 <= i < ks.len() && #[trigger] ks[i] == k by {
            if k == ks.last() {
                assert(ks[ks.len() - 1] == k);
            } else {
                assert(pairs_map(ks.drop_last(), cs.drop_last()).contains_key(k));
                let i = choose|i: int|
                    0 <= i < ks.drop_last().len() && #[trigger] ks.drop_last()[i] == k;
                assert(ks[i] == k);
            }
        }
        assert forall|k: (T, Seq<char>)|
            (exists|i: int| 0 <= i < ks.len() && #[trigger] ks[i] == k) implies pairs_map(
            ks,
            cs,
        ).contains_key(k) by {
            let i = choose|i: int| 0 <= i < ks.len() && #[trigger] ks[i] == k;
            if i < ks.len() - 1 {
                assert(ks.drop_last()[i] == k);
            }
        }
        assert forall|i: int| 0 <= i < ks.len() implies pairs_map(ks, cs).contains_key(
            #[trigger] ks[i],
        ) && pairs_map(ks, cs)[ks[i]] == cs[i] by {
            if i < ks.len() - 1 {
                assert(ks.drop_last()[i] == ks[i]);
                assert(cs.drop_last()[i] == cs[i]);
                assert(ks[i] != ks[ks.len() - 1]);
            }
        }
    }
}

/// The map an association list denotes has finitely many keys.
pub proof fn lemma_pairs_map_finite<T>(ks: Seq<(T, Seq<char>)>, cs: Seq<Replacement>)
    ensures
        pairs_map(ks, cs).dom().finite(),
    decreases ks.len(),
{
    if ks.len() == 0 || cs.len() == 0 {
        assert(pairs_map(ks, cs).dom() =~= Set::<(T, Seq<char>)>::empty());
    } else {
        lemma_pairs_map_finite(ks.drop_last(), cs.drop_last());
        assert(pairs_map(ks, cs).dom() =~= pairs_map(ks.drop_last(), cs.drop_last()).dom().insert(
            ks.last(),
        ));
    }
}

/// The result of one aggregation run: a mapping from (bucket, part number)
/// to its two counters, uniquely keyed, read-only once built.
#[derive(Debug)]
pub struct Replacements<T> {
    keys: Vec<ReplacementKey<T>>,
    counts: Vec<Replacement>,
}

impl<T> Replacements<T> {
    /// The keys of the entries, in order of first sight.
    pub closed spec fn entry_keys(&self) -> Seq<(T, Seq<char>)> {
        Seq::new(self.keys@.len(), |i: int| key_view(self.keys@[i]))
    }

    /// The counters of the entries, in the same order.
    pub closed spec fn entry_counts(&self) -> Seq<Replacement> {
        self.counts@
    }

    /// Every key names exactly one entry.
    pub open spec fn wf(&self) -> bool {
        &&& self.entry_keys().len() == self.entry_counts().len()
        &&& forall|i: int, j: int|
            0 <= i < j < self.entry_keys().len() ==> self.entry_keys()[i] != self.entry_keys()[j]
    }
}

impl<T> View for Replacements<T> {
    type V = Map<(T, Seq<char>), Replacement>;

    open spec fn view(&self) -> Map<(T, Seq<char>), Replacement> {
        pairs_map(self.entry_keys(), self.entry_counts())
    }
}

impl<T: BucketKey> Replacements<T> {
    /// Aggregates the records against the store under the classifier: the
    /// single entry point of the two-pass count described on this module.
    /// Fails with the first record whose work order does not resolve.
    pub fn new<C: Classifier<T>>(
        store: &WorkOrderStore,
        records: &Vec<ConditionCodeRecord>,
        classifier: &C,
    ) -> (r: Result<Replacements<T>, HierarchyError>)
        requires
            store.wf(),
        ensures
            match r {
                Ok(res) => {
                    &&& res.wf()
                    &&& first_error(id_map(store@), store@.len() as nat, records@) is None
                    &&& res@ == aggregate_map(store@, classifier, records@)
                },
                Err(e) => first_error(id_map(store@), store@.len() as nat, records@) == Some(e),
            },
    {
        let ghost m = id_map(store@);
        let ghost fuel = store@.len() as nat;
        let mut keys: Vec<ReplacementKey<T>> = Vec::new();
        let mut counts: Vec<Replacement> = Vec::new();
        let n_rec = records.len();
        let mut i: usize = 0;
        proof {
            assert(records@.subrange(0, 0) =~= Seq::<ConditionCodeRecord>::empty());
        }
        while i < n_rec
            invariant
                0 <= i <= n_rec,
                n_rec == records@.len(),
                store.wf(),
                m == id_map(store@),
                fuel == store@.len() as nat,
                keys@.len() == counts@.len(),
                first_error(m, fuel, records@.subrange(0, i as int)) is None,
                forall|p: int, q: int|
                    0 <= p < q < keys@.len() ==> key_view(keys@[p]) != key_view(keys@[q]),
                forall|p: int|
                    0 <= p < keys@.len() ==> (#[trigger] counts@[p]).replacements == rep_count(
                        m,
                        fuel,
                        classifier,
                        records@.subrange(0, i as int),
                        key_view(keys@[p]).0,
                        key_view(keys@[p]).1,
                    ) && counts@[p].work_order_count == 0 && counts@[p].replacements >= 1,
                forall|b: T, pt: Seq<char>|
                    #[trigger] rep_count(m, fuel, classifier, records@.subrange(0, i as int), b, pt)
                        > 0 ==> exists|p: int|
                        0 <= p < keys@.len() && key_view(#[trigger] keys@[p]) == (b, pt),
            decreases n_rec - i,
        {
            let rec = &records[i];
            let ghost prefix = records@.subrange(0, i as int);
            let ghost prefix1 = records@.subrange(0, i as int + 1);
            let ghost rpart = records@[i as int].part_number@;
            proof {
                assert(prefix1.drop_last() =~= prefix);
                assert(prefix1.last() == records@[i as int]);
            }
            match store.resolve_top_level(rec.work_order) {
                Err(e) => {
                    proof {
                        lemma_first_error_from(m, fuel, records@, i as int);
                    }
                    return Err(e);
                },
                Ok(top) => {
                    match classifier.classify(top) {
                        None => {
                            proof {
                                assert forall|b: T, pt: Seq<char>|
                                    #[trigger] rep_count(m, fuel, classifier, prefix1, b, pt)
                                        == rep_count(m, fuel, classifier, prefix, b, pt) by {
                                    assert(!record_matches(
                                        m,
                                        fuel,
                                        classifier,
                                        records@[i as int],
                                        b,
                                        pt,
                                    ));
                                }
                            }
                        },
                        Some(t) => {
                            let n_keys = keys.len();
                            let mut p: usize = 0;
                            let mut found: bool = false;
                            while !found && p < n_keys
                                invariant
                                    0 <= p <= n_keys,
                                    n_keys == keys@.len(),
                                    keys@.len() == counts@.len(),
                                    rpart == records@[i as int].part_number@,
                                    i < records@.len(),
                                    !found ==> forall|q: int|
                                        0 <= q < p ==> key_view(#[trigger] keys@[q]) != (t, rpart),
                                    found ==> p < n_keys && key_view(keys@[p as int]) == (
                                        t,
                                        rpart,
                                    ),
                                decreases n_keys - p + (if found {
                                    0int
                                } else {
                                    1int
                                }),
                            {
                                let same_bucket = keys[p].bucket.eq_key(&t);
                                let same_part = str_eq_exec(
                                    keys[p].part.as_str(),
                                    records[i].part_number.as_str(),
                                );
                                if same_bucket && same_part {
                                    found = true;
                                } else {
                                    p = p + 1;
                                }
                            }
                            proof {
                                assert(record_matches(
                                    m,
                                    fuel,
                                    classifier,
                                    records@[i as int],
                                    t,
                                    rpart,
                                ));
                                assert forall|b: T, pt: Seq<char>|
                                    #[trigger] rep_count(m, fuel, classifier, prefix1, b, pt)
                                        == rep_count(m, fuel, classifier, prefix, b, pt) + (
                                    if b == t && pt == rpart {
                                        1nat
                                    } else {
                                        0nat
                                    }) by {
                                    if b == t && pt == rpart {
                                    } else {
                                        assert(!record_matches(
                                            m,
                                            fuel,
                                            classifier,
                                            records@[i as int],
                                            b,
                                            pt,
                                        ));
                                    }
                                }
                                lemma_rep_count_le_len(m, fuel, classifier, prefix, t, rpart);
                            }
                            let ghost keys0 = keys@;
                            if found {
                                let old_c = counts[p];
                                counts[p] = Replacement {
                                    replacements: old_c.replacements + 1,
                                    work_order_count: 0,
                                };
                                proof {
                                    assert forall|b: T, pt: Seq<char>|
                                        #[trigger] rep_count(m, fuel, classifier, prefix1, b, pt)
                                            > 0 implies exists|q: int|
                                            0 <= q < keys@.len() && key_view(#[trigger] keys@[q])
                                                == (b, pt) by {
                                        if b == t && pt == rpart {
                                            assert(key_view(keys@[p as int]) == (b, pt));
                                        } else {
                                            assert(rep_count(m, fuel, classifier, prefix, b, pt)
                                                > 0);
                                        }
                                    }
                                }
                            } else {
                                keys.push(
                                    ReplacementKey { bucket: t, part: records[i].part_number.clone() },
                                );
                                counts.push(Replacement { replacements: 1, work_order_count: 0 });
                                proof {
                                    assert(rep_count(m, fuel, classifier, prefix, t, rpart) == 0);
                                    assert(key_view(keys@[keys@.len() - 1]) == (t, rpart));
                                    assert forall|b: T, pt: Seq<char>|
                                        #[trigger] rep_count(m, fuel, classifier, prefix1, b, pt)
                                            > 0 implies exists|q: int|
                                            0 <= q < keys@.len() && key_view(#[trigger] keys@[q])
                                                == (b, pt) by {
                                        if b == t && pt == rpart {
                                            assert(key_view(keys@[keys@.len() - 1]) == (b, pt));
                                        } else {
                                            assert(rep_count(m, fuel, classifier, prefix, b, pt)
                                                > 0);
                                            let q = choose|q: int|
                                                0 <= q < keys0.len() && key_view(
                                                    #[trigger] keys0[q],
                                                ) == (b, pt);
                                            assert(keys@[q] == keys0[q]);
                                            assert(key_view(keys@[q]) == (b, pt));
                                        }
                                    }
                                }
                            }
                        },
                    }
                },
            }
            i = i + 1;
        }
        proof {
            assert(records@.subrange(0, n_rec as int) =~= records@);
        }
        // Pass two runs strictly after pass one: it only updates rows that
        // already exist, so interleaving would undercount denominators.
        let n_wo = store.len();
        let mut j: usize = 0;
        proof {
            assert(store@.subrange(0, 0) =~= Seq::<WorkOrder>::empty());
        }
        while j < n_wo
            invariant
                0 <= j <= n_wo,
                n_wo == store@.len(),
                store.wf(),
                m == id_map(store@),
                fuel == store@.len() as nat,
                keys@.len() == counts@.len(),
                first_error(m, fuel, records@) is None,
                forall|p: int, q: int|
                    0 <= p < q < keys@.len() ==> key_view(keys@[p]) != key_view(keys@[q]),
                forall|p: int|
                    0 <= p < keys@.len() ==> (#[trigger] counts@[p]).replacements == rep_count(
                        m,
                        fuel,
                        classifier,
                        records@,
                        key_view(keys@[p]).0,
                        key_view(keys@[p]).1,
                    ) && counts@[p].replacements >= 1,
                forall|b: T, pt: Seq<char>|
                    #[trigger] rep_count(m, fuel, classifier, records@, b, pt) > 0 ==> exists|
                        p: int,
                    |
                        0 <= p < keys@.len() && key_view(#[trigger] keys@[p]) == (b, pt),
                forall|p: int|
                    0 <= p < keys@.len() ==> (#[trigger] counts@[p]).work_order_count == wo_count(
                        classifier,
                        store@.subrange(0, j as int),
                        key_view(keys@[p]).0,
                    ),
            decreases n_wo - j,
        {
            let wo = store.get(j);
            let ghost wprefix = store@.subrange(0, j as int);
            let ghost wprefix1 = store@.subrange(0, j as int + 1);
            proof {
                assert(wprefix1.drop_last() =~= wprefix);
                assert(wprefix1.last() == store@[j as int]);
            }
            let is_top = match wo.parent {
                None => true,
                Some(_) => false,
            };
            if is_top {
                match classifier.classify(wo) {
                    None => {
                        proof {
                            assert forall|b: T|
                                #[trigger] wo_count(classifier, wprefix1, b) == wo_count(
                                    classifier,
                                    wprefix,
                                    b,
                                ) by {
                                assert(!wo_matches(classifier, store@[j as int], b));
                            }
                        }
                    },
                    Some(t) => {
                        proof {
                            assert forall|b: T|
                                #[trigger] wo_count(classifier, wprefix1, b) == wo_count(
                                    classifier,
                                    wprefix,
                                    b,
                                ) + (if b == t {
                                    1nat
                                } else {
                                    0nat
                                }) by {
                                if b == t {
                                    assert(wo_matches(classifier, store@[j as int], b));
                                } else {
                                    assert(!wo_matches(classifier, store@[j as int], b));
                                }
                            }
                        }
                        let n_keys = keys.len();
                        let mut p: usize = 0;
                        while p < n_keys
                            invariant
                                0 <= p <= n_keys,
                                n_keys == keys@.len(),
                                keys@.len() == counts@.len(),
                                forall|b: T|
                                    #[trigger] wo_count(classifier, wprefix1, b) == wo_count(
                                        classifier,
                                        wprefix,
                                        b,
                                    ) + (if b == t {
                                        1nat
                                    } else {
                                        0nat
                                    }),
                                forall|q: int, q2: int|
                                    0 <= q < q2 < keys@.len() ==> key_view(keys@[q]) != key_view(
                                        keys@[q2],
                                    ),
                                forall|q: int|
                                    0 <= q < keys@.len() ==> (#[trigger] counts@[q]).replacements
                                        == rep_count(
                                        m,
                                        fuel,
                                        classifier,
                                        records@,
                                        key_view(keys@[q]).0,
                                        key_view(keys@[q]).1,
                                    ) && counts@[q].replacements >= 1,
                                forall|q: int|
                                    0 <= q < p ==> (#[trigger] counts@[q]).work_order_count
                                        == wo_count(classifier, wprefix1, key_view(keys@[q]).0),
                                forall|q: int|
                                    p <= q < keys@.len() ==> (
                                    #[trigger] counts@[q]).work_order_count == wo_count(
                                        classifier,
                                        wprefix,
                                        key_view(keys@[q]).0,
                                    ),
                                j < store@.len(),
                                n_wo == store@.len(),
                                wprefix == store@.subrange(0, j as int),
                            decreases n_keys - p,
                        {
                            if keys[p].bucket.eq_key(&t) {
                                proof {
                                    assert(key_view(keys@[p as int]).0 == t);
                                    assert(counts@[p as int].work_order_count == wo_count(
                                        classifier,
                                        wprefix,
                                        t,
                                    ));
                                    lemma_wo_count_le_len(classifier, wprefix, t);
                                    assert(wprefix.len() == j as int);
                                    assert(counts@[p as int].work_order_count < u64::MAX);
                                }
                                let old_c = counts[p];
                                counts[p] = Replacement {
                                    replacements: old_c.replacements,
                                    work_order_count: old_c.work_order_count + 1,
                                };
                            }
                            p = p + 1;
                        }
                    },
                }
            } else {
                proof {
                    assert forall|b: T|
                        #[trigger] wo_count(classifier, wprefix1, b) == wo_count(
                            classifier,
                            wprefix,
                            b,
                        ) by {
                        assert(!wo_matches(classifier, store@[j as int], b));
                    }
                }
            }
            j = j + 1;
        }
        let res = Replacements { keys, counts };
        proof {
            assert(store@.subrange(0, n_wo as int) =~= store@);
            assert(res.entry_keys().len() == res.entry_counts().len());
            assert forall|a: int, b: int|
                0 <= a < b < res.entry_keys().len() implies res.entry_keys()[a]
                != res.entry_keys()[b] by {
                assert(res.entry_keys()[a] == key_view(res.keys@[a]));
                assert(res.entry_keys()[b] == key_view(res.keys@[b]));
            }
            lemma_pairs_map(res.entry_keys(), res.entry_counts());
            let goal = aggregate_map(store@, classifier, records@);
            assert forall|k: (T, Seq<char>)| res@.contains_key(k) implies goal.contains_key(k) by {
                let p = choose|p: int|
                    0 <= p < res.entry_keys().len() && #[trigger] res.entry_keys()[p] == k;
                assert(key_view(res.keys@[p]) == k);
                assert(counts@[p].replacements >= 1);
            }
            assert forall|k: (T, Seq<char>)| goal.contains_key(k) implies res@.contains_key(k) by {
                assert(rep_count(m, fuel, classifier, records@, k.0, k.1) > 0);
                let p = choose|p: int|
                    0 <= p < keys@.len() && key_view(#[trigger] keys@[p]) == (k.0, k.1);
                assert(res.entry_keys()[p] == k);
            }
            assert forall|k: (T, Seq<char>)| res@.contains_key(k) implies res@[k] == goal[k] by {
                let p = choose|p: int|
                    0 <= p < res.entry_keys().len() && #[trigger] res.entry_keys()[p] == k;
                assert(res@[res.entry_keys()[p]] == res.entry_counts()[p]);
                assert(key_view(res.keys@[p]) == k);
                assert(counts@[p].replacements == rep_count(m, fuel, classifier, records@, k.0, k.1));
                assert(counts@[p].work_order_count == wo_count(classifier, store@, k.0));
            }
            assert(res@ =~= goal);
        }
        Ok(res)
    }

    /// The number of entries in the result.
    pub fn num_entries(&self) -> (r: usize)
        ensures
            r == self.entry_keys().len(),
    {
        self.keys.len()
    }

    /// The key of the entry at a position.
    pub fn key_at(&self, i: usize) -> (r: &ReplacementKey<T>)
        requires
            i < self.entry_keys().len(),
        ensures
            key_view(*r) == self.entry_keys()[i as int],
    {
        &self.keys[i]
    }

    /// The counters of the entry at a position.
    pub fn count_at(&self, i: usize) -> (r: Replacement)
        requires
            self.wf(),
            i < self.entry_keys().len(),
        ensures
            r == self.entry_counts()[i as int],
    {
        self.counts[i]
    }

    /// The counters recorded for a bucket and a part number, when an entry
    /// exists for them.
    pub fn lookup(&self, bucket: &T, part: &str) -> (r: Option<Replacement>)
        requires
            self.wf(),
        ensures
            match r {
                Some(c) => self@.contains_key((*bucket, part@)) && c == self@[(*bucket, part@)],
                None => !self@.contains_key((*bucket, part@)),
            },
    {
        let n = self.keys.len();
        let mut p: usize = 0;
        while p < n
            invariant
                0 <= p <= n,
                n == self.keys@.len(),
                self.wf(),
                forall|q: int| 0 <= q < p ==> key_view(#[trigger] self.keys@[q]) != (*bucket, part@),
            decreases n - p,
        {
            let same_bucket = self.keys[p].bucket.eq_key(bucket);
            let same_part = str_eq_exec(self.keys[p].part.as_str(), part);
            if same_bucket && same_part {
                proof {
                    lemma_pairs_map(self.entry_keys(), self.entry_counts());
                    assert(self.entry_keys()[p as int] == (*bucket, part@));
                }
                return Some(self.counts[p]);
            }
            p = p + 1;
        }
        proof {
            lemma_pairs_map(self.entry_keys(), self.entry_counts());
            assert forall|q: int|
                0 <= q < self.entry_keys().len() implies #[trigger] self.entry_keys()[q] != (
                *bucket,
                part@,
            ) by {
                assert(self.entry_keys()[q] == key_view(self.keys@[q]));
            }
        }
        None
    }
}

} // verus!
